//! Contacts, the relationship links between them, and the name-based lookup.
use vstd::prelude::*;
use crate::error::TuppError;
use crate::ident::{parse_identifier, parsed_identifier, fresh_identifier};
use crate::models::{
    Address, Date, Email, Gender, Identity, PhoneNumber, Social, opt_text, label_taken, effective_label,
    find_label, label_or_default, text_or_empty,
};
use crate::text::{
    is_space, is_whitespace_char,
    collapse_spaces, replace_all, folded_contains, lower_of, chars_of, string_of, replace_text,
    trim_extra_spaces, contains_ignoring_case, append_str, lowercase,
};

verus! {

#[derive(Debug, Clone, Copy, PartialEq, Eq, Structural)]
pub enum Relation {
    Friend,
    Child,
    Parent,
    Boss,
    Employee,
    Colleague,
    Partner,
    Spouse,
    Ex,
}

/// A directed edge to another contact.
#[derive(Debug, Clone, Copy, PartialEq, Eq, Structural)]
pub struct Link {
    pub target: u128,
    pub relation: Relation,
}

#[derive(Debug, Clone, PartialEq, Eq)]
pub struct Contact {
    pub identifier: u128,
    pub identity: Identity,
    pub address: Option<Address>,
    pub emails: Option<Vec<Email>>,
    pub phones: Option<Vec<PhoneNumber>>,
    pub socials: Option<Vec<Social>>,
    pub groups: Option<Vec<u128>>,
    pub links: Option<Vec<Link>>,
}

/// The relation seen from the other end of a link.
pub open spec fn reciprocal(r: Relation) -> Relation {
    match r {
        Relation::Child => Relation::Parent,
        Relation::Parent => Relation::Child,
        Relation::Boss => Relation::Employee,
        Relation::Employee => Relation::Boss,
        other => other,
    }
}

/// The relation that a lowercase token names.
pub open spec fn relation_named(s: Seq<char>) -> Option<Relation> {
    if s == "friend"@ {
        Some(Relation::Friend)
    } else if s == "child"@ {
        Some(Relation::Child)
    } else if s == "parent"@ {
        Some(Relation::Parent)
    } else if s == "boss"@ {
        Some(Relation::Boss)
    } else if s == "employee"@ {
        Some(Relation::Employee)
    } else if s == "colleague"@ {
        Some(Relation::Colleague)
    } else if s == "partner"@ {
        Some(Relation::Partner)
    } else if s == "spouse"@ {
        Some(Relation::Spouse)
    } else if s == "ex"@ {
        Some(Relation::Ex)
    } else {
        None
    }
}

/// The relation a token names, ignoring case.
pub open spec fn relation_of_token(token: Seq<char>) -> Option<Relation> {
    relation_named(lower_of(token))
}

/// The message that rejects an unknown relation token and lists the accepted ones.
pub open spec fn invalid_relation_message(token: Seq<char>) -> Seq<char> {
    "Invalid relation type: "@ + token
        + ". Valid types are: friend, child, parent, boss, employee, colleague, partner, spouse, ex"@
}

/// What linking `a` to `b` under `token` did: for a known relation, `a` gained
/// a link to `b` under it and `b` a link back under its reciprocal; for an
/// unknown token, neither changed and the error lists the accepted tokens.
pub open spec fn link_outcome(
    a0: Contact,
    a1: Contact,
    b0: Contact,
    b1: Contact,
    token: Seq<char>,
    r: Result<(), String>,
) -> bool {
    match relation_of_token(token) {
        Some(rel) => {
            &&& r is Ok
            &&& link_appended(a0, a1, Link { target: b0.identifier, relation: rel })
            &&& link_appended(b0, b1, Link { target: a0.identifier, relation: reciprocal(rel) })
        },
        None => {
            &&& r is Err
            &&& r->Err_0@ == invalid_relation_message(token)
            &&& a1 == a0
            &&& b1 == b0
        },
    }
}

/// The reciprocal of the reciprocal of a relation is the relation itself.
pub proof fn lemma_reciprocal_involutive(r: Relation)
    ensures
        reciprocal(reciprocal(r)) == r,
{
}

/// Linking under a recognised token succeeds and leaves `a` holding a link to
/// `b` under the relation, and `b` a link to `a` under its reciprocal, whose
/// own reciprocal is the relation again.
pub proof fn law_link_recognised(
    a0: Contact,
    a1: Contact,
    b0: Contact,
    b1: Contact,
    token: Seq<char>,
    r: Result<(), String>,
)
    requires
        link_outcome(a0, a1, b0, b1, token, r),
        relation_of_token(token) is Some,
    ensures
        ({
            let rel = relation_of_token(token)->0;
            &&& r is Ok
            &&& links_of(a1).contains(Link { target: b0.identifier, relation: rel })
            &&& links_of(b1).contains(Link { target: a0.identifier, relation: reciprocal(rel) })
            &&& reciprocal(reciprocal(rel)) == rel
        }),
{
    let rel = relation_of_token(token)->0;
    assert(links_of(a1)[links_of(a1).len() - 1] == Link { target: b0.identifier, relation: rel });
    assert(links_of(b1)[links_of(b1).len() - 1] == Link {
        target: a0.identifier,
        relation: reciprocal(rel),
    });
    lemma_reciprocal_involutive(rel);
}

/// Linking under an unrecognised token changes neither contact and fails with
/// the message that lists every accepted token.
pub proof fn law_link_unrecognised(
    a0: Contact,
    a1: Contact,
    b0: Contact,
    b1: Contact,
    token: Seq<char>,
    r: Result<(), String>,
)
    requires
        link_outcome(a0, a1, b0, b1, token, r),
        relation_of_token(token) is None,
    ensures
        a1 == a0,
        b1 == b0,
        r is Err,
        r->Err_0@ == invalid_relation_message(token),
{
}

/// The links a contact holds, none when the list is absent.
pub open spec fn links_of(c: Contact) -> Seq<Link> {
    match c.links {
        Some(v) => v@,
        None => Seq::empty(),
    }
}

/// `after` is `before` with `link` appended to its (possibly absent) link list,
/// every other field unchanged.
pub open spec fn link_appended(before: Contact, after: Contact, link: Link) -> bool {
    &&& after.links is Some
    &&& links_of(after) == links_of(before).push(link)
    &&& after.identifier == before.identifier
    &&& after.identity == before.identity
    &&& after.address == before.address
    &&& after.emails == before.emails
    &&& after.phones == before.phones
    &&& after.socials == before.socials
    &&& after.groups == before.groups
}

/// A name rendered through a pattern: each of the tokens `TITLE FIRST MIDDLE
/// LAST POST` replaced, in that order, by its field (empty when unset), then
/// whitespace collapsed and trimmed.
pub open spec fn formatted_name(id: Identity, pattern: Seq<char>) -> Seq<char> {
    let a = replace_all(pattern, "TITLE"@, opt_text(id.title));
    let b = replace_all(a, "FIRST"@, opt_text(id.first_name));
    let c = replace_all(b, "MIDDLE"@, opt_text(id.middle_name));
    let d = replace_all(c, "LAST"@, opt_text(id.last_name));
    let e = replace_all(d, "POST"@, opt_text(id.post_nominal));
    collapse_spaces(e)
}

/// The pattern that spells out every name field.
pub open spec fn full_pattern() -> Seq<char> {
    "TITLE FIRST MIDDLE LAST POST"@
}

/// Whether a contact's full name contains the whitespace-normalised query, ignoring case.
pub open spec fn name_matches(c: Contact, query: Seq<char>) -> bool {
    folded_contains(formatted_name(c.identity, full_pattern()), collapse_spaces(query))
}

/// Whether `i` is the first position in `cs` of a contact with identifier `id`.
pub open spec fn first_with_identifier(cs: Seq<Contact>, id: u128, i: int) -> bool {
    &&& 0 <= i < cs.len()
    &&& cs[i].identifier == id
    &&& forall|j: int| 0 <= j < i ==> (#[trigger] cs[j]).identifier != id
}

/// Whether some contact of `cs` has identifier `id`.
pub open spec fn has_identifier(cs: Seq<Contact>, id: u128) -> bool {
    exists|i: int| 0 <= i < cs.len() && (#[trigger] cs[i]).identifier == id
}

/// Whether the query resolves by identifier: it is a UUID literal of a contact in `cs`.
pub open spec fn resolves_by_identifier(cs: Seq<Contact>, query: Seq<char>) -> bool {
    parsed_identifier(query) is Some && has_identifier(cs, parsed_identifier(query)->0)
}

/// Whether `i` is the first position in `cs` whose name matches the query.
pub open spec fn first_name_match(cs: Seq<Contact>, query: Seq<char>, i: int) -> bool {
    &&& 0 <= i < cs.len()
    &&& name_matches(cs[i], query)
    &&& forall|j: int| 0 <= j < i ==> !name_matches(#[trigger] cs[j], query)
}

/// The contact a query resolves to: by identifier when the query is the
/// identifier of a contact, else the first contact whose name matches.
pub open spec fn best_match(cs: Seq<Contact>, query: Seq<char>, r: Option<usize>) -> bool {
    if resolves_by_identifier(cs, query) {
        r is Some && first_with_identifier(cs, parsed_identifier(query)->0, r->0 as int)
    } else {
        match r {
            Some(i) => first_name_match(cs, query, i as int),
            None => forall|j: int| 0 <= j < cs.len() ==> !name_matches(#[trigger] cs[j], query),
        }
    }
}

/// The relation seen from the other end of a link.
pub fn get_reciprocal_relation(relation: &Relation) -> (r: Relation)
    ensures
        r == reciprocal(*relation),
{
    match relation {
        Relation::Friend => Relation::Friend,
        Relation::Child => Relation::Parent,
        Relation::Parent => Relation::Child,
        Relation::Boss => Relation::Employee,
        Relation::Employee => Relation::Boss,
        Relation::Colleague => Relation::Colleague,
        Relation::Partner => Relation::Partner,
        Relation::Spouse => Relation::Spouse,
        Relation::Ex => Relation::Ex,
    }
}

/// The relation that an already lowercased token names.
pub fn relation_from_lowercase(s: &String) -> (r: Option<Relation>)
    ensures
        r == relation_named(s@),
{
    if s.eq(&"friend".to_owned()) {
        Some(Relation::Friend)
    } else if s.eq(&"child".to_owned()) {
        Some(Relation::Child)
    } else if s.eq(&"parent".to_owned()) {
        Some(Relation::Parent)
    } else if s.eq(&"boss".to_owned()) {
        Some(Relation::Boss)
    } else if s.eq(&"employee".to_owned()) {
        Some(Relation::Employee)
    } else if s.eq(&"colleague".to_owned()) {
        Some(Relation::Colleague)
    } else if s.eq(&"partner".to_owned()) {
        Some(Relation::Partner)
    } else if s.eq(&"spouse".to_owned()) {
        Some(Relation::Spouse)
    } else if s.eq(&"ex".to_owned()) {
        Some(Relation::Ex)
    } else {
        None
    }
}

/// The message that rejects an unknown relation token.
pub fn invalid_relation(token: &str) -> (r: String)
    ensures
        r@ == invalid_relation_message(token@),
{
    let mut out: Vec<char> = Vec::new();
    append_str(&mut out, "Invalid relation type: ");
    append_str(&mut out, token);
    append_str(
        &mut out,
        ". Valid types are: friend, child, parent, boss, employee, colleague, partner, spouse, ex",
    );
    string_of(&out)
}

/// Appends `link` to an optional link list, creating the list when absent.
fn push_link(links: &mut Option<Vec<Link>>, link: Link)
    ensures
        (*final(links)) is Some,
        (*final(links))->0@ == (match *old(links) {
            Some(v) => v@,
            None => Seq::empty(),
        }).push(link),
{
    match links.take() {
        Some(mut v) => {
            v.push(link);
            *links = Some(v);
        },
        None => {
            let mut v: Vec<Link> = Vec::new();
            v.push(link);
            *links = Some(v);
        },
    }
}

impl Contact {
    /// A new contact with a fresh random identifier and no optional data.
    pub fn new(identity: Identity) -> (r: Contact)
        ensures
            r.identity == identity,
            r.address is None,
            r.emails is None,
            r.phones is None,
            r.socials is None,
            r.groups is None,
            r.links is None,
    {
        Contact {
            identifier: fresh_identifier(),
            identity,
            address: None,
            emails: None,
            phones: None,
            socials: None,
            groups: None,
            links: None,
        }
    }

    /// The contact's name rendered through `pattern`.
    pub fn format_name(&self, pattern: &str) -> (r: String)
        ensures
            r@ == formatted_name(self.identity, pattern@),
    {
        let p = chars_of(pattern);
        let a = replace_text(&p, &chars_of("TITLE"), &chars_of(text_or_empty(&self.identity.title).as_str()));
        let b = replace_text(&a, &chars_of("FIRST"), &chars_of(text_or_empty(&self.identity.first_name).as_str()));
        let c = replace_text(&b, &chars_of("MIDDLE"), &chars_of(text_or_empty(&self.identity.middle_name).as_str()));
        let d = replace_text(&c, &chars_of("LAST"), &chars_of(text_or_empty(&self.identity.last_name).as_str()));
        let e = replace_text(&d, &chars_of("POST"), &chars_of(text_or_empty(&self.identity.post_nominal).as_str()));
        let s = string_of(&e);
        trim_extra_spaces(s.as_str())
    }

    /// The relation a token names, ignoring case.
    pub fn parse_relation(token: &str) -> (r: Option<Relation>)
        ensures
            r == relation_of_token(token@),
    {
        let key = lowercase(token);
        relation_from_lowercase(&key)
    }

    /// Links `a` to `b` under the relation the token names and `b` back to `a`
    /// under its reciprocal. An unknown token changes neither contact and is
    /// reported with the accepted tokens.
    pub fn create_bidirectional_link(
        contact_a: &mut Contact,
        contact_b: &mut Contact,
        relation_type: String,
    ) -> (r: Result<(), String>)
        ensures
            link_outcome(
                *old(contact_a),
                *final(contact_a),
                *old(contact_b),
                *final(contact_b),
                relation_type@,
                r,
            ),
    {
        match Self::parse_relation(relation_type.as_str()) {
            Some(relation) => {
                let back = get_reciprocal_relation(&relation);
                let a_id = contact_a.identifier;
                let b_id = contact_b.identifier;
                push_link(&mut contact_a.links, Link { target: b_id, relation });
                push_link(&mut contact_b.links, Link { target: a_id, relation: back });
                Ok(())
            },
            None => Err(invalid_relation(relation_type.as_str())),
        }
    }

    /// Appends a link to this contact alone.
    pub fn add_link(&mut self, link: Link)
        ensures
            link_appended(*old(self), *final(self), link),
    {
        push_link(&mut self.links, link);
    }

    /// Whether this contact already holds a link to `target`, under any relation.
    pub fn links_to(&self, target: u128) -> (r: bool)
        ensures
            r == exists|i: int|
                0 <= i < links_of(*self).len() && (#[trigger] links_of(*self)[i]).target == target,
    {
        match &self.links {
            Some(v) => {
                let mut i: usize = 0;
                while i < v.len()
                    invariant
                        i <= v@.len(),
                        links_of(*self) == v@,
                        forall|k: int| 0 <= k < i ==> (#[trigger] v@[k]).target != target,
                    decreases v@.len() - i,
                {
                    if v[i].target == target {
                        return true;
                    }
                    i = i + 1;
                }
                false
            },
            None => false,
        }
    }

    /// The position of the first contact with identifier `id`.
    pub fn position_of(contacts: &Vec<Contact>, id: u128) -> (r: Option<usize>)
        ensures
            match r {
                Some(i) => first_with_identifier(contacts@, id, i as int),
                None => !has_identifier(contacts@, id),
            },
    {
        let mut i: usize = 0;
        while i < contacts.len()
            invariant
                i <= contacts@.len(),
                forall|j: int| 0 <= j < i ==> (#[trigger] contacts@[j]).identifier != id,
            decreases contacts@.len() - i,
        {
            if contacts[i].identifier == id {
                return Some(i);
            }
            i = i + 1;
        }
        None
    }

    /// Resolves a query to one contact: the contact whose identifier the query
    /// spells, else the first whose full name contains the query, ignoring case
    /// and surplus whitespace.
    pub fn find_best_match(contacts: &Vec<Contact>, text: &str) -> (r: Option<usize>)
        ensures
            best_match(contacts@, text@, r),
    {
        if let Some(id) = parse_identifier(text) {
            if let Some(i) = Self::position_of(contacts, id) {
                return Some(i);
            }
        }
        let query = trim_extra_spaces(text);
        let mut i: usize = 0;
        while i < contacts.len()
            invariant
                i <= contacts@.len(),
                !resolves_by_identifier(contacts@, text@),
                query@ == collapse_spaces(text@),
                forall|j: int| 0 <= j < i ==> !name_matches(#[trigger] contacts@[j], text@),
            decreases contacts@.len() - i,
        {
            let name = contacts[i].format_name("TITLE FIRST MIDDLE LAST POST");
            if contains_ignoring_case(name.as_str(), query.as_str()) {
                return Some(i);
            }
            i = i + 1;
        }
        None
    }
}

/// The message for a label already used by a record of the same kind.
pub open spec fn duplicate_message(kind: Seq<char>, label: Seq<char>) -> Seq<char> {
    kind + " label '"@ + label + "' already exists"@
}

/// The message for a label already used by a record of the same kind.
pub fn duplicate_label(kind: &str, label: &String) -> (r: TuppError)
    ensures
        r is Duplicate && r->Duplicate_0@ == duplicate_message(kind@, label@),
{
    let mut out: Vec<char> = Vec::new();
    append_str(&mut out, kind);
    append_str(&mut out, " label '");
    append_str(&mut out, label.as_str());
    append_str(&mut out, "' already exists");
    TuppError::Duplicate(string_of(&out))
}

/// The records of an optional list, none when it is absent.
pub open spec fn items_of<T>(o: Option<Vec<T>>) -> Seq<T> {
    match o {
        Some(v) => v@,
        None => Seq::empty(),
    }
}

/// `after` equals `before` but for the fields that the guard may change.
pub open spec fn same_identity(before: Contact, after: Contact) -> bool {
    &&& after.identifier == before.identifier
    &&& after.identity == before.identity
    &&& after.groups == before.groups
    &&& after.links == before.links
}

/// Whether the label that a new record with `label` gets is already used in `items`.
pub open spec fn would_duplicate<T: crate::models::Labeled>(
    items: Option<Vec<T>>,
    label: Option<String>,
) -> bool {
    label_taken(items_of(items), effective_label(label))
}

/// Appends `item` to an optional list, creating the list when absent.
fn push_item<T>(list: &mut Option<Vec<T>>, item: T)
    ensures
        (*final(list)) is Some,
        (*final(list))->0@ == items_of(*old(list)).push(item),
{
    match list.take() {
        Some(mut v) => {
            v.push(item);
            *list = Some(v);
        },
        None => {
            let mut v: Vec<T> = Vec::new();
            v.push(item);
            *list = Some(v);
        },
    }
}

/// Whether an optional list holds a record labelled `t`.
fn list_has_label<T: crate::models::Labeled>(list: &Option<Vec<T>>, t: &String) -> (r: bool)
    ensures
        r == label_taken(items_of(*list), t@),
{
    match list {
        Some(v) => find_label(v, t),
        None => false,
    }
}

/// Adds an email under `label` (`default` when none is given), unless the
/// contact already has an email with that label.
pub fn add_email_to_contact(contact: &mut Contact, label: Option<String>, address: String) -> (r:
    Result<(), TuppError>)
    ensures
        would_duplicate(old(contact).emails, label) ==> {
            &&& r is Err
            &&& r->Err_0 is Duplicate
            &&& r->Err_0->Duplicate_0@ == duplicate_message("Email"@, effective_label(label))
            &&& *final(contact) == *old(contact)
        },
        !would_duplicate(old(contact).emails, label) ==> {
            &&& r is Ok
            &&& same_identity(*old(contact), *final(contact))
            &&& final(contact).address == old(contact).address
            &&& final(contact).phones == old(contact).phones
            &&& final(contact).socials == old(contact).socials
            &&& final(contact).emails is Some
            &&& items_of(final(contact).emails).len() == items_of(old(contact).emails).len() + 1
            &&& items_of(final(contact).emails).drop_last() == items_of(old(contact).emails)
            &&& items_of(final(contact).emails).last().label is Some
            &&& items_of(final(contact).emails).last().label->0@ == effective_label(label)
            &&& items_of(final(contact).emails).last().address == Some(address)
        },
{
    let t = label_or_default(label);
    if list_has_label(&contact.emails, &t) {
        return Err(duplicate_label("Email", &t));
    }
    push_item(&mut contact.emails, Email { label: Some(t), address: Some(address) });
    proof {
        assert(items_of(final(contact).emails).drop_last() =~= items_of(old(contact).emails));
    }
    Ok(())
}

/// Adds a phone number under `label` (`default` when none is given), unless
/// the contact already has a phone number with that label.
pub fn add_phone_to_contact(
    contact: &mut Contact,
    label: Option<String>,
    country_code: u16,
    number: u32,
) -> (r: Result<(), TuppError>)
    ensures
        would_duplicate(old(contact).phones, label) ==> {
            &&& r is Err
            &&& r->Err_0 is Duplicate
            &&& r->Err_0->Duplicate_0@ == duplicate_message("Phone"@, effective_label(label))
            &&& *final(contact) == *old(contact)
        },
        !would_duplicate(old(contact).phones, label) ==> {
            &&& r is Ok
            &&& same_identity(*old(contact), *final(contact))
            &&& final(contact).address == old(contact).address
            &&& final(contact).emails == old(contact).emails
            &&& final(contact).socials == old(contact).socials
            &&& final(contact).phones is Some
            &&& items_of(final(contact).phones).len() == items_of(old(contact).phones).len() + 1
            &&& items_of(final(contact).phones).drop_last() == items_of(old(contact).phones)
            &&& items_of(final(contact).phones).last().label is Some
            &&& items_of(final(contact).phones).last().label->0@ == effective_label(label)
            &&& items_of(final(contact).phones).last().country_code == country_code
            &&& items_of(final(contact).phones).last().number == number
        },
{
    let t = label_or_default(label);
    if list_has_label(&contact.phones, &t) {
        return Err(duplicate_label("Phone", &t));
    }
    push_item(&mut contact.phones, PhoneNumber { label: Some(t), country_code, number });
    proof {
        assert(items_of(final(contact).phones).drop_last() =~= items_of(old(contact).phones));
    }
    Ok(())
}

/// Adds a social handle under `label` (`default` when none is given), unless
/// the contact already has a social handle with that label.
pub fn add_social_to_contact(
    contact: &mut Contact,
    label: Option<String>,
    network: String,
    username: String,
) -> (r: Result<(), TuppError>)
    ensures
        would_duplicate(old(contact).socials, label) ==> {
            &&& r is Err
            &&& r->Err_0 is Duplicate
            &&& r->Err_0->Duplicate_0@ == duplicate_message("Social"@, effective_label(label))
            &&& *final(contact) == *old(contact)
        },
        !would_duplicate(old(contact).socials, label) ==> {
            &&& r is Ok
            &&& same_identity(*old(contact), *final(contact))
            &&& final(contact).address == old(contact).address
            &&& final(contact).emails == old(contact).emails
            &&& final(contact).phones == old(contact).phones
            &&& final(contact).socials is Some
            &&& items_of(final(contact).socials).len() == items_of(old(contact).socials).len() + 1
            &&& items_of(final(contact).socials).drop_last() == items_of(old(contact).socials)
            &&& items_of(final(contact).socials).last().label is Some
            &&& items_of(final(contact).socials).last().label->0@ == effective_label(label)
            &&& items_of(final(contact).socials).last().network == network
            &&& items_of(final(contact).socials).last().username == Some(username)
        },
{
    let t = label_or_default(label);
    if list_has_label(&contact.socials, &t) {
        return Err(duplicate_label("Social", &t));
    }
    push_item(&mut contact.socials, Social { label: Some(t), network, username: Some(username) });
    proof {
        assert(items_of(final(contact).socials).drop_last() =~= items_of(old(contact).socials));
    }
    Ok(())
}

/// Sets the contact's postal address, labelled `label` (`default` when none is
/// given), unless the current address already carries that label.
pub fn add_address_to_contact(contact: &mut Contact, address: Address) -> (r: Result<(), TuppError>)
    ensures
        ({
            let taken = old(contact).address is Some && crate::models::label_is(
                old(contact).address->0.label,
                effective_label(address.label),
            );
            &&& taken ==> {
                &&& r is Err
                &&& r->Err_0 is Duplicate
                &&& r->Err_0->Duplicate_0@ == duplicate_message("Address"@, effective_label(address.label))
                &&& *final(contact) == *old(contact)
            }
            &&& !taken ==> {
                &&& r is Ok
                &&& same_identity(*old(contact), *final(contact))
                &&& final(contact).emails == old(contact).emails
                &&& final(contact).phones == old(contact).phones
                &&& final(contact).socials == old(contact).socials
                &&& final(contact).address is Some
                &&& final(contact).address->0.label is Some
                &&& final(contact).address->0.label->0@ == effective_label(address.label)
                &&& final(contact).address->0.country == address.country
                &&& final(contact).address->0.region == address.region
                &&& final(contact).address->0.city == address.city
                &&& final(contact).address->0.post_code == address.post_code
                &&& final(contact).address->0.street == address.street
                &&& final(contact).address->0.number == address.number
            }
        }),
{
    let Address { label, country, region, city, post_code, street, number } = address;
    let t = label_or_default(label);
    let taken = match &contact.address {
        Some(a) => crate::models::label_equals(&a.label, &t),
        None => false,
    };
    if taken {
        return Err(duplicate_label("Address", &t));
    }
    contact.address = Some(Address { label: Some(t), country, region, city, post_code, street, number });
    Ok(())
}

/// Records the contact's gender.
pub fn add_gender_to_contact(contact: &mut Contact, gender: Gender)
    ensures
        *final(contact) == (Contact {
            identity: Identity { gender: Some(gender), ..old(contact).identity },
            ..*old(contact)
        }),
{
    contact.identity.gender = Some(gender);
}

/// A date built from the given parts, when at least one of them is given.
pub open spec fn date_of(day: Option<u8>, month: Option<u8>, year: Option<i32>) -> Option<Date> {
    if day is Some || month is Some || year is Some {
        Some(Date { year, month, day, hour: None, minute: None, second: None })
    } else {
        None
    }
}

/// A date built from the given parts, when at least one of them is given.
pub fn date_from_parts(day: Option<u8>, month: Option<u8>, year: Option<i32>) -> (r: Option<Date>)
    ensures
        r == date_of(day, month, year),
{
    if day.is_some() || month.is_some() || year.is_some() {
        Some(Date { year, month, day, hour: None, minute: None, second: None })
    } else {
        None
    }
}

/// Whether a text holds nothing but whitespace.
pub open spec fn is_blank(s: Seq<char>) -> bool {
    forall|i: int| 0 <= i < s.len() ==> is_space(#[trigger] s[i])
}

/// Whether a text holds nothing but whitespace.
pub fn blank(s: &str) -> (r: bool)
    ensures
        r == is_blank(s@),
{
    let cs = chars_of(s);
    let mut i: usize = 0;
    while i < cs.len()
        invariant
            i <= cs@.len(),
            cs@ == s@,
            forall|k: int| 0 <= k < i ==> is_space(#[trigger] cs@[k]),
        decreases cs@.len() - i,
    {
        if !is_whitespace_char(cs[i]) {
            return false;
        }
        i = i + 1;
    }
    true
}

/// The value a field takes when an update may supply it: the new value when
/// given, else the current one.
pub open spec fn updated<T>(current: Option<T>, given: Option<T>) -> Option<T> {
    if given is Some {
        given
    } else {
        current
    }
}

/// What birth data does to a recorded middle name: a blank one is recorded as absent.
pub open spec fn birth_middle(current: Option<String>, given: Option<String>) -> Option<String> {
    match given {
        Some(m) => if is_blank(m@) {
            None
        } else {
            Some(m)
        },
        None => current,
    }
}

/// Records birth data. Each given name replaces the recorded birth name; a
/// birth middle name that is blank is recorded as absent. The birth date is
/// replaced when any of its parts is given, the birth place when it is given.
/// Nothing else changes.
pub fn add_birth_to_contact(
    contact: &mut Contact,
    first_name: Option<String>,
    middle_name: Option<String>,
    last_name: Option<String>,
    day: Option<u8>,
    month: Option<u8>,
    year: Option<i32>,
    location: Option<Address>,
)
    ensures
        *final(contact) == (Contact {
            identity: Identity {
                birth_first_name: updated(old(contact).identity.birth_first_name, first_name),
                birth_middle_name: birth_middle(old(contact).identity.birth_middle_name, middle_name),
                birth_last_name: updated(old(contact).identity.birth_last_name, last_name),
                birth_date: updated(old(contact).identity.birth_date, date_of(day, month, year)),
                birth_location: updated(old(contact).identity.birth_location, location),
                ..old(contact).identity
            },
            ..*old(contact)
        }),
{
    if first_name.is_some() {
        contact.identity.birth_first_name = first_name;
    }
    if let Some(m) = middle_name {
        if blank(m.as_str()) {
            contact.identity.birth_middle_name = None;
        } else {
            contact.identity.birth_middle_name = Some(m);
        }
    }
    if last_name.is_some() {
        contact.identity.birth_last_name = last_name;
    }
    let date = date_from_parts(day, month, year);
    if date.is_some() {
        contact.identity.birth_date = date;
    }
    if location.is_some() {
        contact.identity.birth_location = location;
    }
}

/// Marks the contact as deceased, recording the death date when any of its
/// parts is given and the place of death when it is given. Nothing else changes.
pub fn add_death_to_contact(
    contact: &mut Contact,
    day: Option<u8>,
    month: Option<u8>,
    year: Option<i32>,
    location: Option<Address>,
)
    ensures
        *final(contact) == (Contact {
            identity: Identity {
                is_alive: false,
                death_date: updated(old(contact).identity.death_date, date_of(day, month, year)),
                death_location: updated(old(contact).identity.death_location, location),
                ..old(contact).identity
            },
            ..*old(contact)
        }),
{
    contact.identity.is_alive = false;
    let date = date_from_parts(day, month, year);
    if date.is_some() {
        contact.identity.death_date = date;
    }
    if location.is_some() {
        contact.identity.death_location = location;
    }
}

} // verus!
