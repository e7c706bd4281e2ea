//! The whole address book: every contact and the group forest, loaded, changed
//! and stored together.
use vstd::prelude::*;
use crate::contact::{
    Contact, Link, items_of, link_appended, links_of, reciprocal, relation_of_token,
    invalid_relation_message, invalid_relation, get_reciprocal_relation, has_identifier,
};
use crate::error::TuppError;
use crate::group::{
    Group, has_group, delete_outcome, insert_outcome, ids_unique, outline, outline_at, entry, line_id,
    lemma_ids_listed, lemma_outline_concat, lemma_outline_single, law_delete_keeps_ids_unique,
    law_insert_keeps_ids_unique, law_insert_then_find,
};
use crate::text::{append_str, string_of};

verus! {

pub struct TuppData {
    pub contacts: Vec<Contact>,
    pub groups: Vec<Group>,
}

/// Whether a contact's memberships list the group `id`.
pub open spec fn is_member(c: Contact, id: u128) -> bool {
    items_of(c.groups).contains(id)
}

/// Whether deleting group `id`, which took `before` to `after`, leaves the
/// membership `x` in place: it goes when it names the deleted group or a group
/// removed along with it.
pub open spec fn keeps_membership(x: u128, id: u128, before: Seq<Group>, after: Seq<Group>) -> bool {
    x != id && (has_group(after, x) || !has_group(before, x))
}

/// A contact's memberships after deleting group `id` took `before` to `after`.
pub open spec fn scrubbed(
    m0: Option<Vec<u128>>,
    m1: Option<Vec<u128>>,
    id: u128,
    before: Seq<Group>,
    after: Seq<Group>,
) -> bool {
    match m0 {
        None => m1 is None,
        Some(v) => m1 is Some && m1->0@ == v@.filter(
            |x: u128| keeps_membership(x, id, before, after),
        ),
    }
}

/// `after` equals `before` but for the group memberships.
pub open spec fn same_but_groups(before: Contact, after: Contact) -> bool {
    &&& after.identifier == before.identifier
    &&& after.identity == before.identity
    &&& after.address == before.address
    &&& after.emails == before.emails
    &&& after.phones == before.phones
    &&& after.socials == before.socials
    &&& after.links == before.links
}

/// The memberships of `v` that deleting group `id` leaves in place; `old_ids`
/// lists the groups of the forest before the deletion, `forest` is the forest after.
fn scrub(
    v: &Vec<u128>,
    id: u128,
    old_ids: &Vec<u128>,
    forest: &Vec<Group>,
    Ghost(before): Ghost<Seq<Group>>,
) -> (r: Vec<u128>)
    requires
        forall|x: u128| old_ids@.contains(x) == has_group(before, x),
    ensures
        r@ == v@.filter(|x: u128| keeps_membership(x, id, before, forest@)),
        v@.no_duplicates() ==> r@.no_duplicates(),
{
    let ghost p = |x: u128| keeps_membership(x, id, before, forest@);
    let mut out: Vec<u128> = Vec::new();
    let mut i: usize = 0;
    proof {
        reveal(Seq::filter);
        assert(v@.take(0).filter(p) =~= Seq::<u128>::empty());
    }
    while i < v.len()
        invariant
            i <= v@.len(),
            p == (|x: u128| keeps_membership(x, id, before, forest@)),
            forall|x: u128| old_ids@.contains(x) == has_group(before, x),
            out@ == v@.take(i as int).filter(p),
            forall|k: int| 0 <= k < out@.len() ==> v@.take(i as int).contains(#[trigger] out@[k]),
            v@.no_duplicates() ==> out@.no_duplicates(),
        decreases v@.len() - i,
    {
        proof {
            reveal(Seq::filter);
            assert(v@.take(i + 1).drop_last() =~= v@.take(i as int));
            assert(v@.take(i + 1).last() == v@[i as int]);
        }
        let x = v[i];
        let keep = x != id && (Group::contains(forest, x) || !contains_id(old_ids, x));
        let ghost before_out = out@;
        if keep {
            out.push(x);
            proof {
                if v@.no_duplicates() {
                    assert forall|k: int, l: int|
                        0 <= k < l < out@.len() implies out@[k] != out@[l] by {
                        if l == out@.len() - 1 && k < before_out.len() {
                            assert(v@.take(i as int).contains(before_out[k]));
                            let j = choose|j: int| 0 <= j < i && v@.take(i as int)[j] == before_out[k];
                            assert(v@[j] == before_out[k]);
                        }
                    }
                }
            }
        }
        proof {
            assert forall|k: int| 0 <= k < out@.len() implies v@.take(i + 1).contains(
                #[trigger] out@[k],
            ) by {
                if k < before_out.len() {
                    let j = choose|j: int| 0 <= j < i && v@.take(i as int)[j] == before_out[k];
                    assert(v@.take(i + 1)[j] == out@[k]);
                } else {
                    assert(v@.take(i + 1)[i as int] == out@[k]);
                }
            }
        }
        i = i + 1;
    }
    proof {
        assert(v@.take(i as int) =~= v@);
    }
    out
}

impl TuppData {
    /// An empty address book.
    pub fn new() -> (r: TuppData)
        ensures
            r.contacts@.len() == 0,
            r.groups@.len() == 0,
    {
        TuppData { contacts: Vec::new(), groups: Vec::new() }
    }

    /// Links the contacts at positions `a` and `b` under the relation the token
    /// names, `a` to `b` and `b` back to `a` under the reciprocal; both links
    /// land on the one contact when `a == b`. An unknown token changes nothing.
    pub fn link_contacts(&mut self, a: usize, b: usize, relation_type: String) -> (r: Result<(), String>)
        requires
            a < old(self).contacts@.len(),
            b < old(self).contacts@.len(),
        ensures
            final(self).groups == old(self).groups,
            final(self).contacts@.len() == old(self).contacts@.len(),
            forall|i: int|
                0 <= i < old(self).contacts@.len() && i != a && i != b ==> final(self).contacts@[i]
                    == old(self).contacts@[i],
            ({
                let ca = old(self).contacts@[a as int];
                let cb = old(self).contacts@[b as int];
                match relation_of_token(relation_type@) {
                    Some(rel) => {
                        let ab = Link { target: cb.identifier, relation: rel };
                        let ba = Link { target: ca.identifier, relation: reciprocal(rel) };
                        &&& r is Ok
                        &&& a != b ==> link_appended(ca, final(self).contacts@[a as int], ab)
                            && link_appended(cb, final(self).contacts@[b as int], ba)
                        &&& a == b ==> links_of(final(self).contacts@[a as int]) == links_of(
                            ca,
                        ).push(ab).push(ba) && final(self).contacts@[a as int].identifier
                            == ca.identifier
                    },
                    None => {
                        &&& r is Err
                        &&& r->Err_0@ == invalid_relation_message(relation_type@)
                        &&& final(self).contacts@ == old(self).contacts@
                    },
                }
            }),
    {
        match Contact::parse_relation(relation_type.as_str()) {
            Some(relation) => {
                let back = get_reciprocal_relation(&relation);
                let a_id = self.contacts[a].identifier;
                let b_id = self.contacts[b].identifier;
                self.contacts[a].add_link(Link { target: b_id, relation });
                self.contacts[b].add_link(Link { target: a_id, relation: back });
                Ok(())
            },
            None => Err(invalid_relation(relation_type.as_str())),
        }
    }

    /// Removes every contact with identifier `id`; `true` when one was removed.
    pub fn delete_contact(&mut self, id: u128) -> (r: bool)
        ensures
            r == has_identifier(old(self).contacts@, id),
            final(self).contacts@ == old(self).contacts@.filter(|c: Contact| c.identifier != id),
            final(self).groups == old(self).groups,
    {
        let ghost p = |c: Contact| c.identifier != id;
        let ghost orig = self.contacts@;
        let n = self.contacts.len();
        let mut rest: Vec<Contact> = Vec::new();
        std::mem::swap(&mut rest, &mut self.contacts);
        let mut kept: Vec<Contact> = Vec::new();
        let mut found = false;
        let mut i: usize = 0;
        proof {
            reveal(Seq::filter);
            assert(orig.take(0).filter(p) =~= Seq::<Contact>::empty());
            assert(orig.skip(0) =~= orig);
        }
        while rest.len() > 0
            invariant
                i <= orig.len(),
                orig.len() == n,
                p == (|c: Contact| c.identifier != id),
                rest@ == orig.skip(i as int),
                kept@ == orig.take(i as int).filter(p),
                found == has_identifier(orig.take(i as int), id),
                self.groups == old(self).groups,
                orig == old(self).contacts@,
            decreases rest@.len(),
        {
            let c = rest.remove(0);
            proof {
                reveal(Seq::filter);
                assert(orig.take(i + 1).drop_last() =~= orig.take(i as int));
                assert(orig.take(i + 1).last() == c);
                assert(rest@ =~= orig.skip(i + 1));
            }
            let keep = c.identifier != id;
            if keep {
                kept.push(c);
            } else {
                found = true;
            }
            proof {
                let t = orig.take(i + 1);
                if has_identifier(t, id) && !has_identifier(orig.take(i as int), id) {
                    let j = choose|j: int| 0 <= j < t.len() && (#[trigger] t[j]).identifier == id;
                    if j < i {
                        assert(orig.take(i as int)[j] == t[j]);
                    }
                }
                if has_identifier(orig.take(i as int), id) {
                    let j = choose|j: int|
                        0 <= j < orig.take(i as int).len() && (#[trigger] orig.take(
                            i as int,
                        )[j]).identifier == id;
                    assert(t[j] == orig.take(i as int)[j]);
                }
                if !keep {
                    assert(t[i as int].identifier == id);
                }
            }
            i = i + 1;
        }
        proof {
            assert(orig.skip(i as int).len() == 0);
            assert(orig.take(i as int) =~= orig);
        }
        self.contacts = kept;
        found
    }

    /// Whether the groups' identifiers are unique across the forest.
    pub open spec fn wf(&self) -> bool {
        ids_unique(outline(self.groups@))
    }

    /// Deletes the group with identifier `id` and its subtree from the forest,
    /// then drops from every contact its memberships of the deleted group and
    /// of the subgroups removed with it; other memberships stay.
    pub fn delete_group(&mut self, id: u128) -> (r: bool)
        ensures
            delete_outcome(old(self).groups@, final(self).groups@, id, r),
            old(self).wf() ==> final(self).wf(),
            final(self).contacts@.len() == old(self).contacts@.len(),
            forall|i: int|
                0 <= i < old(self).contacts@.len() ==> {
                    let c0 = #[trigger] old(self).contacts@[i];
                    let c1 = final(self).contacts@[i];
                    &&& r ==> same_but_groups(c0, c1) && scrubbed(
                        c0.groups,
                        c1.groups,
                        id,
                        old(self).groups@,
                        final(self).groups@,
                    )
                    &&& r ==> (items_of(c0.groups).no_duplicates() ==> items_of(
                        c1.groups,
                    ).no_duplicates())
                    &&& !r ==> c1 == c0
                },
    {
        let ghost before = self.groups@;
        let old_ids = Group::identifiers(&self.groups);
        proof {
            assert forall|x: u128| old_ids@.contains(x) == has_group(before, x) by {
                lemma_ids_listed(outline(before), x);
            }
        }
        let removed = Group::delete(&mut self.groups, id);
        proof {
            if ids_unique(outline(before)) {
                law_delete_keeps_ids_unique(before, self.groups@, id, removed);
            }
        }
        if !removed {
            return false;
        }
        let ghost orig = self.contacts@;
        let mut i: usize = 0;
        while i < self.contacts.len()
            invariant
                i <= self.contacts@.len(),
                self.contacts@.len() == orig.len(),
                orig == old(self).contacts@,
                before == old(self).groups@,
                forall|x: u128| old_ids@.contains(x) == has_group(before, x),
                delete_outcome(old(self).groups@, self.groups@, id, removed),
                ids_unique(outline(before)) ==> ids_unique(outline(self.groups@)),
                removed,
                forall|j: int|
                    i <= j < orig.len() ==> #[trigger] self.contacts@[j] == orig[j],
                forall|j: int|
                    0 <= j < i ==> {
                        let c0 = #[trigger] orig[j];
                        let c1 = self.contacts@[j];
                        &&& same_but_groups(c0, c1)
                        &&& scrubbed(c0.groups, c1.groups, id, before, self.groups@)
                        &&& items_of(c0.groups).no_duplicates() ==> items_of(c1.groups).no_duplicates()
                    },
            decreases orig.len() - i,
        {
            let kept = match &self.contacts[i].groups {
                Some(v) => Some(scrub(v, id, &old_ids, &self.groups, Ghost(before))),
                None => None,
            };
            self.contacts[i].groups = kept;
            i = i + 1;
        }
        true
    }

    /// Creates a group named `name` with a fresh identifier, as a new root or
    /// as the last child of group `parent`. `None`, with nothing changed, when
    /// the parent is not in the forest or no fresh identifier was drawn.
    pub fn create_group(&mut self, name: String, parent: Option<u128>) -> (r: Option<u128>)
        ensures
            final(self).contacts == old(self).contacts,
            old(self).wf() ==> final(self).wf(),
            r is None ==> final(self).groups@ == old(self).groups@,
            parent is Some && !has_group(old(self).groups@, parent->0) ==> r is None,
            r is Some ==> {
                &&& !has_group(old(self).groups@, r->0)
                &&& has_group(final(self).groups@, r->0)
                &&& parent is Some ==> has_group(old(self).groups@, parent->0)
            },
            r is Some && parent is None ==> {
                &&& final(self).groups@.drop_last() == old(self).groups@
                &&& final(self).groups@.last().identifier == r->0
                &&& final(self).groups@.last().name == name
                &&& final(self).groups@.last().subgroups@.len() == 0
            },
    {
        let ghost before = self.groups@;
        let g = match Group::new_in(&self.groups, name) {
            Some(g) => g,
            None => {
                return None;
            },
        };
        let id = g.identifier;
        let ghost gg = g;
        proof {
            lemma_outline_single(gg, 0);
            assert(outline_at(gg.subgroups@, 1) =~= Seq::<crate::group::OutlineEntry>::empty());
            assert(outline(seq![gg]) =~= seq![entry(gg, 0)]);
            assert(ids_unique(outline(seq![gg])));
        }
        match parent {
            Some(p) => {
                let ok = Group::insert_under(&mut self.groups, p, g);
                if !ok {
                    return None;
                }
                proof {
                    law_insert_then_find(before, self.groups@, p, gg, ok);
                    if ids_unique(outline(before)) {
                        law_insert_keeps_ids_unique(before, self.groups@, p, gg, ok);
                    }
                }
                Some(id)
            },
            None => {
                self.groups.push(g);
                proof {
                    assert(self.groups@ =~= before + seq![gg]);
                    lemma_outline_concat(before, seq![gg], 0);
                    let o = outline(before);
                    let oa = outline(self.groups@);
                    assert(oa == o + seq![entry(gg, 0)]);
                    assert(oa[o.len() as int].identifier == id);
                    assert(self.groups@.drop_last() =~= before);
                    if ids_unique(o) {
                        assert forall|x: int, y: int|
                            0 <= x < oa.len() && 0 <= y < oa.len() && x != y implies (
                            #[trigger] oa[x]).identifier != (#[trigger] oa[y]).identifier by {
                            if x < o.len() && y < o.len() {
                                assert(oa[x] == o[x]);
                                assert(oa[y] == o[y]);
                            } else if x < o.len() {
                                assert(oa[x] == o[x]);
                            } else {
                                assert(oa[y] == o[y]);
                            }
                        }
                    }
                }
                Some(id)
            },
        }
    }

    /// Links the contacts at positions `a` and `b` as `link_contacts` does,
    /// unless `a` already links to `b`; an unknown token is a validation failure.
    pub fn link_once(&mut self, a: usize, b: usize, relation_type: String) -> (r: Result<(), TuppError>)
        requires
            a < old(self).contacts@.len(),
            b < old(self).contacts@.len(),
        ensures
            final(self).groups == old(self).groups,
            ({
                let ca = old(self).contacts@[a as int];
                let cb = old(self).contacts@[b as int];
                let dup = exists|i: int|
                    0 <= i < links_of(ca).len() && (#[trigger] links_of(ca)[i]).target == cb.identifier;
                &&& dup ==> {
                    &&& r is Err
                    &&& r->Err_0 is Duplicate
                    &&& r->Err_0->Duplicate_0@ == "Link to this contact already exists"@
                    &&& final(self).contacts@ == old(self).contacts@
                }
                &&& !dup && relation_of_token(relation_type@) is None ==> {
                    &&& r is Err
                    &&& r->Err_0 is Validation
                    &&& r->Err_0->Validation_0@ == invalid_relation_message(relation_type@)
                    &&& final(self).contacts@ == old(self).contacts@
                }
                &&& !dup && relation_of_token(relation_type@) is Some ==> {
                    let rel = relation_of_token(relation_type@)->0;
                    let ab = Link { target: cb.identifier, relation: rel };
                    let ba = Link { target: ca.identifier, relation: reciprocal(rel) };
                    &&& r is Ok
                    &&& final(self).contacts@.len() == old(self).contacts@.len()
                    &&& forall|i: int|
                        0 <= i < old(self).contacts@.len() && i != a && i != b
                            ==> final(self).contacts@[i] == old(self).contacts@[i]
                    &&& a != b ==> link_appended(ca, final(self).contacts@[a as int], ab)
                        && link_appended(cb, final(self).contacts@[b as int], ba)
                    &&& a == b ==> links_of(final(self).contacts@[a as int]) == links_of(ca).push(
                        ab,
                    ).push(ba)
                }
            }),
    {
        let target = self.contacts[b].identifier;
        if self.contacts[a].links_to(target) {
            let mut out: Vec<char> = Vec::new();
            append_str(&mut out, "Link to this contact already exists");
            return Err(TuppError::Duplicate(string_of(&out)));
        }
        match self.link_contacts(a, b, relation_type) {
            Ok(()) => Ok(()),
            Err(m) => Err(TuppError::Validation(m)),
        }
    }

    /// The positions, in order, of the contacts that are members of group `id`.
    pub fn members_of(&self, id: u128) -> (r: Vec<usize>)
        ensures
            forall|k: int| 0 <= k < r@.len() ==> (#[trigger] r@[k]) < self.contacts@.len()
                && is_member(self.contacts@[r@[k] as int], id),
            forall|k: int, l: int| 0 <= k < l < r@.len() ==> r@[k] < r@[l],
            forall|j: int|
                0 <= j < self.contacts@.len() && is_member(#[trigger] self.contacts@[j], id)
                    ==> r@.contains(j as usize),
    {
        let mut out: Vec<usize> = Vec::new();
        let mut i: usize = 0;
        while i < self.contacts.len()
            invariant
                i <= self.contacts@.len(),
                forall|k: int| 0 <= k < out@.len() ==> (#[trigger] out@[k]) < i && is_member(
                    self.contacts@[out@[k] as int],
                    id,
                ),
                forall|k: int, l: int| 0 <= k < l < out@.len() ==> out@[k] < out@[l],
                forall|j: int|
                    0 <= j < i && is_member(#[trigger] self.contacts@[j], id) ==> out@.contains(
                        j as usize,
                    ),
            decreases self.contacts@.len() - i,
        {
            let member = match &self.contacts[i].groups {
                Some(v) => contains_id(v, id),
                None => false,
            };
            if member {
                let ghost before = out@;
                out.push(i);
                proof {
                    assert forall|j: int|
                        0 <= j < i + 1 && is_member(#[trigger] self.contacts@[j], id) implies out@.contains(
                        j as usize,
                    ) by {
                        if j < i {
                            let k = choose|k: int| 0 <= k < before.len() && before[k] == j as usize;
                            assert(out@[k] == j as usize);
                        } else {
                            assert(out@[out@.len() - 1] == j as usize);
                        }
                    }
                }
            }
            i = i + 1;
        }
        out
    }
}

/// Whether `v` lists `id`.
fn contains_id(v: &Vec<u128>, id: u128) -> (r: bool)
    ensures
        r == v@.contains(id),
{
    let mut i: usize = 0;
    while i < v.len()
        invariant
            i <= v@.len(),
            forall|k: int| 0 <= k < i ==> v@[k] != id,
        decreases v@.len() - i,
    {
        if v[i] == id {
            return true;
        }
        i = i + 1;
    }
    false
}

/// Puts the contact in `group`, unless it is already a member.
pub fn add_contact_to_group(contact: &mut Contact, group: &Group) -> (r: Result<(), TuppError>)
    ensures
        is_member(*old(contact), group.identifier) ==> {
            &&& r is Err
            &&& r->Err_0 is Duplicate
            &&& r->Err_0->Duplicate_0@ == "Contact already in group '"@ + group.name@ + "'"@
            &&& *final(contact) == *old(contact)
        },
        !is_member(*old(contact), group.identifier) ==> {
            &&& r is Ok
            &&& same_but_groups(*old(contact), *final(contact))
            &&& final(contact).groups is Some
            &&& items_of(final(contact).groups) == items_of(old(contact).groups).push(group.identifier)
            &&& items_of(old(contact).groups).no_duplicates() ==> items_of(
                final(contact).groups,
            ).no_duplicates()
        },
{
    let member = match &contact.groups {
        Some(v) => contains_id(v, group.identifier),
        None => false,
    };
    if member {
        let mut out: Vec<char> = Vec::new();
        append_str(&mut out, "Contact already in group '");
        append_str(&mut out, group.name.as_str());
        append_str(&mut out, "'");
        return Err(TuppError::Duplicate(string_of(&out)));
    }
    let mut v = match contact.groups.take() {
        Some(v) => v,
        None => Vec::new(),
    };
    v.push(group.identifier);
    contact.groups = Some(v);
    Ok(())
}

} // verus!
