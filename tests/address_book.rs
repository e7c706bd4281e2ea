use tupp::contact::{
    add_address_to_contact, add_birth_to_contact, add_death_to_contact, add_email_to_contact,
    add_gender_to_contact, add_phone_to_contact, add_social_to_contact, get_reciprocal_relation,
    relation_from_lowercase,
};
use tupp::data::add_contact_to_group;
use tupp::models::{create_address, parse_gender, resolve_gender};
use tupp::text::{contains_ignoring_case, matches_folded, truncate_name};
use tupp::{
    trim_extra_spaces, Address, Contact, Date, Gender, Group, Identity, Link, Relation, TuppData,
    TuppError, UnwrapString,
};

const UUID_TEXT: &str = "550e8400-e29b-41d4-a716-446655440000";
const UUID_VALUE: u128 = 0x550e8400e29b41d4a716446655440000;

fn identity(first: &str, last: &str) -> Identity {
    Identity {
        title: None,
        first_name: Some(first.to_string()),
        middle_name: None,
        last_name: Some(last.to_string()),
        post_nominal: None,
        gender: None,
        birth_date: None,
        birth_location: None,
        birth_first_name: None,
        birth_middle_name: None,
        birth_last_name: None,
        is_alive: true,
        death_date: None,
        death_location: None,
    }
}

fn person(id: u128, first: &str, last: &str) -> Contact {
    Contact {
        identifier: id,
        identity: identity(first, last),
        address: None,
        emails: None,
        phones: None,
        socials: None,
        groups: None,
        links: None,
    }
}

fn group(id: u128, name: &str) -> Group {
    Group { identifier: id, name: name.to_string(), subgroups: Vec::new() }
}

fn names(forest: &Vec<Group>, ids: &[u128]) -> Vec<String> {
    ids.iter().map(|id| Group::find_by_id(forest, *id).unwrap().name.clone()).collect()
}

const ALL: [Relation; 9] = [
    Relation::Friend,
    Relation::Child,
    Relation::Parent,
    Relation::Boss,
    Relation::Employee,
    Relation::Colleague,
    Relation::Partner,
    Relation::Spouse,
    Relation::Ex,
];

#[test]
fn link_colleagues_scenario() {
    let mut a = person(1, "Ada", "Lovelace");
    let mut b = person(2, "Charles", "Babbage");
    let r = Contact::create_bidirectional_link(&mut a, &mut b, "colleague".to_string());
    assert_eq!(r, Ok(()));
    assert_eq!(a.links, Some(vec![Link { target: 2, relation: Relation::Colleague }]));
    assert_eq!(b.links, Some(vec![Link { target: 1, relation: Relation::Colleague }]));
}

#[test]
fn link_parent_gives_child_back() {
    let mut a = person(1, "Ada", "Lovelace");
    let mut b = person(2, "Byron", "King");
    b.links = Some(vec![Link { target: 9, relation: Relation::Friend }]);
    let r = Contact::create_bidirectional_link(&mut a, &mut b, "PaReNt".to_string());
    assert!(r.is_ok());
    assert_eq!(a.links, Some(vec![Link { target: 2, relation: Relation::Parent }]));
    assert_eq!(
        b.links,
        Some(vec![
            Link { target: 9, relation: Relation::Friend },
            Link { target: 1, relation: Relation::Child },
        ])
    );
}

#[test]
fn link_boss_gives_employee_back() {
    let mut a = person(1, "Ada", "Lovelace");
    let mut b = person(2, "Charles", "Babbage");
    Contact::create_bidirectional_link(&mut a, &mut b, "boss".to_string()).unwrap();
    assert_eq!(a.links.unwrap()[0].relation, Relation::Boss);
    assert_eq!(b.links.unwrap()[0].relation, Relation::Employee);
}

#[test]
fn reciprocal_of_reciprocal_is_identity() {
    for r in ALL.iter() {
        assert_eq!(get_reciprocal_relation(&get_reciprocal_relation(r)), *r);
    }
    assert_eq!(get_reciprocal_relation(&Relation::Child), Relation::Parent);
    assert_eq!(get_reciprocal_relation(&Relation::Employee), Relation::Boss);
    assert_eq!(get_reciprocal_relation(&Relation::Ex), Relation::Ex);
}

#[test]
fn every_token_parses() {
    let tokens = ["friend", "child", "parent", "boss", "employee", "colleague", "partner", "spouse", "ex"];
    for (t, r) in tokens.iter().zip(ALL.iter()) {
        assert_eq!(Contact::parse_relation(t), Some(*r));
        assert_eq!(Contact::parse_relation(&t.to_uppercase()), Some(*r));
        assert_eq!(relation_from_lowercase(&t.to_string()), Some(*r));
    }
    assert_eq!(relation_from_lowercase(&"Friend".to_string()), None);
    assert_eq!(Contact::parse_relation("enemy"), None);
}

#[test]
fn unknown_token_changes_nothing() {
    let mut a = person(1, "Ada", "Lovelace");
    let mut b = person(2, "Charles", "Babbage");
    let a0 = a.clone();
    let b0 = b.clone();
    let r = Contact::create_bidirectional_link(&mut a, &mut b, "enemy".to_string());
    assert_eq!(
        r,
        Err("Invalid relation type: enemy. Valid types are: friend, child, parent, boss, employee, colleague, partner, spouse, ex".to_string())
    );
    assert_eq!(a, a0);
    assert_eq!(b, b0);
}

#[test]
fn link_contacts_by_position() {
    let mut data = TuppData::new();
    data.contacts.push(person(1, "Ada", "Lovelace"));
    data.contacts.push(person(2, "Charles", "Babbage"));
    data.contacts.push(person(3, "Mary", "Somerville"));
    data.link_contacts(2, 0, "employee".to_string()).unwrap();
    assert_eq!(data.contacts[2].links, Some(vec![Link { target: 1, relation: Relation::Employee }]));
    assert_eq!(data.contacts[0].links, Some(vec![Link { target: 3, relation: Relation::Boss }]));
    assert_eq!(data.contacts[1].links, None);
    assert!(data.link_contacts(0, 1, "stranger".to_string()).is_err());
    assert_eq!(data.contacts[1].links, None);
}

#[test]
fn self_link_holds_both_directions() {
    let mut data = TuppData::new();
    data.contacts.push(person(1, "Ada", "Lovelace"));
    data.link_contacts(0, 0, "child".to_string()).unwrap();
    assert_eq!(
        data.contacts[0].links,
        Some(vec![
            Link { target: 1, relation: Relation::Child },
            Link { target: 1, relation: Relation::Parent },
        ])
    );
}

#[test]
fn family_and_cousins_scenario() {
    let mut data = TuppData::new();
    data.groups.push(group(10, "Family"));
    assert!(Group::insert_under(&mut data.groups, 10, group(11, "Cousins")));
    let found = Group::find_by_name_substring(&data.groups, "cous");
    assert_eq!(found, vec![11]);
    assert_eq!(names(&data.groups, &found), vec!["Cousins".to_string()]);

    let mut c = person(1, "Ada", "Lovelace");
    c.groups = Some(vec![11, 10, 99]);
    data.contacts.push(c);
    assert!(data.delete_group(10));
    assert!(data.groups.is_empty());
    assert!(!Group::contains(&data.groups, 11));
    // The deleted group and the subgroup removed with it are scrubbed; a
    // membership that did not name a group of the forest is left alone.
    assert_eq!(data.contacts[0].groups, Some(vec![99]));
}

#[test]
fn find_by_id_present_and_absent() {
    let mut forest = vec![group(1, "Work"), group(2, "Family")];
    Group::insert_under(&mut forest, 2, group(3, "Cousins"));
    Group::insert_under(&mut forest, 3, group(4, "Second cousins"));
    assert_eq!(Group::find_by_id(&forest, 4).unwrap().name, "Second cousins");
    assert_eq!(Group::find_by_id(&forest, 1).unwrap().name, "Work");
    assert!(Group::find_by_id(&forest, 5).is_none());
    assert!(Group::contains(&forest, 3));
    assert!(!Group::contains(&forest, 7));
    assert!(Group::find_by_id(&Vec::new(), 1).is_none());
}

#[test]
fn insert_under_missing_parent_fails() {
    let mut forest = vec![group(1, "Work")];
    assert!(!Group::insert_under(&mut forest, 42, group(2, "Team")));
    assert!(Group::find_by_id(&forest, 2).is_none());
    assert_eq!(forest.len(), 1);
    assert!(forest[0].subgroups.is_empty());
    assert!(Group::insert_under(&mut forest, 1, group(2, "Team")));
    assert!(Group::find_by_id(&forest, 2).is_some());
}

#[test]
fn insert_appends_as_last_child() {
    let mut forest = vec![group(1, "Root")];
    Group::insert_under(&mut forest, 1, group(2, "A"));
    Group::insert_under(&mut forest, 1, group(3, "B"));
    Group::insert_under(&mut forest, 2, group(4, "A1"));
    assert_eq!(Group::display_forest(&forest, false), "Root\n  A\n    A1\n  B\n");
}

#[test]
fn delete_is_idempotent() {
    let mut forest = vec![group(1, "Work"), group(2, "Family")];
    Group::insert_under(&mut forest, 2, group(3, "Cousins"));
    assert!(Group::delete(&mut forest, 3));
    assert!(!Group::contains(&forest, 3));
    assert!(!Group::delete(&mut forest, 3));
    assert_eq!(forest.len(), 2);
    assert!(forest[1].subgroups.is_empty());
    assert!(Group::delete(&mut forest, 1));
    assert_eq!(forest.len(), 1);
    assert_eq!(forest[0].name, "Family");
}

#[test]
fn name_search_is_preorder_and_case_insensitive() {
    let mut forest = vec![group(1, "Friends"), group(2, "Family")];
    Group::insert_under(&mut forest, 1, group(3, "School FRIENDS"));
    Group::insert_under(&mut forest, 2, group(4, "Old friends"));
    assert_eq!(Group::find_by_name_substring(&forest, "friend"), vec![1, 3, 4]);
    assert_eq!(Group::find_by_name_substring(&forest, "zzz"), Vec::<u128>::new());
}

#[test]
fn group_best_match_by_name_and_id() {
    let mut forest = vec![group(1, "Work"), group(UUID_VALUE, "Family")];
    Group::insert_under(&mut forest, 1, group(3, "Family business"));
    assert_eq!(Group::find_best_match(&forest, "FAMILY").unwrap().identifier, 3);
    assert_eq!(Group::find_best_match(&forest, UUID_TEXT).unwrap().identifier, UUID_VALUE);
    assert!(Group::find_best_match(&forest, "club").is_none());
}

#[test]
fn display_with_identifiers() {
    let forest = vec![group(UUID_VALUE, "Family")];
    assert_eq!(Group::display_forest(&forest, true), format!("{}\tFamily\n", UUID_TEXT));
    assert_eq!(Group::display_forest(&Vec::new(), true), "");
}

#[test]
fn remove_direct_subgroup() {
    let mut g = group(1, "Family");
    g.subgroups.push(group(2, "Cousins"));
    let child = group(2, "Cousins");
    assert_eq!(g.remove_subgroup(&child), Ok("Group Cousins is no longer subgroup of Family".to_string()));
    assert!(g.subgroups.is_empty());
    assert_eq!(g.remove_subgroup(&child), Err("Group Cousins cannot be removed as subgroup of Family".to_string()));
}

#[test]
fn email_default_label_twice_scenario() {
    let mut c = person(1, "Ada", "Lovelace");
    assert_eq!(add_email_to_contact(&mut c, None, "ada@example.org".to_string()), Ok(()));
    let emails = c.emails.clone().unwrap();
    assert_eq!(emails.len(), 1);
    assert_eq!(emails[0].label, Some("default".to_string()));
    assert_eq!(emails[0].address, Some("ada@example.org".to_string()));
    let before = c.clone();
    let r = add_email_to_contact(&mut c, None, "other@example.org".to_string());
    assert_eq!(r, Err(TuppError::Duplicate("Email label 'default' already exists".to_string())));
    assert_eq!(c, before);
    assert!(add_email_to_contact(&mut c, Some("work".to_string()), "w@example.org".to_string()).is_ok());
    assert_eq!(c.emails.unwrap().len(), 2);
}

#[test]
fn phone_and_social_labels() {
    let mut c = person(1, "Ada", "Lovelace");
    assert!(add_phone_to_contact(&mut c, Some("home".to_string()), 33, 123456).is_ok());
    assert_eq!(
        add_phone_to_contact(&mut c, Some("home".to_string()), 44, 1),
        Err(TuppError::Duplicate("Phone label 'home' already exists".to_string()))
    );
    assert!(add_phone_to_contact(&mut c, None, 44, 1).is_ok());
    assert_eq!(c.phones.as_ref().unwrap()[1].country_code, 44);
    assert!(add_social_to_contact(&mut c, None, "Mastodon".to_string(), "ada".to_string()).is_ok());
    assert_eq!(
        add_social_to_contact(&mut c, Some("default".to_string()), "X".to_string(), "a".to_string()),
        Err(TuppError::Duplicate("Social label 'default' already exists".to_string()))
    );
    // Labels are scoped per kind of record.
    assert!(add_email_to_contact(&mut c, Some("home".to_string()), "h@example.org".to_string()).is_ok());
}

#[test]
fn address_label_guard() {
    let mut c = person(1, "Ada", "Lovelace");
    let addr = create_address(None, Some("France".to_string()), None, Some("Paris".to_string()), None, None, None).unwrap();
    assert!(add_address_to_contact(&mut c, addr.clone()).is_ok());
    assert_eq!(c.address.as_ref().unwrap().label, Some("default".to_string()));
    assert_eq!(
        add_address_to_contact(&mut c, addr),
        Err(TuppError::Duplicate("Address label 'default' already exists".to_string()))
    );
    assert_eq!(create_address(None, None, None, None, None, None, None), None);
}

#[test]
fn defaults_of_address_and_date() {
    let a = Address::default();
    assert_eq!(a.city, Some("Poitiers".to_string()));
    assert_eq!(a.number, Some("1998".to_string()));
    let d = Date::default();
    assert_eq!((d.year, d.month, d.day), (Some(1944), Some(6), Some(18)));
}

#[test]
fn trims_and_collapses_whitespace() {
    assert_eq!(trim_extra_spaces("  Ada   \t King  "), "Ada King");
    assert_eq!(trim_extra_spaces(""), "");
    assert_eq!(trim_extra_spaces(" \n "), "");
    assert_eq!(trim_extra_spaces("a\u{3000}\u{3000}b"), "a b");
}

#[test]
fn formats_names_through_pattern() {
    let mut c = person(1, "Ada", "Lovelace");
    assert_eq!(c.format_name("TITLE FIRST MIDDLE LAST POST"), "Ada Lovelace");
    c.identity.title = Some("Countess".to_string());
    c.identity.post_nominal = Some("FRS".to_string());
    assert_eq!(c.format_name("LAST, FIRST (TITLE)"), "Lovelace, Ada (Countess)");
    assert_eq!(c.format_name("TITLE FIRST MIDDLE LAST POST"), "Countess Ada Lovelace FRS");
    assert_eq!(c.identity.middle_name.unwrap_string(), "");
    assert_eq!(c.identity.first_name.unwrap_string(), "Ada");
}

#[test]
fn best_match_by_name() {
    let contacts = vec![
        person(1, "Ada", "Lovelace"),
        person(2, "Charles", "Babbage"),
        person(3, "Ada", "Byron"),
    ];
    assert_eq!(Contact::find_best_match(&contacts, "babbage"), Some(1));
    assert_eq!(Contact::find_best_match(&contacts, "  ada   LOVE"), Some(0));
    // Ties go to the first contact in list order.
    assert_eq!(Contact::find_best_match(&contacts, "ada"), Some(0));
    assert_eq!(Contact::find_best_match(&contacts, "Turing"), None);
    assert_eq!(Contact::find_best_match(&Vec::new(), "Ada"), None);
}

#[test]
fn best_match_by_identifier_first() {
    let contacts = vec![person(1, "Ada", "Lovelace"), person(UUID_VALUE, "Charles", "Babbage")];
    assert_eq!(Contact::find_best_match(&contacts, UUID_TEXT), Some(1));
    assert_eq!(Contact::find_best_match(&contacts, "00000000-0000-0000-0000-000000000009"), None);
    assert_eq!(Contact::position_of(&contacts, 1), Some(0));
    assert_eq!(Contact::position_of(&contacts, 5), None);
}

#[test]
fn folded_matching() {
    assert!(matches_folded("ada lovelace", "love"));
    assert!(!matches_folded("ada lovelace", "LOVE"));
    assert!(matches_folded("abc", ""));
    assert!(contains_ignoring_case("Ada Lovelace", "LOVE"));
    assert!(!contains_ignoring_case("Ada", "Adam"));
}

#[test]
fn delete_contact_by_identifier() {
    let mut data = TuppData::new();
    data.contacts.push(person(1, "Ada", "Lovelace"));
    data.contacts.push(person(2, "Charles", "Babbage"));
    assert!(data.delete_contact(1));
    assert_eq!(data.contacts.len(), 1);
    assert_eq!(data.contacts[0].identifier, 2);
    assert!(!data.delete_contact(1));
    assert_eq!(data.contacts.len(), 1);
}

#[test]
fn group_membership() {
    let mut data = TuppData::new();
    data.groups.push(group(10, "Family"));
    data.contacts.push(person(1, "Ada", "Lovelace"));
    data.contacts.push(person(2, "Charles", "Babbage"));
    data.contacts.push(person(3, "Mary", "Somerville"));
    let family = group(10, "Family");
    assert!(add_contact_to_group(&mut data.contacts[0], &family).is_ok());
    assert!(add_contact_to_group(&mut data.contacts[2], &family).is_ok());
    assert_eq!(
        add_contact_to_group(&mut data.contacts[0], &family),
        Err(TuppError::Duplicate("Contact already in group 'Family'".to_string()))
    );
    assert_eq!(data.members_of(10), vec![0, 2]);
    assert_eq!(data.members_of(11), Vec::<usize>::new());
}

#[test]
fn birth_and_death_data() {
    let mut c = person(1, "Ada", "Lovelace");
    add_birth_to_contact(&mut c, Some("Augusta".to_string()), Some("  ".to_string()), Some("Byron".to_string()), Some(10), Some(12), Some(1815), Some(Address::default()));
    assert_eq!(c.identity.birth_first_name, Some("Augusta".to_string()));
    assert_eq!(c.identity.birth_middle_name, None);
    assert_eq!(c.identity.birth_last_name, Some("Byron".to_string()));
    assert_eq!(c.identity.birth_date.as_ref().unwrap().year, Some(1815));
    add_birth_to_contact(&mut c, None, Some("Ada".to_string()), None, None, None, None, None);
    assert_eq!(c.identity.birth_middle_name, Some("Ada".to_string()));
    assert_eq!(c.identity.birth_first_name, Some("Augusta".to_string()));
    add_death_to_contact(&mut c, Some(27), Some(11), Some(1852), None);
    assert!(!c.identity.is_alive);
    assert_eq!(c.identity.death_date.as_ref().unwrap().month, Some(11));
}

#[test]
fn gender_parsing() {
    assert_eq!(parse_gender("Female"), Some(Gender::Female));
    assert_eq!(parse_gender("NON-BINARY"), Some(Gender::NonBinary));
    assert_eq!(parse_gender("nonbinary"), Some(Gender::NonBinary));
    assert_eq!(parse_gender("robot"), None);
    assert_eq!(resolve_gender(&Some("robot".to_string()), true), Some(Gender::Male));
    assert_eq!(resolve_gender(&Some("robot".to_string()), false), None);
    assert_eq!(resolve_gender(&None, false), None);
    assert_eq!(resolve_gender(&Some("male".to_string()), false), Some(Gender::Male));
    let mut c = person(1, "Ada", "Lovelace");
    add_gender_to_contact(&mut c, Gender::Female);
    assert_eq!(c.identity.gender, Some(Gender::Female));
}

#[test]
fn truncates_long_names() {
    assert_eq!(truncate_name("Lovelace", 10), "Lovelace");
    assert_eq!(truncate_name("Lovelace", 6), "Lovel.");
    assert_eq!(truncate_name("Ada", 3), "Ada");
    assert_eq!(truncate_name("Ada", 0), ".");
}

#[test]
fn new_records_get_distinct_identifiers() {
    let a = Contact::new(identity("Ada", "Lovelace"));
    let b = Contact::new(identity("Ada", "Lovelace"));
    assert_ne!(a.identifier, b.identifier);
    assert!(a.links.is_none());
    let g = Group::new("Family".to_string());
    assert_eq!(g.name, "Family");
    assert!(g.subgroups.is_empty());
}

#[test]
fn detects_existing_link() {
    let mut a = person(1, "Ada", "Lovelace");
    let mut b = person(2, "Charles", "Babbage");
    assert!(!a.links_to(2));
    Contact::create_bidirectional_link(&mut a, &mut b, "friend".to_string()).unwrap();
    assert!(a.links_to(2));
    assert!(b.links_to(1));
    assert!(!a.links_to(3));
}

#[test]
fn birth_and_death_leave_other_fields() {
    let mut c = person(1, "Ada", "Lovelace");
    c.identity.middle_name = Some("Augusta".to_string());
    add_birth_to_contact(&mut c, None, None, None, None, None, None, None);
    assert_eq!(c, { let mut d = person(1, "Ada", "Lovelace"); d.identity.middle_name = Some("Augusta".to_string()); d });
    add_birth_to_contact(&mut c, None, None, None, None, None, None, Some(Address::default()));
    assert_eq!(c.identity.birth_location.as_ref().unwrap().city, Some("Poitiers".to_string()));
    add_death_to_contact(&mut c, None, None, None, None);
    assert!(!c.identity.is_alive);
    assert_eq!(c.identity.death_date, None);
    assert_eq!(c.identity.middle_name, Some("Augusta".to_string()));
}

#[test]
fn delete_group_keeps_unrelated_memberships() {
    let mut data = TuppData::new();
    data.groups.push(group(1, "Work"));
    data.groups.push(group(2, "Family"));
    let mut c = person(1, "Ada", "Lovelace");
    c.groups = Some(vec![5, 1, 2]);
    data.contacts.push(c);
    assert!(data.delete_group(1));
    assert_eq!(data.contacts[0].groups, Some(vec![5, 2]));
    assert!(!data.delete_group(1));
    assert_eq!(data.contacts[0].groups, Some(vec![5, 2]));
}

#[test]
fn create_group_as_root_and_child() {
    let mut data = TuppData::new();
    let family = data.create_group("Family".to_string(), None).unwrap();
    let cousins = data.create_group("Cousins".to_string(), Some(family)).unwrap();
    assert_ne!(family, cousins);
    assert_eq!(Group::find_by_id(&data.groups, cousins).unwrap().name, "Cousins");
    assert_eq!(data.groups[0].subgroups[0].identifier, cousins);
    assert_eq!(data.create_group("Orphans".to_string(), Some(12345)), None);
    assert_eq!(data.groups.len(), 1);
    assert_eq!(Group::identifiers(&data.groups), vec![family, cousins]);
    let g = Group::new_in(&data.groups, "Friends".to_string()).unwrap();
    assert!(!Group::contains(&data.groups, g.identifier));
}

#[test]
fn link_once_guards_duplicates_and_tokens() {
    let mut data = TuppData::new();
    data.contacts.push(person(1, "Ada", "Lovelace"));
    data.contacts.push(person(2, "Charles", "Babbage"));
    assert_eq!(data.link_once(0, 1, "friend".to_string()), Ok(()));
    assert_eq!(
        data.link_once(0, 1, "colleague".to_string()),
        Err(TuppError::Duplicate("Link to this contact already exists".to_string()))
    );
    assert_eq!(data.contacts[0].links.as_ref().unwrap().len(), 1);
    // The reciprocal link already joins them the other way.
    assert!(matches!(data.link_once(1, 0, "enemy".to_string()), Err(TuppError::Duplicate(_))));
    let mut fresh = TuppData::new();
    fresh.contacts.push(person(1, "Ada", "Lovelace"));
    fresh.contacts.push(person(2, "Charles", "Babbage"));
    assert!(matches!(fresh.link_once(0, 1, "enemy".to_string()), Err(TuppError::Validation(_))));
    assert_eq!(fresh.contacts[0].links, None);
}

#[test]
fn unwrap_string_gives_text_or_empty() {
    assert_eq!(Some("Ada".to_string()).unwrap_string(), "Ada");
    assert_eq!(None::<String>.unwrap_string(), "");
}
