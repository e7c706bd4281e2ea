//! Plain records that make up a contact: names, contact methods, addresses and dates.
use vstd::prelude::*;

verus! {

/// The text an optional field contributes, the empty text when it is unset.
pub open spec fn opt_text(o: Option<String>) -> Seq<char> {
    match o {
        Some(s) => s@,
        None => Seq::empty(),
    }
}

/// Whether an optional label is set to exactly `t`.
pub open spec fn label_is(o: Option<String>, t: Seq<char>) -> bool {
    o is Some && o->0@ == t
}

/// An owned copy of an optional field's text, the empty string when unset.
pub fn text_or_empty(o: &Option<String>) -> (r: String)
    ensures
        r@ == opt_text(*o),
{
    match o {
        Some(s) => s.clone(),
        None => String::new(),
    }
}

/// Whether an optional label is set to exactly `t`.
pub fn label_equals(o: &Option<String>, t: &String) -> (r: bool)
    ensures
        r == label_is(*o, t@),
{
    match o {
        Some(s) => s.eq(t),
        None => false,
    }
}

/// An optional text turned into its owned string, the empty string when unset.
pub trait UnwrapString<T> {
    spec fn unwraps_to(&self, r: T) -> bool;

    fn unwrap_string(&self) -> (r: T)
        ensures
            self.unwraps_to(r),
    ;
}

impl UnwrapString<String> for Option<String> {
    open spec fn unwraps_to(&self, r: String) -> bool {
        r@ == opt_text(*self)
    }

    fn unwrap_string(&self) -> (r: String) {
        text_or_empty(self)
    }
}

#[derive(Debug, Clone, PartialEq, Eq)]
pub struct Company {
    pub name: Option<String>,
    pub position: Option<String>,
    pub address: Option<String>,
}

#[derive(Debug, Clone, PartialEq, Eq)]
pub struct Email {
    pub label: Option<String>,
    pub address: Option<String>,
}

#[derive(Debug, Clone, PartialEq, Eq)]
pub struct PhoneNumber {
    pub label: Option<String>,
    pub country_code: u16,
    pub number: u32,
}

#[derive(Debug, Clone, PartialEq, Eq)]
pub struct Social {
    pub label: Option<String>,
    pub network: String,
    pub username: Option<String>,
}

#[derive(Debug, Clone, PartialEq, Eq)]
pub struct Address {
    pub label: Option<String>,
    pub country: Option<String>,
    pub region: Option<String>,
    pub city: Option<String>,
    pub post_code: Option<String>,
    pub street: Option<String>,
    pub number: Option<String>,
}

#[derive(Debug, Clone, PartialEq, Eq)]
pub struct Date {
    pub year: Option<i32>,
    pub month: Option<u8>,
    pub day: Option<u8>,
    pub hour: Option<u8>,
    pub minute: Option<u8>,
    pub second: Option<u8>,
}

#[derive(Debug, Clone, Copy, PartialEq, Eq, Structural)]
pub enum Gender {
    Male,
    Female,
    NonBinary,
}

#[derive(Debug, Clone, PartialEq, Eq)]
pub struct Identity {
    pub title: Option<String>,
    pub first_name: Option<String>,
    pub middle_name: Option<String>,
    pub last_name: Option<String>,
    pub post_nominal: Option<String>,
    pub gender: Option<Gender>,
    pub birth_date: Option<Date>,
    pub birth_location: Option<Address>,
    pub birth_first_name: Option<String>,
    pub birth_middle_name: Option<String>,
    pub birth_last_name: Option<String>,
    pub is_alive: bool,
    pub death_date: Option<Date>,
    pub death_location: Option<Address>,
}

/// A record whose optional label is unique within its collection on one contact.
pub trait Labeled {
    spec fn label_view(&self) -> Option<String>;

    fn has_label(&self, t: &String) -> (r: bool)
        ensures
            r == label_is(self.label_view(), t@),
    ;
}

impl Labeled for Email {
    open spec fn label_view(&self) -> Option<String> {
        self.label
    }

    fn has_label(&self, t: &String) -> (r: bool) {
        label_equals(&self.label, t)
    }
}

impl Labeled for PhoneNumber {
    open spec fn label_view(&self) -> Option<String> {
        self.label
    }

    fn has_label(&self, t: &String) -> (r: bool) {
        label_equals(&self.label, t)
    }
}

impl Labeled for Social {
    open spec fn label_view(&self) -> Option<String> {
        self.label
    }

    fn has_label(&self, t: &String) -> (r: bool) {
        label_equals(&self.label, t)
    }
}

impl Labeled for Address {
    open spec fn label_view(&self) -> Option<String> {
        self.label
    }

    fn has_label(&self, t: &String) -> (r: bool) {
        label_equals(&self.label, t)
    }
}

/// Whether some record of `items` carries the label `t`.
pub open spec fn label_taken<T: Labeled>(items: Seq<T>, t: Seq<char>) -> bool {
    exists|i: int| 0 <= i < items.len() && label_is(#[trigger] items[i].label_view(), t)
}

/// Whether some record of `items` carries the label `t`.
pub fn find_label<T: Labeled>(items: &Vec<T>, t: &String) -> (r: bool)
    ensures
        r == label_taken(items@, t@),
{
    let mut i: usize = 0;
    while i < items.len()
        invariant
            i <= items@.len(),
            forall|k: int| 0 <= k < i ==> !label_is(#[trigger] items@[k].label_view(), t@),
        decreases items@.len() - i,
    {
        if items[i].has_label(t) {
            return true;
        }
        i = i + 1;
    }
    false
}

/// The label a new record gets: the one given, or `default` when none is.
pub open spec fn effective_label(label: Option<String>) -> Seq<char> {
    match label {
        Some(s) => s@,
        None => "default"@,
    }
}

/// The label a new record gets: the one given, or `default` when none is.
pub fn label_or_default(label: Option<String>) -> (r: String)
    ensures
        r@ == effective_label(label),
{
    match label {
        Some(s) => s,
        None => "default".to_owned(),
    }
}

impl Default for Address {
    fn default() -> (r: Self)
        ensures
            r.label is Some && r.label->0@ == "Unknown"@,
            r.country is Some && r.country->0@ == "France"@,
            r.region is Some && r.region->0@ == "Poitou-Charentes"@,
            r.city is Some && r.city->0@ == "Poitiers"@,
            r.post_code is Some && r.post_code->0@ == "98400"@,
            r.street is Some && r.street->0@ == "Rue de la Coupe du Monde"@,
            r.number is Some && r.number->0@ == "1998"@,
    {
        Address {
            label: Some("Unknown".to_owned()),
            country: Some("France".to_owned()),
            region: Some("Poitou-Charentes".to_owned()),
            city: Some("Poitiers".to_owned()),
            post_code: Some("98400".to_owned()),
            street: Some("Rue de la Coupe du Monde".to_owned()),
            number: Some("1998".to_owned()),
        }
    }
}

impl Default for Date {
    fn default() -> (r: Self)
        ensures
            r.year == Some(1944i32),
            r.month == Some(6u8),
            r.day == Some(18u8),
            r.hour == Some(6u8),
            r.minute == Some(9u8),
            r.second == Some(0u8),
    {
        Date {
            year: Some(1944),
            month: Some(6),
            day: Some(18),
            hour: Some(6),
            minute: Some(9),
            second: Some(0),
        }
    }
}

/// The gender a text names, compared on its lowercase form: `male`, `female`,
/// `non-binary` or `nonbinary`.
pub open spec fn gender_named(s: Seq<char>) -> Option<Gender> {
    if s == "male"@ {
        Some(Gender::Male)
    } else if s == "female"@ {
        Some(Gender::Female)
    } else if s == "non-binary"@ || s == "nonbinary"@ {
        Some(Gender::NonBinary)
    } else {
        None
    }
}

/// The gender that an already lowercased text names.
pub fn gender_from_lowercase(s: &String) -> (r: Option<Gender>)
    ensures
        r == gender_named(s@),
{
    if s.eq(&"male".to_owned()) {
        Some(Gender::Male)
    } else if s.eq(&"female".to_owned()) {
        Some(Gender::Female)
    } else if s.eq(&"non-binary".to_owned()) || s.eq(&"nonbinary".to_owned()) {
        Some(Gender::NonBinary)
    } else {
        None
    }
}

/// The gender a text names, ignoring case.
pub fn parse_gender(s: &str) -> (r: Option<Gender>)
    ensures
        r == gender_named(crate::text::lower_of(s@)),
{
    let key = crate::text::lowercase(s);
    gender_from_lowercase(&key)
}

/// The gender a new contact gets from an optional argument, when it can be
/// decided without asking: the named gender, or `Male` when the contact's
/// names were both supplied (`bypass`) and the argument is absent or
/// unrecognised. `None` means the user has to be asked.
pub fn resolve_gender(text: &Option<String>, bypass: bool) -> (r: Option<Gender>)
    ensures
        ({
            let named = match *text {
                Some(s) => gender_named(crate::text::lower_of(s@)),
                None => None,
            };
            r == if named is Some {
                named
            } else if bypass {
                Some(Gender::Male)
            } else {
                None
            }
        }),
{
    let named = match text {
        Some(s) => parse_gender(s.as_str()),
        None => None,
    };
    match named {
        Some(g) => Some(g),
        None => if bypass {
            Some(Gender::Male)
        } else {
            None
        },
    }
}

/// Builds an address from the supplied fields when at least one is set; `None`
/// when every field is absent and the address has to be asked for.
pub fn create_address(
    label: Option<String>,
    country: Option<String>,
    region: Option<String>,
    city: Option<String>,
    post_code: Option<String>,
    street: Option<String>,
    number: Option<String>,
) -> (r: Option<Address>)
    ensures
        ({
            let any = label is Some || country is Some || region is Some || city is Some
                || post_code is Some || street is Some || number is Some;
            if any {
                r == Some(
                    Address { label, country, region, city, post_code, street, number },
                )
            } else {
                r is None
            }
        }),
{
    if label.is_some() || country.is_some() || region.is_some() || city.is_some()
        || post_code.is_some() || street.is_some() || number.is_some() {
        Some(Address { label, country, region, city, post_code, street, number })
    } else {
        None
    }
}

} // verus!
