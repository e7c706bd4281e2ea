//! An address book: contacts, bidirectional relationship links between them,
//! a forest of groups, and fuzzy lookup of either by identifier or by name.
use vstd::prelude::*;

pub mod text;
pub mod ident;
pub mod error;
pub mod models;
pub mod contact;
pub mod group;
pub mod data;

pub use contact::{Contact, Link, Relation};
pub use data::TuppData;
pub use error::TuppError;
pub use group::Group;
pub use models::{Address, Company, Date, Email, Gender, Identity, PhoneNumber, Social, UnwrapString};
pub use text::trim_extra_spaces;

verus! {

} // verus!
