//! View models handed to the rendering boundary: each struct carries the
//! values one outgoing message is built from. Rendering itself happens
//! outside the core.

use vstd::prelude::*;

use crate::models::Entry;
use crate::models::User;
use crate::repository::EntryReserved;

verus! {

/// The requesting user's own record.
pub struct Me<'a> {
    pub me: &'a User,
}

/// A search: the term, the truncation limit, and what it matched.
pub struct Search<'a, 'b> {
    pub query: &'a str,
    pub limit: u32,
    pub entries: &'b [Entry],
}

/// One entry together with the reservation standing on it, if any.
pub struct SingleEntry<'a> {
    pub entry: &'a Entry,
    pub reserved: Option<EntryReserved>,
}

/// A user's staged entries.
pub struct Cart<'a> {
    pub entries: &'a [Entry],
}

/// The command overview.
pub struct Help;

} // verus!
