//! Plain data carried through the core: inventory entries and users.
//!
//! Timestamps are seconds since the Unix epoch, held as `i64`. A nullable
//! column of the storage layout is an `Option`.

use vstd::prelude::*;

verus! {

/// A registered user, keyed by the unique `telegram_username`.
pub struct User {
    pub telegram_username: String,
    pub sire: Option<String>,
}

/// A trackable physical inventory item, keyed by the unique `id`.
pub struct Entry {
    pub id: String,
    pub name: String,
    pub image: Option<String>,
    pub description: Option<String>,
    pub note: Option<String>,
    pub created_at: Option<i64>,
    pub stored_in: Option<String>,
    pub responsible_person: Option<String>,
}

fn clone_opt_string(s: &Option<String>) -> (r: Option<String>)
    ensures
        r == *s,
{
    match s {
        Some(v) => Some(v.clone()),
        None => None,
    }
}

impl Clone for User {
    fn clone(&self) -> (r: Self)
        ensures
            r == *self,
    {
        User { telegram_username: self.telegram_username.clone(), sire: clone_opt_string(&self.sire) }
    }
}

impl Clone for Entry {
    fn clone(&self) -> (r: Self)
        ensures
            r == *self,
    {
        Entry {
            id: self.id.clone(),
            name: self.name.clone(),
            image: clone_opt_string(&self.image),
            description: clone_opt_string(&self.description),
            note: clone_opt_string(&self.note),
            created_at: self.created_at,
            stored_in: clone_opt_string(&self.stored_in),
            responsible_person: clone_opt_string(&self.responsible_person),
        }
    }
}

} // verus!
