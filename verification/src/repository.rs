//! The durable tables of the service, modelled as owned in-memory state:
//! users, entries, reservations (with their entry associations) and the
//! per-user cart, together with the booking rules over them.
//!
//! The central invariant is *no double-booking*: for any two reservations
//! sharing an entry, the half-open windows `[start, end)` never overlap.
//! Every operation preserves it, [`Repository::reserve_entries`] by checking
//! every requested entry against the ledger and failing atomically with the
//! first conflict.

use vstd::prelude::*;

use crate::idgen::reservation_id;
use crate::idgen::reservation_id_of;
use crate::idgen::ts_in_range;
use crate::models::Entry;
use crate::models::User;
use crate::text::contains_seq;
use crate::text::lemma_lex_le_total;
use crate::text::lemma_lex_le_trans;
use crate::text::lex_le;
use crate::text::str_contains;
use crate::text::str_eq;
use crate::text::str_le;

verus! {

/// An existing claim reported back from a failed availability check: who
/// holds the entry and for which window.
#[derive(Debug)]
pub struct EntryReserved {
    pub reserver: String,
    pub start: i64,
    pub end: i64,
}

/// A claim over one or more entries for the half-open window
/// `[start, end)`.
pub struct Reservation {
    pub id: String,
    pub start: i64,
    pub end: i64,
    pub made_by: String,
    pub entry_ids: Vec<String>,
}

/// One staged pair: `user_id` intends to reserve `entry_id`.
pub struct CartItem {
    pub user_id: String,
    pub entry_id: String,
}

/// Why a write was refused. A conflict is an expected, recoverable outcome,
/// not a fault.
#[derive(Debug)]
pub enum RepositoryError {
    /// The window's start does not precede its end; rejected before any
    /// state is read.
    InvalidWindow,
    /// The key `id` is already taken by a stored row.
    Duplicate { id: String },
    /// A reservation named an entry that does not exist.
    UnknownEntry { entry_id: String },
    /// The requested window overlaps an existing reservation of
    /// `entry_id`.
    Conflict { entry_id: String, existing: EntryReserved },
}

/// The mathematical content of the whole store.
pub ghost struct RepoView {
    pub users: Seq<User>,
    pub entries: Seq<Entry>,
    pub reservations: Seq<Reservation>,
    pub cart: Seq<CartItem>,
}

/// Half-open windows `[s1, e1)` and `[s2, e2)` have an instant in common.
/// Back-to-back windows (`e1 == s2`) do not overlap.
pub open spec fn windows_overlap(s1: int, e1: int, s2: int, e2: int) -> bool {
    s1 < e2 && s2 < e1
}

/// The reservation claims the entry named `entry_id`.
pub open spec fn covers(r: Reservation, entry_id: Seq<char>) -> bool {
    exists|k: int| 0 <= k < r.entry_ids@.len() && (#[trigger] r.entry_ids@[k])@ == entry_id
}

/// The reservation claims `entry_id` and its window overlaps
/// `[start, end)`.
pub open spec fn res_conflicts(r: Reservation, entry_id: Seq<char>, start: int, end: int) -> bool {
    covers(r, entry_id) && r.start < end && start < r.end
}

/// The two reservations claim at least one entry in common.
pub open spec fn share_entry(r1: Reservation, r2: Reservation) -> bool {
    exists|e: Seq<char>| #[trigger] covers(r1, e) && covers(r2, e)
}

/// No two reservations sharing an entry have overlapping windows.
pub open spec fn no_double_booking(rs: Seq<Reservation>) -> bool {
    forall|i: int, j: int|
        0 <= i < rs.len() && 0 <= j < rs.len() && i != j && #[trigger] share_entry(rs[i], rs[j])
            ==> !windows_overlap(
            rs[i].start as int,
            rs[i].end as int,
            rs[j].start as int,
            rs[j].end as int,
        )
}

/// Some stored entry carries the id `entry_id`.
pub open spec fn id_known(entries: Seq<Entry>, entry_id: Seq<char>) -> bool {
    exists|j: int| 0 <= j < entries.len() && (#[trigger] entries[j]).id@ == entry_id
}

/// Some stored user carries the name `name`.
pub open spec fn user_known(users: Seq<User>, name: Seq<char>) -> bool {
    exists|j: int| 0 <= j < users.len() && (#[trigger] users[j]).telegram_username@ == name
}

/// The pair `(user_id, entry_id)` is staged.
pub open spec fn in_cart(cart: Seq<CartItem>, user_id: Seq<char>, entry_id: Seq<char>) -> bool {
    exists|i: int|
        0 <= i < cart.len() && (#[trigger] cart[i]).user_id@ == user_id && cart[i].entry_id@
            == entry_id
}

/// A single reservation is well-formed against the entry table: a proper
/// window and a non-empty set of existing entries.
pub open spec fn res_wf(entries: Seq<Entry>, r: Reservation) -> bool {
    &&& r.start < r.end
    &&& r.entry_ids@.len() > 0
    &&& forall|k: int| 0 <= k < r.entry_ids@.len() ==> id_known(entries, (#[trigger] r.entry_ids@[k])@)
}

/// Well-formedness of the whole store: unique keys everywhere, every
/// reservation proper and referentially intact, and no double-booking.
pub open spec fn repo_wf(v: RepoView) -> bool {
    &&& forall|i: int, j: int|
        0 <= i < j < v.users.len() ==> (#[trigger] v.users[i]).telegram_username@ != (
        #[trigger] v.users[j]).telegram_username@
    &&& forall|i: int, j: int|
        0 <= i < j < v.entries.len() ==> (#[trigger] v.entries[i]).id@ != (
        #[trigger] v.entries[j]).id@
    &&& forall|i: int, j: int|
        0 <= i < j < v.reservations.len() ==> (#[trigger] v.reservations[i]).id@ != (
        #[trigger] v.reservations[j]).id@
    &&& forall|i: int|
        0 <= i < v.reservations.len() ==> res_wf(v.entries, #[trigger] v.reservations[i])
    &&& forall|i: int, j: int|
        0 <= i < j < v.cart.len() ==> !((#[trigger] v.cart[i]).user_id@ == (
        #[trigger] v.cart[j]).user_id@ && v.cart[i].entry_id@ == v.cart[j].entry_id@)
    &&& no_double_booking(v.reservations)
}

/// The entry matches a search term: the term's characters appear
/// contiguously in its id, its name or its description.
pub open spec fn entry_matches(e: Entry, term: Seq<char>) -> bool {
    ||| contains_seq(e.id@, term)
    ||| contains_seq(e.name@, term)
    ||| (e.description matches Some(d) && contains_seq(d@, term))
}

/// What a search yields: the matching entries in storage order, truncated
/// to `limit`.
pub open spec fn search_spec(entries: Seq<Entry>, term: Seq<char>, limit: int) -> Seq<Entry> {
    let f = entries.filter(|e: Entry| entry_matches(e, term));
    if f.len() <= limit {
        f
    } else {
        f.take(limit)
    }
}

/// Among the reservations conflicting with `[start, end)` on `entry_id`,
/// the one at index `i` is first: earliest-starting, ties broken by
/// lexically least id.
pub open spec fn earliest_conflict(
    rs: Seq<Reservation>,
    entry_id: Seq<char>,
    start: int,
    end: int,
    i: int,
) -> bool {
    forall|j: int|
        0 <= j < rs.len() && res_conflicts(#[trigger] rs[j], entry_id, start, end) ==> (rs[i].start
            < rs[j].start || (rs[i].start == rs[j].start && lex_le(rs[i].id@, rs[j].id@)))
}

/// Some reservation conflicts with `[start, end)` on `entry_id`.
pub open spec fn has_conflict(
    rs: Seq<Reservation>,
    entry_id: Seq<char>,
    start: int,
    end: int,
) -> bool {
    exists|j: int| 0 <= j < rs.len() && res_conflicts(#[trigger] rs[j], entry_id, start, end)
}

/// The first `upto` requested ids all name existing entries that are free
/// for the whole window.
pub open spec fn ids_ok(
    entries: Seq<Entry>,
    rs: Seq<Reservation>,
    ids: Seq<String>,
    start: int,
    end: int,
    upto: int,
) -> bool {
    forall|k: int|
        0 <= k < upto ==> id_known(entries, (#[trigger] ids[k])@) && !has_conflict(
            rs,
            ids[k]@,
            start,
            end,
        )
}

/// Some stored reservation already carries the id `id`.
pub open spec fn res_id_taken(rs: Seq<Reservation>, id: Seq<char>) -> bool {
    exists|j: int| 0 <= j < rs.len() && (#[trigger] rs[j]).id@ == id
}

fn clone_string_vec(v: &Vec<String>) -> (r: Vec<String>)
    ensures
        r@ == v@,
{
    let n = v.len();
    let mut out: Vec<String> = Vec::new();
    let mut i: usize = 0;
    while i < n
        invariant
            n == v@.len(),
            0 <= i <= n,
            out@ == v@.take(i as int),
        decreases n - i,
    {
        out.push(v[i].clone());
        proof {
            assert(out@ =~= v@.take(i + 1));
        }
        i = i + 1;
    }
    proof {
        assert(v@.take(n as int) =~= v@);
    }
    out
}

fn entry_matches_exec(e: &Entry, term: &str) -> (r: bool)
    ensures
        r == entry_matches(*e, term@),
{
    if str_contains(e.id.as_str(), term) {
        return true;
    }
    if str_contains(e.name.as_str(), term) {
        return true;
    }
    match &e.description {
        Some(d) => str_contains(d.as_str(), term),
        None => false,
    }
}

fn covers_exec(r: &Reservation, entry_id: &str) -> (b: bool)
    ensures
        b == covers(*r, entry_id@),
{
    let n = r.entry_ids.len();
    let mut i: usize = 0;
    while i < n
        invariant
            n == r.entry_ids@.len(),
            0 <= i <= n,
            forall|k: int| 0 <= k < i ==> (#[trigger] r.entry_ids@[k])@ != entry_id@,
        decreases n - i,
    {
        if str_eq(r.entry_ids[i].as_str(), entry_id) {
            return true;
        }
        i = i + 1;
    }
    false
}

/// No double-booking: in a well-formed store, no two reservations sharing
/// an entry have overlapping half-open windows.
pub proof fn lemma_no_double_booking(v: RepoView)
    requires
        repo_wf(v),
    ensures
        no_double_booking(v.reservations),
{
}

/// Back-to-back is legal: a window ending where another starts never
/// overlaps it, so adjacent reservations of one entry can coexist.
pub proof fn lemma_back_to_back(s1: int, e1: int, s2: int, e2: int)
    requires
        e1 <= s2,
    ensures
        !windows_overlap(s1, e1, s2, e2),
{
}

proof fn lemma_cart_count(cart: Seq<CartItem>, u: Seq<char>, e: Seq<char>)
    requires
        forall|i: int, j: int|
            0 <= i < j < cart.len() ==> !((#[trigger] cart[i]).user_id@ == (
            #[trigger] cart[j]).user_id@ && cart[i].entry_id@ == cart[j].entry_id@),
        in_cart(cart, u, e),
    ensures
        cart.filter(|c: CartItem| c.user_id@ == u && c.entry_id@ == e).len() == 1,
    decreases cart.len(),
{
    reveal(Seq::filter);
    let pred = |c: CartItem| c.user_id@ == u && c.entry_id@ == e;
    let rest = cart.drop_last();
    let last = cart.last();
    if pred(last) {
        assert forall|j: int| 0 <= j < rest.len() implies !(#[trigger] pred(rest[j])) by {
            assert(rest[j] == cart[j]);
            if cart[j].user_id@ == u && cart[j].entry_id@ == e {
                assert(cart[j].user_id@ == cart[cart.len() - 1].user_id@ && cart[j].entry_id@
                    == cart[cart.len() - 1].entry_id@);
            }
        }
        assert(rest.all(|c: CartItem| !pred(c)));
        rest.lemma_all_neg_filter_empty(pred);
        assert(cart.filter(pred) == rest.filter(pred).push(last));
    } else {
        let w = choose|w: int|
            0 <= w < cart.len() && (#[trigger] cart[w]).user_id@ == u && cart[w].entry_id@ == e;
        assert(w != cart.len() - 1);
        assert(rest[w] == cart[w]);
        assert(in_cart(rest, u, e));
        assert forall|i: int, j: int|
            0 <= i < j < rest.len() implies !((#[trigger] rest[i]).user_id@ == (
        #[trigger] rest[j]).user_id@ && rest[i].entry_id@ == rest[j].entry_id@) by {
            assert(rest[i] == cart[i] && rest[j] == cart[j]);
        }
        lemma_cart_count(rest, u, e);
        assert(cart.filter(pred) == rest.filter(pred));
    }
}

/// Idempotent staging: in a well-formed store, a staged pair is staged
/// exactly once, so staging the same pair again (a no-op by
/// [`Repository::add_to_cart`]'s contract) still leaves exactly one row
/// for it.
pub proof fn lemma_cart_pair_staged_once(v: RepoView, u: Seq<char>, e: Seq<char>)
    requires
        repo_wf(v),
        in_cart(v.cart, u, e),
    ensures
        v.cart.filter(|c: CartItem| c.user_id@ == u && c.entry_id@ == e).len() == 1,
{
    lemma_cart_count(v.cart, u, e);
}

/// Cart order: by entry name, lexicographically.
pub open spec fn entry_le(a: Entry, b: Entry) -> bool {
    lex_le(a.name@, b.name@)
}

/// The entries stand in ascending name order.
pub open spec fn sorted_by_name(s: Seq<Entry>) -> bool {
    forall|i: int, j: int| 0 <= i < j < s.len() ==> entry_le(#[trigger] s[i], #[trigger] s[j])
}

/// Sort in place by entry name; the contents, counted with multiplicity,
/// are unchanged.
fn sort_entries_by_name(v: &mut Vec<Entry>)
    ensures
        final(v)@.to_multiset() == old(v)@.to_multiset(),
        sorted_by_name(final(v)@),
{
    broadcast use vstd::seq_lib::group_to_multiset_ensures;
    broadcast use vstd::multiset::group_multiset_axioms;
    broadcast use vstd::multiset::group_multiset_properties;

    let n = v.len();
    if n <= 1 {
        return;
    }
    let mut i: usize = 1;
    while i < n
        invariant
            v@.len() == n,
            1 <= i <= n,
            v@.to_multiset() == old(v)@.to_multiset(),
            forall|a: int, b: int| 0 <= a < b < i ==> entry_le(#[trigger] v@[a], #[trigger] v@[b]),
        decreases n - i,
    {
        let mut pos: usize = 0;
        while pos < i && str_le(v[pos].name.as_str(), v[i].name.as_str())
            invariant
                v@.len() == n,
                1 <= i < n,
                0 <= pos <= i,
                forall|a: int| 0 <= a < pos ==> entry_le(#[trigger] v@[a], v@[i as int]),
            decreases i - pos,
        {
            pos = pos + 1;
        }
        let ghost before = v@;
        let ghost x = v@[i as int];
        proof {
            if pos < i {
                assert(!entry_le(before[pos as int], x));
                lemma_lex_le_total(x.name@, before[pos as int].name@);
                assert(entry_le(x, before[pos as int]));
            }
        }
        let moved = v.remove(i);
        v.insert(pos, moved);
        proof {
            broadcast use vstd::seq_lib::group_to_multiset_ensures;
            broadcast use vstd::multiset::group_multiset_axioms;
            broadcast use vstd::multiset::group_multiset_properties;

            let after = v@;
            assert(after == before.remove(i as int).insert(pos as int, x));
            assert(before.to_multiset().count(x) > 0) by {
                assert(before.contains(before[i as int]));
            }
            assert(after.to_multiset() =~= before.to_multiset());
            assert forall|a: int, b: int| 0 <= a < b < i + 1 implies entry_le(
                #[trigger] after[a],
                #[trigger] after[b],
            ) by {
                if a < pos {
                    assert(after[a] == before[a]);
                } else if a == pos {
                    assert(after[a] == x);
                } else {
                    assert(after[a] == before[a - 1]);
                }
                if b < pos {
                    assert(after[b] == before[b]);
                } else if b == pos {
                    assert(after[b] == x);
                } else {
                    assert(after[b] == before[b - 1]);
                }
                if b < pos {
                    assert(entry_le(before[a], before[b]));
                } else if b == pos {
                    assert(entry_le(before[a], x));
                } else {
                    let b0 = b - 1;
                    assert(pos <= b0 < i);
                    if a < pos {
                        assert(entry_le(before[a], before[b0]));
                    } else if a == pos {
                        assert(pos < i);
                        assert(entry_le(x, before[pos as int]));
                        if pos < b0 {
                            assert(entry_le(before[pos as int], before[b0]));
                            lemma_lex_le_trans(x.name@, before[pos as int].name@, before[b0].name@);
                        }
                    } else {
                        assert(entry_le(before[a - 1], before[b0]));
                    }
                }
            }
        }
        i = i + 1;
    }
}

/// The store. A single writer owns it; callers hand in plain values and get
/// plain values back.
pub struct Repository {
    users: Vec<User>,
    entries: Vec<Entry>,
    reservations: Vec<Reservation>,
    cart: Vec<CartItem>,
}

impl View for Repository {
    type V = RepoView;

    closed spec fn view(&self) -> RepoView {
        RepoView {
            users: self.users@,
            entries: self.entries@,
            reservations: self.reservations@,
            cart: self.cart@,
        }
    }
}

impl Repository {
    /// The store's invariant; established by [`Repository::new`] and
    /// preserved by every operation.
    pub open spec fn wf(&self) -> bool {
        repo_wf(self@)
    }

    /// An empty store.
    pub fn new() -> (r: Repository)
        ensures
            r.wf(),
            r@.users == Seq::<User>::empty(),
            r@.entries == Seq::<Entry>::empty(),
            r@.reservations == Seq::<Reservation>::empty(),
            r@.cart == Seq::<CartItem>::empty(),
    {
        Repository {
            users: Vec::new(),
            entries: Vec::new(),
            reservations: Vec::new(),
            cart: Vec::new(),
        }
    }

    fn find_user_index(&self, telegram_username: &str) -> (r: Option<usize>)
        ensures
            match r {
                Some(i) => i < self@.users.len() && self@.users[i as int].telegram_username@
                    == telegram_username@,
                None => !user_known(self@.users, telegram_username@),
            },
    {
        let n = self.users.len();
        let mut i: usize = 0;
        while i < n
            invariant
                n == self@.users.len(),
                0 <= i <= n,
                forall|j: int|
                    0 <= j < i ==> (#[trigger] self@.users[j]).telegram_username@
                        != telegram_username@,
            decreases n - i,
        {
            if str_eq(self.users[i].telegram_username.as_str(), telegram_username) {
                return Some(i);
            }
            i = i + 1;
        }
        None
    }

    fn find_entry_index(&self, id: &str) -> (r: Option<usize>)
        ensures
            match r {
                Some(i) => i < self@.entries.len() && self@.entries[i as int].id@ == id@,
                None => !id_known(self@.entries, id@),
            },
    {
        let n = self.entries.len();
        let mut i: usize = 0;
        while i < n
            invariant
                n == self@.entries.len(),
                0 <= i <= n,
                forall|j: int| 0 <= j < i ==> (#[trigger] self@.entries[j]).id@ != id@,
            decreases n - i,
        {
            if str_eq(self.entries[i].id.as_str(), id) {
                return Some(i);
            }
            i = i + 1;
        }
        None
    }

    /// Record a user. Refused when the name is already taken; the store is
    /// then unchanged.
    pub fn add_user(&mut self, user: User) -> (r: Result<(), RepositoryError>)
        requires
            old(self).wf(),
        ensures
            final(self).wf(),
            r is Ok <==> !user_known(old(self)@.users, user.telegram_username@),
            r is Ok ==> final(self)@ == (RepoView {
                users: old(self)@.users.push(user),
                ..old(self)@
            }),
            r matches Err(e) ==> final(self)@ == old(self)@ && (e matches
                RepositoryError::Duplicate { id } && id@ == user.telegram_username@),
    {
        match self.find_user_index(user.telegram_username.as_str()) {
            Some(_) => Err(RepositoryError::Duplicate { id: user.telegram_username }),
            None => {
                self.users.push(user);
                Ok(())
            },
        }
    }

    /// Record an inventory entry. Refused when the id is already taken; the
    /// store is then unchanged.
    pub fn add_entry(&mut self, entry: Entry) -> (r: Result<(), RepositoryError>)
        requires
            old(self).wf(),
        ensures
            final(self).wf(),
            r is Ok <==> !id_known(old(self)@.entries, entry.id@),
            r is Ok ==> final(self)@ == (RepoView {
                entries: old(self)@.entries.push(entry),
                ..old(self)@
            }),
            r matches Err(e) ==> final(self)@ == old(self)@ && (e matches
                RepositoryError::Duplicate { id } && id@ == entry.id@),
    {
        match self.find_entry_index(entry.id.as_str()) {
            Some(_) => Err(RepositoryError::Duplicate { id: entry.id }),
            None => {
                proof {
                    let v = old(self)@;
                    let entries2 = v.entries.push(entry);
                    assert forall|i: int|
                        0 <= i < v.reservations.len() implies res_wf(
                        entries2,
                        #[trigger] v.reservations[i],
                    ) by {
                        let r0 = v.reservations[i];
                        assert(res_wf(v.entries, r0));
                        assert forall|k: int| 0 <= k < r0.entry_ids@.len() implies id_known(
                            entries2,
                            (#[trigger] r0.entry_ids@[k])@,
                        ) by {
                            assert(id_known(v.entries, r0.entry_ids@[k]@));
                            let j = choose|j: int|
                                0 <= j < v.entries.len() && (#[trigger] v.entries[j]).id@
                                    == r0.entry_ids@[k]@;
                            assert(entries2[j].id@ == r0.entry_ids@[k]@);
                        }
                    }
                }
                self.entries.push(entry);
                Ok(())
            },
        }
    }

    /// The user named `telegram_username`, or nothing. Absence is an empty
    /// result, not an error.
    pub fn get_user(&self, telegram_username: &str) -> (r: Option<User>)
        ensures
            r is Some <==> user_known(self@.users, telegram_username@),
            r matches Some(u) ==> u.telegram_username@ == telegram_username@
                && self@.users.contains(u),
    {
        match self.find_user_index(telegram_username) {
            Some(i) => {
                let u = self.users[i].clone();
                proof {
                    assert(self@.users[i as int] == u);
                }
                Some(u)
            },
            None => None,
        }
    }

    /// The entry with the given id, or nothing. Absence is an empty result,
    /// not an error.
    pub fn get_entry(&self, id: &str) -> (r: Option<Entry>)
        ensures
            r is Some <==> id_known(self@.entries, id@),
            r matches Some(e) ==> e.id@ == id@ && self@.entries.contains(e),
    {
        match self.find_entry_index(id) {
            Some(i) => {
                let e = self.entries[i].clone();
                proof {
                    assert(self@.entries[i as int] == e);
                }
                Some(e)
            },
            None => None,
        }
    }

    /// Entries whose id, name or description contains `search` (characters
    /// compared exactly, so matching is case-sensitive), in storage order,
    /// truncated to `limit`.
    pub fn search_entries(&self, search: &str, limit: u32) -> (r: Vec<Entry>)
        ensures
            r@ == search_spec(self@.entries, search@, limit as int),
    {
        let ghost term = search@;
        let ghost pred = |e: Entry| entry_matches(e, term);
        let n = self.entries.len();
        let mut out: Vec<Entry> = Vec::new();
        let mut i: usize = 0;
        while i < n
            invariant
                n == self@.entries.len(),
                0 <= i <= n,
                term == search@,
                pred == (|e: Entry| entry_matches(e, term)),
                out@.len() <= limit as int,
                out@ == search_spec(self@.entries.take(i as int), term, limit as int),
            decreases n - i,
        {
            let ghost fi = self@.entries.take(i as int).filter(pred);
            let ghost fi1 = self@.entries.take(i + 1).filter(pred);
            let ghost ei = self@.entries[i as int];
            proof {
                reveal(Seq::filter);
                assert(self@.entries.take(i + 1).drop_last() =~= self@.entries.take(i as int));
                assert(self@.entries.take(i + 1).last() == ei);
                assert(fi1 == if pred(ei) {
                    fi.push(ei)
                } else {
                    fi
                });
            }
            let hit = entry_matches_exec(&self.entries[i], search);
            if hit && out.len() < limit as usize {
                out.push(self.entries[i].clone());
                proof {
                    assert(fi.len() <= limit as int);
                    assert(out@ == fi.push(ei));
                    assert(out@ == fi1);
                }
            } else {
                proof {
                    if pred(ei) {
                        assert(out@.len() == limit as int);
                        assert(fi.len() >= limit as int);
                        assert(fi1.take(limit as int) =~= fi.take(limit as int));
                        if fi.len() <= limit as int {
                            assert(fi.take(limit as int) =~= fi);
                        }
                    }
                }
            }
            i = i + 1;
        }
        proof {
            assert(self@.entries.take(n as int) =~= self@.entries);
        }
        out
    }

    /// The reservation standing in the way of claiming `entry_id` for the
    /// half-open window `[check_start, check_end)`: the earliest-starting
    /// overlapping reservation, ties broken by lexically least id; nothing
    /// when the entry is free for the whole window.
    pub fn is_entry_reserved(&self, entry_id: &str, check_start: i64, check_end: i64) -> (r: Option<
        EntryReserved,
    >)
        ensures
            r is None <==> (forall|i: int|
                0 <= i < self@.reservations.len() ==> !res_conflicts(
                    #[trigger] self@.reservations[i],
                    entry_id@,
                    check_start as int,
                    check_end as int,
                )),
            r matches Some(er) ==> exists|i: int|
                {
                    &&& 0 <= i < self@.reservations.len()
                    &&& res_conflicts(
                        #[trigger] self@.reservations[i],
                        entry_id@,
                        check_start as int,
                        check_end as int,
                    )
                    &&& er.reserver@ == self@.reservations[i].made_by@
                    &&& er.start == self@.reservations[i].start
                    &&& er.end == self@.reservations[i].end
                    &&& earliest_conflict(
                        self@.reservations,
                        entry_id@,
                        check_start as int,
                        check_end as int,
                        i,
                    )
                },
    {
        let ghost eid = entry_id@;
        let ghost cs = check_start as int;
        let ghost ce = check_end as int;
        let n = self.reservations.len();
        let mut best: Option<usize> = None;
        let mut i: usize = 0;
        while i < n
            invariant
                n == self@.reservations.len(),
                0 <= i <= n,
                eid == entry_id@,
                cs == check_start as int,
                ce == check_end as int,
                match best {
                    Some(b) => b < i && res_conflicts(self@.reservations[b as int], eid, cs, ce)
                        && forall|j: int|
                        0 <= j < i && res_conflicts(#[trigger] self@.reservations[j], eid, cs, ce)
                            ==> (self@.reservations[b as int].start < self@.reservations[j].start
                            || (self@.reservations[b as int].start == self@.reservations[j].start
                            && lex_le(self@.reservations[b as int].id@, self@.reservations[j].id@))),
                    None => forall|j: int|
                        0 <= j < i ==> !res_conflicts(
                            #[trigger] self@.reservations[j],
                            eid,
                            cs,
                            ce,
                        ),
                },
            decreases n - i,
        {
            let cand = covers_exec(&self.reservations[i], entry_id) && self.reservations[i].start
                < check_end && check_start < self.reservations[i].end;
            if cand {
                match best {
                    None => {
                        proof {
                            lemma_lex_le_total(self@.reservations[i as int].id@, self@.reservations[i as int].id@);
                        }
                        best = Some(i);
                    },
                    Some(b) => {
                        let better = self.reservations[i].start < self.reservations[b].start || (
                        self.reservations[i].start == self.reservations[b].start && str_le(
                            self.reservations[i].id.as_str(),
                            self.reservations[b].id.as_str(),
                        ));
                        if better {
                            proof {
                                let rs = self@.reservations;
                                lemma_lex_le_total(rs[i as int].id@, rs[i as int].id@);
                                assert forall|j: int|
                                    0 <= j < i + 1 && res_conflicts(#[trigger] rs[j], eid, cs, ce)
                                        implies (rs[i as int].start < rs[j].start || (rs[
                                    i as int].start == rs[j].start && lex_le(
                                    rs[i as int].id@,
                                    rs[j].id@,
                                ))) by {
                                    if j < i {
                                        if rs[i as int].start == rs[j].start && rs[b as int].start
                                            == rs[j].start {
                                            lemma_lex_le_trans(
                                                rs[i as int].id@,
                                                rs[b as int].id@,
                                                rs[j].id@,
                                            );
                                        }
                                    }
                                }
                            }
                            best = Some(i);
                        } else {
                            proof {
                                let rs = self@.reservations;
                                if rs[b as int].start == rs[i as int].start {
                                    lemma_lex_le_total(rs[i as int].id@, rs[b as int].id@);
                                }
                            }
                        }
                    },
                }
            }
            i = i + 1;
        }
        match best {
            None => None,
            Some(b) => {
                let er = EntryReserved {
                    reserver: self.reservations[b].made_by.clone(),
                    start: self.reservations[b].start,
                    end: self.reservations[b].end,
                };
                proof {
                    assert(res_conflicts(self@.reservations[b as int], eid, cs, ce));
                }
                Some(er)
            },
        }
    }

    /// Claim every entry in `entry_ids` for the half-open window
    /// `[start_ts, end_ts)` on behalf of `made_by`, atomically: either one
    /// reservation covering all of them is recorded and its derived id
    /// returned, or nothing changes and the first problem is reported —
    /// an improper window, an id naming no entry, the first conflicting
    /// entry with the earliest reservation standing in the way, or a
    /// reservation id already taken.
    pub fn reserve_entries(
        &mut self,
        entry_ids: &Vec<String>,
        start_ts: i64,
        end_ts: i64,
        made_by: &str,
    ) -> (r: Result<String, RepositoryError>)
        requires
            old(self).wf(),
            ts_in_range(start_ts as int),
            ts_in_range(end_ts as int),
            entry_ids@.len() > 0,
        ensures
            final(self).wf(),
            r is Err ==> final(self)@ == old(self)@,
            r matches Err(RepositoryError::InvalidWindow) <==> start_ts >= end_ts,
            r is Ok <==> (start_ts < end_ts && ids_ok(
                old(self)@.entries,
                old(self)@.reservations,
                entry_ids@,
                start_ts as int,
                end_ts as int,
                entry_ids@.len() as int,
            ) && !res_id_taken(
                old(self)@.reservations,
                reservation_id_of(start_ts as int, end_ts as int, made_by@),
            )),
            r matches Ok(rid) ==> {
                &&& rid@ == reservation_id_of(start_ts as int, end_ts as int, made_by@)
                &&& final(self)@.users == old(self)@.users
                &&& final(self)@.entries == old(self)@.entries
                &&& final(self)@.cart == old(self)@.cart
                &&& final(self)@.reservations.len() == old(self)@.reservations.len() + 1
                &&& final(self)@.reservations.take(old(self)@.reservations.len() as int) == old(
                    self,
                )@.reservations
                &&& final(self)@.reservations.last().id@ == rid@
                &&& final(self)@.reservations.last().start == start_ts
                &&& final(self)@.reservations.last().end == end_ts
                &&& final(self)@.reservations.last().made_by@ == made_by@
                &&& final(self)@.reservations.last().entry_ids@ == entry_ids@
            },
            r matches Err(RepositoryError::UnknownEntry { entry_id }) ==> start_ts < end_ts
                && exists|i: int|
                {
                    &&& 0 <= i < entry_ids@.len()
                    &&& ids_ok(
                        old(self)@.entries,
                        old(self)@.reservations,
                        entry_ids@,
                        start_ts as int,
                        end_ts as int,
                        i,
                    )
                    &&& (#[trigger] entry_ids@[i])@ == entry_id@
                    &&& !id_known(old(self)@.entries, entry_id@)
                },
            r matches Err(RepositoryError::Conflict { entry_id, existing }) ==> {
                &&& start_ts < end_ts
                &&& exists|i: int|
                    {
                        &&& 0 <= i < entry_ids@.len()
                        &&& ids_ok(
                            old(self)@.entries,
                            old(self)@.reservations,
                            entry_ids@,
                            start_ts as int,
                            end_ts as int,
                            i,
                        )
                        &&& (#[trigger] entry_ids@[i])@ == entry_id@
                        &&& id_known(old(self)@.entries, entry_id@)
                    }
                &&& exists|j: int|
                    {
                        &&& 0 <= j < old(self)@.reservations.len()
                        &&& res_conflicts(
                            #[trigger] old(self)@.reservations[j],
                            entry_id@,
                            start_ts as int,
                            end_ts as int,
                        )
                        &&& existing.reserver@ == old(self)@.reservations[j].made_by@
                        &&& existing.start == old(self)@.reservations[j].start
                        &&& existing.end == old(self)@.reservations[j].end
                        &&& earliest_conflict(
                            old(self)@.reservations,
                            entry_id@,
                            start_ts as int,
                            end_ts as int,
                            j,
                        )
                    }
            },
            r matches Err(RepositoryError::Duplicate { id }) ==> {
                &&& start_ts < end_ts
                &&& ids_ok(
                    old(self)@.entries,
                    old(self)@.reservations,
                    entry_ids@,
                    start_ts as int,
                    end_ts as int,
                    entry_ids@.len() as int,
                )
                &&& id@ == reservation_id_of(start_ts as int, end_ts as int, made_by@)
                &&& res_id_taken(old(self)@.reservations, id@)
            },
    {
        if start_ts >= end_ts {
            return Err(RepositoryError::InvalidWindow);
        }
        let ghost s = start_ts as int;
        let ghost e = end_ts as int;
        let n = entry_ids.len();
        let mut i: usize = 0;
        while i < n
            invariant
                self@ == old(self)@,
                old(self).wf(),
                n == entry_ids@.len(),
                0 <= i <= n,
                s == start_ts as int,
                e == end_ts as int,
                start_ts < end_ts,
                ids_ok(self@.entries, self@.reservations, entry_ids@, s, e, i as int),
            decreases n - i,
        {
            if self.find_entry_index(entry_ids[i].as_str()).is_none() {
                return Err(RepositoryError::UnknownEntry { entry_id: entry_ids[i].clone() });
            }
            match self.is_entry_reserved(entry_ids[i].as_str(), start_ts, end_ts) {
                Some(existing) => {
                    return Err(
                        RepositoryError::Conflict { entry_id: entry_ids[i].clone(), existing },
                    );
                },
                None => {
                    proof {
                        assert(!has_conflict(self@.reservations, entry_ids@[i as int]@, s, e));
                    }
                },
            }
            i = i + 1;
        }
        let rid = reservation_id(start_ts, end_ts, made_by);
        let rn = self.reservations.len();
        let mut j: usize = 0;
        while j < rn
            invariant
                self@ == old(self)@,
                old(self).wf(),
                rn == self@.reservations.len(),
                0 <= j <= rn,
                rid@ == reservation_id_of(s, e, made_by@),
                s == start_ts as int,
                e == end_ts as int,
                start_ts < end_ts,
                ids_ok(self@.entries, self@.reservations, entry_ids@, s, e, entry_ids@.len() as int),
                forall|k: int| 0 <= k < j ==> (#[trigger] self@.reservations[k]).id@ != rid@,
            decreases rn - j,
        {
            if str_eq(self.reservations[j].id.as_str(), rid.as_str()) {
                return Err(RepositoryError::Duplicate { id: rid });
            }
            j = j + 1;
        }
        let nr = Reservation {
            id: rid.clone(),
            start: start_ts,
            end: end_ts,
            made_by: made_by.to_owned(),
            entry_ids: clone_string_vec(entry_ids),
        };
        proof {
            let v = old(self)@;
            let rs = v.reservations;
            let rs2 = rs.push(nr);
            assert forall|a: int, b: int| 0 <= a < b < rs2.len() implies (#[trigger] rs2[a]).id@
                != (#[trigger] rs2[b]).id@ by {
                if b < rs2.len() - 1 {
                    assert(rs2[a] == rs[a] && rs2[b] == rs[b]);
                } else {
                    assert(rs2[b] == nr && rs2[a] == rs[a]);
                }
            }
            assert forall|a: int| 0 <= a < rs2.len() implies res_wf(
                v.entries,
                #[trigger] rs2[a],
            ) by {
                if a < rs2.len() - 1 {
                    assert(rs2[a] == rs[a]);
                    assert(res_wf(v.entries, rs[a]));
                } else {
                    assert(rs2[a] == nr);
                    assert forall|k: int| 0 <= k < nr.entry_ids@.len() implies id_known(
                        v.entries,
                        (#[trigger] nr.entry_ids@[k])@,
                    ) by {
                        assert(ids_ok(v.entries, rs, entry_ids@, s, e, n as int));
                        assert(id_known(v.entries, entry_ids@[k]@));
                    }
                }
            }
            assert forall|a: int, b: int|
                0 <= a < rs2.len() && 0 <= b < rs2.len() && a != b && #[trigger] share_entry(
                    rs2[a],
                    rs2[b],
                ) implies !windows_overlap(
                rs2[a].start as int,
                rs2[a].end as int,
                rs2[b].start as int,
                rs2[b].end as int,
            ) by {
                if a < rs2.len() - 1 && b < rs2.len() - 1 {
                    assert(rs2[a] == rs[a] && rs2[b] == rs[b]);
                    assert(share_entry(rs[a], rs[b]));
                } else {
                    let o: int = if a < rs2.len() - 1 {
                        a
                    } else {
                        b
                    };
                    assert(rs2[o] == rs[o]);
                    assert(share_entry(rs[o], nr) || share_entry(nr, rs[o]));
                    let eid = choose|eid: Seq<char>|
                        #[trigger] covers(rs2[a], eid) && covers(rs2[b], eid);
                    assert(covers(nr, eid) && covers(rs[o], eid));
                    let m = choose|m: int|
                        0 <= m < nr.entry_ids@.len() && (#[trigger] nr.entry_ids@[m])@ == eid;
                    assert(ids_ok(v.entries, rs, entry_ids@, s, e, n as int));
                    assert(!has_conflict(rs, entry_ids@[m]@, s, e));
                    assert(!res_conflicts(rs[o], eid, s, e));
                }
            }
        }
        self.reservations.push(nr);
        proof {
            let v = old(self)@;
            assert forall|a: int, b: int| 0 <= a < b < self@.cart.len() implies !((
            #[trigger] self@.cart[a]).user_id@ == (#[trigger] self@.cart[b]).user_id@
                && self@.cart[a].entry_id@ == self@.cart[b].entry_id@) by {
                assert(self@.cart[a] == v.cart[a]);
                assert(self@.cart[b] == v.cart[b]);
            }
            assert(final(self)@.reservations.take(old(self)@.reservations.len() as int)
                =~= old(self)@.reservations);
        }
        Ok(rid)
    }

    fn cart_index(&self, user_id: &str, entry_id: &str) -> (r: Option<usize>)
        ensures
            match r {
                Some(i) => i < self@.cart.len() && self@.cart[i as int].user_id@ == user_id@
                    && self@.cart[i as int].entry_id@ == entry_id@,
                None => !in_cart(self@.cart, user_id@, entry_id@),
            },
    {
        let n = self.cart.len();
        let mut i: usize = 0;
        while i < n
            invariant
                n == self@.cart.len(),
                0 <= i <= n,
                forall|j: int|
                    0 <= j < i ==> !((#[trigger] self@.cart[j]).user_id@ == user_id@
                        && self@.cart[j].entry_id@ == entry_id@),
            decreases n - i,
        {
            if str_eq(self.cart[i].user_id.as_str(), user_id) && str_eq(
                self.cart[i].entry_id.as_str(),
                entry_id,
            ) {
                return Some(i);
            }
            i = i + 1;
        }
        None
    }

    /// Stage the pair `(user_id, entry_id)`. Idempotent: staging a pair
    /// already present changes nothing and is no error. The entry id is not
    /// validated here; that is deferred to reservation time.
    pub fn add_to_cart(&mut self, user_id: &str, entry_id: &str)
        requires
            old(self).wf(),
        ensures
            final(self).wf(),
            in_cart(old(self)@.cart, user_id@, entry_id@) ==> final(self)@ == old(self)@,
            !in_cart(old(self)@.cart, user_id@, entry_id@) ==> {
                &&& final(self)@.cart.len() == old(self)@.cart.len() + 1
                &&& final(self)@.cart.take(old(self)@.cart.len() as int) == old(self)@.cart
                &&& final(self)@.cart.last().user_id@ == user_id@
                &&& final(self)@.cart.last().entry_id@ == entry_id@
                &&& final(self)@.users == old(self)@.users
                &&& final(self)@.entries == old(self)@.entries
                &&& final(self)@.reservations == old(self)@.reservations
            },
            in_cart(final(self)@.cart, user_id@, entry_id@),
    {
        match self.cart_index(user_id, entry_id) {
            Some(_) => (),
            None => {
                let item = CartItem { user_id: user_id.to_owned(), entry_id: entry_id.to_owned() };
                self.cart.push(item);
                proof {
                    let v = old(self)@;
                    let c2 = self@.cart;
                    assert(c2.take(v.cart.len() as int) =~= v.cart);
                    assert(c2[c2.len() - 1].user_id@ == user_id@);
                    assert forall|a: int, b: int| 0 <= a < b < c2.len() implies !((
                    #[trigger] c2[a]).user_id@ == (#[trigger] c2[b]).user_id@ && c2[a].entry_id@
                        == c2[b].entry_id@) by {
                        if b < c2.len() - 1 {
                            assert(c2[a] == v.cart[a] && c2[b] == v.cart[b]);
                        } else {
                            assert(c2[a] == v.cart[a]);
                            if c2[a].user_id@ == user_id@ && c2[a].entry_id@ == entry_id@ {
                                assert(in_cart(v.cart, user_id@, entry_id@));
                            }
                        }
                    }
                }
            },
        }
    }

    /// Unstage the pair `(user_id, entry_id)`; reports whether a staged
    /// pair was actually removed. Afterwards the pair is not staged.
    pub fn remove_from_cart(&mut self, user_id: &str, entry_id: &str) -> (r: bool)
        requires
            old(self).wf(),
        ensures
            final(self).wf(),
            r == in_cart(old(self)@.cart, user_id@, entry_id@),
            !r ==> final(self)@ == old(self)@,
            r ==> exists|i: int|
                {
                    &&& 0 <= i < old(self)@.cart.len()
                    &&& (#[trigger] old(self)@.cart[i]).user_id@ == user_id@
                    &&& old(self)@.cart[i].entry_id@ == entry_id@
                    &&& final(self)@ == (RepoView {
                        cart: old(self)@.cart.remove(i),
                        ..old(self)@
                    })
                },
            !in_cart(final(self)@.cart, user_id@, entry_id@),
    {
        match self.cart_index(user_id, entry_id) {
            None => false,
            Some(i) => {
                self.cart.remove(i);
                proof {
                    let v = old(self)@;
                    let c2 = self@.cart;
                    assert forall|a: int, b: int| 0 <= a < b < c2.len() implies !((
                    #[trigger] c2[a]).user_id@ == (#[trigger] c2[b]).user_id@ && c2[a].entry_id@
                        == c2[b].entry_id@) by {
                        let a0: int = if a < i {
                            a
                        } else {
                            a + 1
                        };
                        let b0: int = if b < i {
                            b
                        } else {
                            b + 1
                        };
                        assert(c2[a] == v.cart[a0] && c2[b] == v.cart[b0]);
                    }
                    assert forall|j: int|
                        0 <= j < c2.len() implies !((#[trigger] c2[j]).user_id@ == user_id@
                        && c2[j].entry_id@ == entry_id@) by {
                        let j0: int = if j < i {
                            j
                        } else {
                            j + 1
                        };
                        assert(c2[j] == v.cart[j0]);
                        if j0 != i as int && v.cart[j0].user_id@ == user_id@
                            && v.cart[j0].entry_id@ == entry_id@ {
                            assert(v.cart[i as int].user_id@ == v.cart[j0].user_id@
                                && v.cart[i as int].entry_id@ == v.cart[j0].entry_id@);
                            assert(false);
                        }
                    }
                }
                true
            },
        }
    }

    /// The entries staged by `user_id`, joined against the entry table and
    /// ordered by entry name ascending. A staged id naming no entry is
    /// silently dropped.
    pub fn get_cart(&self, user_id: &str) -> (r: Vec<Entry>)
        ensures
            r@.to_multiset() == self@.entries.filter(
                |en: Entry| in_cart(self@.cart, user_id@, en.id@),
            ).to_multiset(),
            sorted_by_name(r@),
    {
        let ghost uid = user_id@;
        let ghost pred = |en: Entry| in_cart(self@.cart, uid, en.id@);
        let n = self.entries.len();
        let mut out: Vec<Entry> = Vec::new();
        let mut i: usize = 0;
        while i < n
            invariant
                n == self@.entries.len(),
                0 <= i <= n,
                uid == user_id@,
                pred == (|en: Entry| in_cart(self@.cart, uid, en.id@)),
                out@ == self@.entries.take(i as int).filter(pred),
            decreases n - i,
        {
            let ghost ei = self@.entries[i as int];
            proof {
                reveal(Seq::filter);
                assert(self@.entries.take(i + 1).drop_last() =~= self@.entries.take(i as int));
                assert(self@.entries.take(i + 1).last() == ei);
            }
            if self.cart_index(user_id, self.entries[i].id.as_str()).is_some() {
                out.push(self.entries[i].clone());
            }
            i = i + 1;
        }
        proof {
            assert(self@.entries.take(n as int) =~= self@.entries);
        }
        sort_entries_by_name(&mut out);
        out
    }

    /// Every stored entry, in storage order.
    pub fn get_entries(&self) -> (r: Vec<Entry>)
        ensures
            r@ == self@.entries,
    {
        let n = self.entries.len();
        let mut out: Vec<Entry> = Vec::new();
        let mut i: usize = 0;
        while i < n
            invariant
                n == self@.entries.len(),
                0 <= i <= n,
                out@ == self@.entries.take(i as int),
            decreases n - i,
        {
            out.push(self.entries[i].clone());
            proof {
                assert(out@ =~= self@.entries.take(i + 1));
            }
            i = i + 1;
        }
        proof {
            assert(self@.entries.take(n as int) =~= self@.entries);
        }
        out
    }
}

} // verus!
