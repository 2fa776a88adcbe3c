//! In-memory session store: a mapping from opaque token to session data with
//! a per-entry expiry instant.
//!
//! The store never reads a clock of its own; every operation that depends on
//! time takes the current instant (`now`, seconds since the Unix epoch) from
//! the caller. An entry is readable if and only if `now` is strictly before
//! its `expires_at`; an expired entry is unreachable through
//! [`Sessions::check_session`] even before any sweep removes it, so the sweep
//! is a memory bound, never a correctness mechanism. The store is not
//! persisted: a process restart drops every session by design.

use vstd::prelude::*;

use crate::text::str_eq;
use crate::tokens::generate_token;
use crate::tokens::TOKEN_CHARS;

verus! {

/// What a valid session proves: who logged in, and the second secret that
/// authorizes terminating the session without knowing its token.
pub struct SessionData {
    pub username: String,
    pub logout_key: String,
}

impl Clone for SessionData {
    fn clone(&self) -> (r: Self)
        ensures
            r == *self,
    {
        SessionData { username: self.username.clone(), logout_key: self.logout_key.clone() }
    }
}

/// The mathematical content of one stored session.
pub ghost struct SessionView {
    pub username: Seq<char>,
    pub logout_key: Seq<char>,
    pub expires_at: int,
}

struct SessionRow {
    token: String,
    username: String,
    logout_key: String,
    expires_at: i64,
}

impl Clone for SessionRow {
    fn clone(&self) -> (r: Self)
        ensures
            r == *self,
    {
        SessionRow {
            token: self.token.clone(),
            username: self.username.clone(),
            logout_key: self.logout_key.clone(),
            expires_at: self.expires_at,
        }
    }
}

spec fn row_view(r: SessionRow) -> SessionView {
    SessionView { username: r.username@, logout_key: r.logout_key@, expires_at: r.expires_at as int }
}

spec fn rows_map(rows: Seq<SessionRow>) -> Map<Seq<char>, SessionView>
    decreases rows.len(),
{
    if rows.len() == 0 {
        Map::empty()
    } else {
        rows_map(rows.drop_last()).insert(rows.last().token@, row_view(rows.last()))
    }
}

spec fn rows_unique(rows: Seq<SessionRow>) -> bool {
    forall|i: int, j: int|
        0 <= i < j < rows.len() ==> (#[trigger] rows[i]).token@ != (#[trigger] rows[j]).token@
}

/// What a lookup at instant `now` yields: the stored data when the token is
/// present and not yet expired, nothing otherwise. "Absent" and "expired"
/// are indistinguishable by design.
pub open spec fn session_lookup(
    m: Map<Seq<char>, SessionView>,
    token: Seq<char>,
    now: int,
) -> Option<SessionView> {
    if m.dom().contains(token) && now < m[token].expires_at {
        Some(m[token])
    } else {
        None
    }
}

/// The session table, owned by the running process.
pub struct Sessions {
    rows: Vec<SessionRow>,
}

impl View for Sessions {
    type V = Map<Seq<char>, SessionView>;

    closed spec fn view(&self) -> Map<Seq<char>, SessionView> {
        rows_map(self.rows@)
    }
}

proof fn lemma_rows_map_dom(rows: Seq<SessionRow>, t: Seq<char>)
    ensures
        rows_map(rows).dom().contains(t) <==> exists|i: int|
            0 <= i < rows.len() && (#[trigger] rows[i]).token@ == t,
    decreases rows.len(),
{
    if rows.len() > 0 {
        lemma_rows_map_dom(rows.drop_last(), t);
        if rows.last().token@ == t {
            assert(rows[rows.len() - 1].token@ == t);
        } else {
            if rows_map(rows).dom().contains(t) {
                let i = choose|i: int|
                    0 <= i < rows.drop_last().len() && (#[trigger] rows.drop_last()[i]).token@ == t;
                assert(rows[i].token@ == t);
            }
            if exists|i: int| 0 <= i < rows.len() && (#[trigger] rows[i]).token@ == t {
                let i = choose|i: int| 0 <= i < rows.len() && (#[trigger] rows[i]).token@ == t;
                assert(rows.drop_last()[i].token@ == t);
            }
        }
    }
}

proof fn lemma_rows_map_at(rows: Seq<SessionRow>, i: int)
    requires
        rows_unique(rows),
        0 <= i < rows.len(),
    ensures
        rows_map(rows).dom().contains(rows[i].token@),
        rows_map(rows)[rows[i].token@] == row_view(rows[i]),
    decreases rows.len(),
{
    if i == rows.len() - 1 {
    } else {
        assert(rows.drop_last()[i] == rows[i]);
        lemma_rows_map_at(rows.drop_last(), i);
        assert(rows.last().token@ != rows[i].token@);
    }
}

proof fn lemma_rows_map_remove(rows: Seq<SessionRow>, i: int)
    requires
        rows_unique(rows),
        0 <= i < rows.len(),
    ensures
        rows_unique(rows.remove(i)),
        rows_map(rows.remove(i)) == rows_map(rows).remove(rows[i].token@),
    decreases rows.len(),
{
    let t = rows[i].token@;
    if i == rows.len() - 1 {
        assert(rows.remove(i) =~= rows.drop_last());
        lemma_rows_map_dom(rows.drop_last(), t);
        assert forall|j: int| 0 <= j < rows.drop_last().len() implies (#[trigger] rows.drop_last()[
            j
        ]).token@ != t by {
            assert(rows[j].token@ != rows[i].token@);
        }
        assert(!rows_map(rows.drop_last()).dom().contains(t));
        assert(rows_map(rows.drop_last()).insert(t, row_view(rows.last())).remove(t)
            =~= rows_map(rows.drop_last()));
    } else {
        assert(rows.remove(i).drop_last() =~= rows.drop_last().remove(i));
        assert(rows.remove(i).last() == rows.last());
        assert forall|a: int, b: int|
            0 <= a < b < rows.drop_last().len() implies (#[trigger] rows.drop_last()[a]).token@
            != (#[trigger] rows.drop_last()[b]).token@ by {
            assert(rows[a].token@ != rows[b].token@);
        }
        lemma_rows_map_remove(rows.drop_last(), i);
        assert(rows.drop_last()[i] == rows[i]);
        let lt = rows.last().token@;
        assert(lt != t);
        assert(rows_map(rows.drop_last()).remove(t).insert(lt, row_view(rows.last()))
            =~= rows_map(rows.drop_last()).insert(lt, row_view(rows.last())).remove(t));
        assert forall|a: int, b: int|
            0 <= a < b < rows.remove(i).len() implies (#[trigger] rows.remove(i)[a]).token@
            != (#[trigger] rows.remove(i)[b]).token@ by {
            let a0: int = if a < i {
                a
            } else {
                a + 1
            };
            let b0: int = if b < i {
                b
            } else {
                b + 1
            };
            assert(rows.remove(i)[a] == rows[a0]);
            assert(rows.remove(i)[b] == rows[b0]);
            assert(rows[a0].token@ != rows[b0].token@);
        }
    }
}

impl Sessions {
    /// Tokens are unique: each names at most one stored session.
    pub closed spec fn wf(&self) -> bool {
        rows_unique(self.rows@)
    }

    /// A fresh, empty store.
    pub fn new() -> (r: Sessions)
        ensures
            r.wf(),
            r@ == Map::<Seq<char>, SessionView>::empty(),
    {
        Sessions { rows: Vec::new() }
    }

    /// Store a session under `token`, replacing any session that token
    /// already named.
    pub fn insert_session(
        &mut self,
        token: String,
        username: String,
        logout_key: String,
        expires_at: i64,
    )
        requires
            old(self).wf(),
        ensures
            final(self).wf(),
            final(self)@ == old(self)@.insert(
                token@,
                SessionView {
                    username: username@,
                    logout_key: logout_key@,
                    expires_at: expires_at as int,
                },
            ),
    {
        let ghost orig = self.rows@;
        let mut i: usize = 0;
        let n = self.rows.len();
        while i < n
            invariant
                self.rows@ == orig,
                orig == old(self).rows@,
                rows_unique(orig),
                n == orig.len(),
                0 <= i <= n,
                forall|j: int| 0 <= j < i ==> (#[trigger] orig[j]).token@ != token@,
            decreases n - i,
        {
            if str_eq(self.rows[i].token.as_str(), token.as_str()) {
                proof {
                    lemma_rows_map_remove(orig, i as int);
                }
                self.rows.remove(i);
                let row = SessionRow { token, username, logout_key, expires_at };
                proof {
                    assert forall|j: int| 0 <= j < self.rows@.len() implies (#[trigger] self.rows@[
                        j
                    ]).token@ != row.token@ by {
                        let j0: int = if j < i {
                            j
                        } else {
                            j + 1
                        };
                        assert(self.rows@[j] == orig[j0]);
                        if j0 != i {
                            assert(orig[j0].token@ != orig[i as int].token@);
                        }
                    }
                    assert(self.rows@.push(row).drop_last() =~= self.rows@);
                }
                let ghost pre = self.rows@;
                self.rows.push(row);
                proof {
                    assert(self.rows@.drop_last() =~= pre);
                    assert(self.rows@.last() == row);
                    assert(rows_map(self.rows@) =~= rows_map(orig).insert(
                        row.token@,
                        row_view(row),
                    ));
                    assert forall|a: int, b: int|
                        0 <= a < b < self.rows@.len() implies (#[trigger] self.rows@[a]).token@
                        != (#[trigger] self.rows@[b]).token@ by {
                        if b < self.rows@.len() - 1 {
                            let a0: int = if a < i {
                                a
                            } else {
                                a + 1
                            };
                            let b0: int = if b < i {
                                b
                            } else {
                                b + 1
                            };
                            assert(self.rows@[a] == orig[a0]);
                            assert(self.rows@[b] == orig[b0]);
                            assert(orig[a0].token@ != orig[b0].token@);
                        }
                    }
                }
                return;
            }
            i = i + 1;
        }
        let row = SessionRow { token, username, logout_key, expires_at };
        let ghost pre = self.rows@;
        self.rows.push(row);
        proof {
            assert(self.rows@.drop_last() =~= pre);
            assert(self.rows@.last() == row);
            lemma_rows_map_dom(orig, row.token@);
        }
    }

    /// The data behind `token`, provided the session has not expired at
    /// instant `now`. An expired or absent token yields nothing, and the two
    /// cases are indistinguishable.
    pub fn check_session(&self, token: &str, now: i64) -> (r: Option<SessionData>)
        requires
            self.wf(),
        ensures
            session_lookup(self@, token@, now as int) is None ==> r is None,
            session_lookup(self@, token@, now as int) matches Some(v) ==> (r matches Some(d)
                && d.username@ == v.username && d.logout_key@ == v.logout_key),
    {
        let n = self.rows.len();
        let mut i: usize = 0;
        while i < n
            invariant
                self.wf(),
                n == self.rows@.len(),
                0 <= i <= n,
                forall|j: int| 0 <= j < i ==> (#[trigger] self.rows@[j]).token@ != token@,
            decreases n - i,
        {
            if str_eq(self.rows[i].token.as_str(), token) {
                proof {
                    lemma_rows_map_at(self.rows@, i as int);
                }
                if self.rows[i].expires_at > now {
                    return Some(
                        SessionData {
                            username: self.rows[i].username.clone(),
                            logout_key: self.rows[i].logout_key.clone(),
                        },
                    );
                } else {
                    return None;
                }
            }
            i = i + 1;
        }
        proof {
            lemma_rows_map_dom(self.rows@, token@);
        }
        None
    }

    /// Remove the session named by `token`, whether or not it has expired;
    /// reports whether one was stored.
    pub fn delete_session(&mut self, token: &str) -> (r: bool)
        requires
            old(self).wf(),
        ensures
            final(self).wf(),
            r == old(self)@.dom().contains(token@),
            final(self)@ == old(self)@.remove(token@),
    {
        let ghost orig = self.rows@;
        let n = self.rows.len();
        let mut i: usize = 0;
        while i < n
            invariant
                self.rows@ == orig,
                orig == old(self).rows@,
                rows_unique(orig),
                n == orig.len(),
                0 <= i <= n,
                forall|j: int| 0 <= j < i ==> (#[trigger] orig[j]).token@ != token@,
            decreases n - i,
        {
            if str_eq(self.rows[i].token.as_str(), token) {
                proof {
                    lemma_rows_map_at(orig, i as int);
                    lemma_rows_map_remove(orig, i as int);
                }
                self.rows.remove(i);
                return true;
            }
            i = i + 1;
        }
        proof {
            lemma_rows_map_dom(orig, token@);
            assert(rows_map(orig).remove(token@) =~= rows_map(orig));
        }
        false
    }

    /// Log a user in: draw a session token and a logout key, and store the
    /// session so that it expires `duration_secs` after `now`. Yields the
    /// two credentials, or nothing when the operating system's randomness
    /// source fails, in which case the store is unchanged.
    pub fn create_session(&mut self, username: String, duration_secs: i64, now: i64) -> (r: Option<
        (String, String),
    >)
        requires
            old(self).wf(),
            0 <= now,
            0 <= duration_secs,
            now + duration_secs <= i64::MAX,
        ensures
            final(self).wf(),
            r matches Some(p) ==> {
                &&& final(self)@ == old(self)@.insert(
                    p.0@,
                    SessionView {
                        username: username@,
                        logout_key: p.1@,
                        expires_at: now + duration_secs,
                    },
                )
                &&& p.0@.len() == TOKEN_CHARS as int
                &&& p.1@.len() == TOKEN_CHARS as int
            },
            r is None ==> final(self)@ == old(self)@,
    {
        let token = match generate_token() {
            Some(t) => t,
            None => {
                return None;
            },
        };
        let logout_key = match generate_token() {
            Some(t) => t,
            None => {
                return None;
            },
        };
        let expires_at = now + duration_secs;
        self.insert_session(token.clone(), username, logout_key.clone(), expires_at);
        Some((token, logout_key))
    }

    /// Drop every session already expired at instant `now`. Only a memory
    /// bound: lookups at any instant not before `now` are unaffected (see
    /// [`lemma_sweep_preserves_lookup`]).
    pub fn sweep(&mut self, now: i64)
        requires
            old(self).wf(),
        ensures
            final(self).wf(),
            forall|t: Seq<char>|
                #[trigger] final(self)@.dom().contains(t) <==> (old(self)@.dom().contains(t)
                    && old(self)@[t].expires_at > now),
            forall|t: Seq<char>|
                final(self)@.dom().contains(t) ==> #[trigger] final(self)@[t] == old(self)@[t],
    {
        let ghost orig = self.rows@;
        let n = self.rows.len();
        let mut kept: Vec<SessionRow> = Vec::new();
        let mut i: usize = 0;
        while i < n
            invariant
                self.rows@ == orig,
                n == orig.len(),
                0 <= i <= n,
                kept@ =~= orig.take(i as int).filter(|r: SessionRow| r.expires_at > now),
            decreases n - i,
        {
            proof {
                assert(orig.take(i + 1).drop_last() =~= orig.take(i as int));
                assert(orig.take(i + 1).last() == orig[i as int]);
                reveal_with_fuel(Seq::filter, 2);
            }
            if self.rows[i].expires_at > now {
                kept.push(self.rows[i].clone());
            }
            i = i + 1;
        }
        proof {
            assert(orig.take(n as int) =~= orig);
        }
        self.rows = kept;
        proof {
            let pred = |r: SessionRow| r.expires_at > now;
            let new_rows = self.rows@;
            assert(new_rows == orig.filter(pred));
            lemma_filter_rows_unique(orig, pred);
            assert forall|t: Seq<char>|
                #[trigger] rows_map(new_rows).dom().contains(t) <==> (rows_map(orig).dom().contains(
                    t,
                ) && rows_map(orig)[t].expires_at > now) by {
                lemma_rows_map_dom(new_rows, t);
                lemma_rows_map_dom(orig, t);
                if rows_map(new_rows).dom().contains(t) {
                    let i0 = choose|i0: int|
                        0 <= i0 < new_rows.len() && (#[trigger] new_rows[i0]).token@ == t;
                    assert(new_rows.contains(new_rows[i0]));
                    orig.lemma_filter_contains_rev(pred, new_rows[i0]);
                    orig.lemma_filter_pred(pred, i0);
                    let j0 = choose|j0: int| 0 <= j0 < orig.len() && orig[j0] == new_rows[i0];
                    lemma_rows_map_at(orig, j0);
                } else {
                    if rows_map(orig).dom().contains(t) && rows_map(orig)[t].expires_at > now {
                        let j0 = choose|j0: int|
                            0 <= j0 < orig.len() && (#[trigger] orig[j0]).token@ == t;
                        lemma_rows_map_at(orig, j0);
                        orig.lemma_filter_contains(pred, j0);
                        let i0 = choose|i0: int|
                            0 <= i0 < new_rows.len() && new_rows[i0] == orig[j0];
                        assert(new_rows[i0].token@ == t);
                    }
                }
            }
            assert forall|t: Seq<char>|
                rows_map(new_rows).dom().contains(t) implies #[trigger] rows_map(new_rows)[t]
                == rows_map(orig)[t] by {
                lemma_rows_map_dom(new_rows, t);
                let i0 = choose|i0: int|
                    0 <= i0 < new_rows.len() && (#[trigger] new_rows[i0]).token@ == t;
                lemma_rows_map_at(new_rows, i0);
                assert(new_rows.contains(new_rows[i0]));
                orig.lemma_filter_contains_rev(pred, new_rows[i0]);
                let j0 = choose|j0: int| 0 <= j0 < orig.len() && orig[j0] == new_rows[i0];
                lemma_rows_map_at(orig, j0);
            }
        }
    }
}

proof fn lemma_filter_rows_unique(rows: Seq<SessionRow>, pred: spec_fn(SessionRow) -> bool)
    requires
        rows_unique(rows),
    ensures
        rows_unique(rows.filter(pred)),
    decreases rows.len(),
{
    reveal(Seq::filter);
    if rows.len() > 0 {
        let rest = rows.drop_last();
        let last = rows.last();
        assert forall|a: int, b: int| 0 <= a < b < rest.len() implies (#[trigger] rest[a]).token@
            != (#[trigger] rest[b]).token@ by {
            assert(rows[a].token@ != rows[b].token@);
        }
        lemma_filter_rows_unique(rest, pred);
        let fr = rest.filter(pred);
        assert forall|a: int, b: int|
            0 <= a < b < rows.filter(pred).len() implies (#[trigger] rows.filter(pred)[a]).token@
            != (#[trigger] rows.filter(pred)[b]).token@ by {
            if pred(last) && b == rows.filter(pred).len() - 1 {
                assert(rows.filter(pred) == fr.push(last));
                assert(rows.filter(pred)[a] == fr[a]);
                assert(fr.contains(fr[a]));
                rest.lemma_filter_contains_rev(pred, fr[a]);
                let j = choose|j: int| 0 <= j < rest.len() && rest[j] == fr[a];
                assert(rows[j] == rest[j]);
                assert(rows[j].token@ != rows[rows.len() - 1].token@);
            } else {
                if pred(last) {
                    assert(rows.filter(pred) == fr.push(last));
                    assert(rows.filter(pred)[a] == fr[a]);
                    assert(rows.filter(pred)[b] == fr[b]);
                } else {
                    assert(rows.filter(pred) == fr);
                }
                assert(fr[a].token@ != fr[b].token@);
            }
        }
    }
}

/// A session stored at instant `now` for `duration` seconds is visible at
/// every instant of `[now, now + duration)` and at none from
/// `now + duration` on: [`Sessions::check_session`] succeeds immediately
/// after [`Sessions::create_session`], and fails as soon as the duration
/// has passed.
pub proof fn lemma_session_lifetime(
    m: Map<Seq<char>, SessionView>,
    token: Seq<char>,
    record: SessionView,
    now: int,
    t: int,
)
    ensures
        now <= t < record.expires_at ==> session_lookup(m.insert(token, record), token, t)
            == Some(record),
        t >= record.expires_at ==> session_lookup(m.insert(token, record), token, t) is None,
{
}

/// Expiry is monotone: once a lookup of `token` yields nothing at instant
/// `t1`, it yields nothing at every later instant, the store unchanged. A
/// session never returns to life.
pub proof fn lemma_expiry_monotonic(
    m: Map<Seq<char>, SessionView>,
    token: Seq<char>,
    t1: int,
    t2: int,
)
    requires
        t1 <= t2,
        session_lookup(m, token, t1) is None,
    ensures
        session_lookup(m, token, t2) is None,
{
}

/// The sweep is invisible to lookups: if `swept` is `orig` with the sessions
/// expired at instant `s` removed, then at every instant `t >= s` every
/// lookup yields the same result in both stores.
pub proof fn lemma_sweep_preserves_lookup(
    orig: Map<Seq<char>, SessionView>,
    swept: Map<Seq<char>, SessionView>,
    s: int,
    token: Seq<char>,
    t: int,
)
    requires
        s <= t,
        forall|k: Seq<char>| #[trigger]
            swept.dom().contains(k) <==> (orig.dom().contains(k) && orig[k].expires_at > s),
        forall|k: Seq<char>| swept.dom().contains(k) ==> #[trigger] swept[k] == orig[k],
    ensures
        session_lookup(swept, token, t) == session_lookup(orig, token, t),
{
    if orig.dom().contains(token) && t < orig[token].expires_at {
        assert(orig[token].expires_at > s);
    }
}

} // verus!
