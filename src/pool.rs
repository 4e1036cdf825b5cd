use vstd::prelude::*;

use crate::error::DirectError;
use crate::identity::Endpoint;

verus! {

/// What a caller of `ConnectionPool::begin_get` is told to do.
#[derive(PartialEq, Eq, Structural, Clone, Copy, Debug)]
pub enum GetStep {
    /// A live connection to the endpoint is pooled: use it.
    Reuse,
    /// Another caller is establishing the connection: wait for it, then ask again.
    Wait,
    /// Establish the connection, then report with `ConnectionPool::finish_get`.
    Connect,
}

/// The abstract state of a pool. `live` holds the endpoints with a pooled
/// connection, from the least to the most recently used; `pending` those whose
/// handshake is under way.
pub ghost struct PoolState {
    pub capacity: nat,
    pub live: Seq<Endpoint>,
    pub pending: Seq<Endpoint>,
}

/// At most one connection or handshake per endpoint, and no more live
/// connections than the capacity.
pub open spec fn pool_wf(m: PoolState) -> bool {
    &&& m.live.no_duplicates()
    &&& m.pending.no_duplicates()
    &&& forall|e: Endpoint| m.live.contains(e) ==> !m.pending.contains(e)
    &&& m.live.len() <= m.capacity
}

/// The effect of a request for a connection to `e`.
pub open spec fn begin_spec(m: PoolState, e: Endpoint) -> (PoolState, GetStep) {
    if m.live.contains(e) {
        (PoolState { live: m.live.remove(m.live.index_of(e)).push(e), ..m }, GetStep::Reuse)
    } else if m.pending.contains(e) {
        (m, GetStep::Wait)
    } else {
        (PoolState { pending: m.pending.push(e), ..m }, GetStep::Connect)
    }
}

/// The effect of the outcome of the handshake with `e`: on success the
/// connection is pooled, evicting the least recently used one when the pool
/// is full; the result names the endpoint whose connection left the pool.
pub open spec fn finish_spec(m: PoolState, e: Endpoint, connected: bool) -> (
    PoolState,
    Result<Option<Endpoint>, DirectError>,
) {
    let pending = m.pending.remove(m.pending.index_of(e));
    if !connected {
        (PoolState { pending, ..m }, Err(DirectError::ConnectionError))
    } else if m.capacity == 0 {
        (PoolState { pending, ..m }, Ok(Some(e)))
    } else if m.live.len() < m.capacity {
        (PoolState { pending, live: m.live.push(e), ..m }, Ok(None))
    } else {
        (PoolState { pending, live: m.live.drop_first().push(e), ..m }, Ok(Some(m.live[0])))
    }
}

/// The bookkeeping of a pool of transport connections keyed by endpoint, all
/// opened under one client identity. The connections themselves are held by
/// the caller, keyed by the same endpoints.
pub struct ConnectionPool {
    capacity: usize,
    live: Vec<Endpoint>,
    pending: Vec<Endpoint>,
}

impl View for ConnectionPool {
    type V = PoolState;

    closed spec fn view(&self) -> PoolState {
        PoolState { capacity: self.capacity as nat, live: self.live@, pending: self.pending@ }
    }
}

fn position(v: &Vec<Endpoint>, e: Endpoint) -> (r: Option<usize>)
    ensures
        r matches Some(i) ==> i < v@.len() && v@[i as int] == e,
        r is None ==> !v@.contains(e),
{
    let mut i: usize = 0;
    while i < v.len()
        invariant
            i <= v@.len(),
            forall|j: int| 0 <= j < i ==> v@[j] != e,
        decreases v.len() - i,
    {
        if v[i] == e {
            return Some(i);
        }
        i = i + 1;
    }
    None
}

proof fn lemma_index_of_unique(s: Seq<Endpoint>, i: int)
    requires
        s.no_duplicates(),
        0 <= i < s.len(),
    ensures
        s.index_of(s[i]) == i,
{
    assert(s[i] == s[i]);
    assert(s.contains(s[i]));
}

proof fn lemma_remove_keeps_unique(s: Seq<Endpoint>, i: int)
    requires
        s.no_duplicates(),
        0 <= i < s.len(),
    ensures
        s.remove(i).no_duplicates(),
        !s.remove(i).contains(s[i]),
        forall|x: Endpoint| #[trigger] s.remove(i).contains(x) <==> (s.contains(x) && x != s[i]),
{
    let r = s.remove(i);
    assert forall|a: int| 0 <= a < r.len() implies #[trigger] r[a] == (if a < i {
        s[a]
    } else {
        s[a + 1]
    }) by {}
    assert forall|x: Endpoint| s.contains(x) && x != s[i] implies #[trigger] r.contains(x) by {
        let j = choose|j: int| 0 <= j < s.len() && s[j] == x;
        if j < i {
            assert(r[j] == x);
        } else {
            assert(r[j - 1] == x);
        }
    }
}

/// Requests and outcomes keep the pool's invariant.
pub proof fn lemma_steps_keep_wf(m: PoolState, e: Endpoint, connected: bool)
    ensures
        pool_wf(m) ==> pool_wf(begin_spec(m, e).0),
        pool_wf(m) && m.pending.contains(e) ==> pool_wf(finish_spec(m, e, connected).0),
{
    if pool_wf(m) {
        if m.live.contains(e) {
            let i = m.live.index_of(e);
            lemma_remove_keeps_unique(m.live, i);
            let l = m.live.remove(i).push(e);
            assert(forall|x: Endpoint| #[trigger] l.contains(x) <==> m.live.contains(x)) by {
                assert forall|x: Endpoint| l.contains(x) implies m.live.contains(x) by {
                    let j = choose|j: int| 0 <= j < l.len() && l[j] == x;
                    if j < l.len() - 1 {
                        assert(m.live.remove(i).contains(x));
                    }
                }
                assert forall|x: Endpoint| m.live.contains(x) implies l.contains(x) by {
                    if x != e {
                        assert(m.live.remove(i).contains(x));
                        let j = choose|j: int| 0 <= j < m.live.remove(i).len() && m.live.remove(i)[j] == x;
                        assert(l[j] == x);
                    } else {
                        assert(l[l.len() - 1] == x);
                    }
                }
            }
            assert(l.no_duplicates()) by {
                assert forall|a: int, b: int| 0 <= a < l.len() && 0 <= b < l.len() && a != b implies l[a]
                    != l[b] by {
                    if a == l.len() - 1 {
                        assert(m.live.remove(i).contains(l[b]));
                    } else if b == l.len() - 1 {
                        assert(m.live.remove(i).contains(l[a]));
                    }
                }
            }
        } else if !m.pending.contains(e) {
            let p = m.pending.push(e);
            assert forall|a: int, b: int| 0 <= a < p.len() && 0 <= b < p.len() && a != b implies p[a]
                != p[b] by {
                if a == p.len() - 1 {
                    assert(m.pending.contains(p[b]));
                } else if b == p.len() - 1 {
                    assert(m.pending.contains(p[a]));
                }
            }
            assert forall|x: Endpoint| p.contains(x) implies !m.live.contains(x) by {
                let j = choose|j: int| 0 <= j < p.len() && p[j] == x;
                if j < m.pending.len() {
                    assert(m.pending.contains(x));
                }
            }
        }
        if m.pending.contains(e) {
            let i = m.pending.index_of(e);
            lemma_remove_keeps_unique(m.pending, i);
            let p = m.pending.remove(i);
            let n = finish_spec(m, e, connected).0;
            assert(n.pending == p);
            assert(!m.live.contains(e));
            if connected && m.capacity > 0 {
                let base = if m.live.len() < m.capacity {
                    m.live
                } else {
                    m.live.drop_first()
                };
                assert(base.no_duplicates()) by {
                    assert forall|a: int, b: int|
                        0 <= a < base.len() && 0 <= b < base.len() && a != b implies base[a]
                        != base[b] by {
                        if m.live.len() >= m.capacity {
                            assert(base[a] == m.live[a + 1] && base[b] == m.live[b + 1]);
                        }
                    }
                }
                assert forall|x: Endpoint| base.contains(x) implies m.live.contains(x) by {
                    let j = choose|j: int| 0 <= j < base.len() && base[j] == x;
                    if m.live.len() >= m.capacity {
                        assert(m.live[j + 1] == x);
                    }
                }
                let l = base.push(e);
                assert(n.live == l);
                assert forall|a: int, b: int| 0 <= a < l.len() && 0 <= b < l.len() && a != b implies l[a]
                    != l[b] by {
                    if a == l.len() - 1 {
                        assert(base.contains(l[b]));
                    } else if b == l.len() - 1 {
                        assert(base.contains(l[a]));
                    }
                }
                assert forall|x: Endpoint| l.contains(x) implies !p.contains(x) by {
                    let j = choose|j: int| 0 <= j < l.len() && l[j] == x;
                    if j < base.len() {
                        assert(base.contains(x));
                    }
                }
            }
        }
    }
}

/// The state after `n` requests for `e` with no outcome in between, and how
/// many of them were told to connect.
pub open spec fn begin_repeated(m: PoolState, e: Endpoint, n: nat) -> (PoolState, nat)
    decreases n,
{
    if n == 0 {
        (m, 0)
    } else {
        let (m1, count) = begin_repeated(m, e, (n - 1) as nat);
        let (m2, step) = begin_spec(m1, e);
        (m2, count + if step == GetStep::Connect {
            1nat
        } else {
            0nat
        })
    }
}

/// However many callers ask for the same endpoint before a handshake
/// completes, at most one of them is told to connect.
pub proof fn lemma_one_handshake_per_endpoint(m: PoolState, e: Endpoint, n: nat)
    requires
        pool_wf(m),
    ensures
        begin_repeated(m, e, n).1 <= 1,
        pool_wf(begin_repeated(m, e, n).0),
        n > 0 ==> begin_repeated(m, e, n).0.live.contains(e) || begin_repeated(
            m,
            e,
            n,
        ).0.pending.contains(e),
    decreases n,
{
    if n > 0 {
        let m1 = begin_repeated(m, e, (n - 1) as nat).0;
        lemma_one_handshake_per_endpoint(m, e, (n - 1) as nat);
        lemma_steps_keep_wf(m1, e, true);
        let m2 = begin_spec(m1, e).0;
        if m1.live.contains(e) {
            assert(m2.live[m2.live.len() - 1] == e);
        } else if !m1.pending.contains(e) {
            assert(m2.pending[m2.pending.len() - 1] == e);
        }
    }
}

/// Once the handshake with `e` succeeds, a caller that waited for it is
/// handed the pooled connection (in a pool that retains any).
pub proof fn lemma_waiters_reuse(m: PoolState, e: Endpoint)
    requires
        pool_wf(m),
        m.pending.contains(e),
        m.capacity > 0,
    ensures
        begin_spec(finish_spec(m, e, true).0, e).1 == GetStep::Reuse,
{
    let l = finish_spec(m, e, true).0.live;
    assert(l[l.len() - 1] == e);
}

/// When a successful handshake finds the pool full, the connection that
/// leaves is the least recently used one, and a later request for its
/// endpoint is told to connect afresh.
pub proof fn lemma_lru_eviction(m: PoolState, e: Endpoint)
    requires
        pool_wf(m),
        m.pending.contains(e),
        m.capacity > 0,
        m.live.len() == m.capacity,
    ensures
        finish_spec(m, e, true).1 == Ok::<Option<Endpoint>, DirectError>(Some(m.live[0])),
        finish_spec(m, e, true).0.live == m.live.drop_first().push(e),
        !finish_spec(m, e, true).0.live.contains(m.live[0]),
        begin_spec(finish_spec(m, e, true).0, m.live[0]).1 == GetStep::Connect,
{
    let n = finish_spec(m, e, true).0;
    let x = m.live[0];
    assert(!m.pending.contains(x));
    assert(x != e);
    lemma_remove_keeps_unique(m.pending, m.pending.index_of(e));
    assert(!n.pending.contains(x));
    assert forall|j: int| 0 <= j < n.live.len() implies n.live[j] != x by {
        if j < n.live.len() - 1 {
            assert(n.live[j] == m.live[j + 1]);
        }
    }
}

/// A failed handshake leaves the pooled connections as they were.
pub proof fn lemma_failed_handshake_leaves_pool(m: PoolState, e: Endpoint)
    requires
        pool_wf(m),
        m.pending.contains(e),
    ensures
        finish_spec(m, e, false).0.live == m.live,
        finish_spec(m, e, false).1 == Err::<Option<Endpoint>, DirectError>(DirectError::ConnectionError),
        !finish_spec(m, e, false).0.pending.contains(e),
{
    lemma_remove_keeps_unique(m.pending, m.pending.index_of(e));
}

impl ConnectionPool {
    /// A pool that retains at most `capacity` live connections.
    pub fn new(capacity: usize) -> (p: ConnectionPool)
        ensures
            p@ == (PoolState { capacity: capacity as nat, live: seq![], pending: seq![] }),
            pool_wf(p@),
    {
        ConnectionPool { capacity, live: Vec::new(), pending: Vec::new() }
    }

    /// Asks for a connection to `e`: reuse the pooled one (which becomes the
    /// most recently used), wait for a handshake under way, or connect.
    pub fn begin_get(&mut self, e: Endpoint) -> (r: GetStep)
        requires
            pool_wf(old(self)@),
        ensures
            (final(self)@, r) == begin_spec(old(self)@, e),
            pool_wf(final(self)@),
    {
        proof {
            lemma_steps_keep_wf(self@, e, true);
        }
        match position(&self.live, e) {
            Some(i) => {
                proof {
                    lemma_index_of_unique(self.live@, i as int);
                }
                let x = self.live.remove(i);
                self.live.push(x);
                GetStep::Reuse
            },
            None => match position(&self.pending, e) {
                Some(_) => GetStep::Wait,
                None => {
                    self.pending.push(e);
                    GetStep::Connect
                },
            },
        }
    }

    /// Reports the outcome of the handshake with `e` that `begin_get` asked
    /// for. On failure the pooled connections are left as they were and
    /// `ConnectionError` is returned; on success the connection is pooled and
    /// the endpoint whose connection left the pool, if any, is returned.
    pub fn finish_get(&mut self, e: Endpoint, connected: bool) -> (r: Result<
        Option<Endpoint>,
        DirectError,
    >)
        requires
            pool_wf(old(self)@),
            old(self)@.pending.contains(e),
        ensures
            (final(self)@, r) == finish_spec(old(self)@, e, connected),
            pool_wf(final(self)@),
    {
        proof {
            lemma_steps_keep_wf(self@, e, connected);
        }
        match position(&self.pending, e) {
            Some(i) => {
                proof {
                    lemma_index_of_unique(self.pending@, i as int);
                }
                self.pending.remove(i);
            },
            None => {},
        }
        if !connected {
            Err(DirectError::ConnectionError)
        } else if self.capacity == 0 {
            Ok(Some(e))
        } else if self.live.len() < self.capacity {
            self.live.push(e);
            Ok(None)
        } else {
            let evicted = self.live.remove(0);
            self.live.push(e);
            Ok(Some(evicted))
        }
    }

    /// Number of pooled connections.
    pub fn live_count(&self) -> (r: usize)
        ensures
            r == self@.live.len(),
    {
        self.live.len()
    }

    /// Largest number of connections the pool retains.
    pub fn capacity(&self) -> (r: usize)
        ensures
            r == self@.capacity,
    {
        self.capacity
    }

    /// Whether a connection to `e` is pooled.
    pub fn is_live(&self, e: Endpoint) -> (r: bool)
        ensures
            r == self@.live.contains(e),
    {
        position(&self.live, e).is_some()
    }
}

} // verus!
