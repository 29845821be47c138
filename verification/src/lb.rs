//! Round-robin selection among the healthy backends of a pool, and the idle connections kept
//! for reuse.

use vstd::prelude::*;
use std::collections::HashMap;
use vstd::arithmetic::div_mod::{
    lemma_fundamental_div_mod, lemma_fundamental_div_mod_converse, lemma_mod_equivalence,
    lemma_small_mod,
};

verus! {

broadcast use vstd::std_specs::hash::group_hash_axioms;

/// The backends that requests are spread over, whether each one is healthy, and the index
/// where the round-robin search for the next backend starts.
pub struct BackendPool<A> {
    backends: Vec<A>,
    healthy: Vec<bool>,
    next: usize,
}

/// The state of a `BackendPool`.
pub struct PoolView<A> {
    pub backends: Seq<A>,
    pub healthy: Seq<bool>,
    pub next: nat,
}

impl<A> BackendPool<A> {
    /// A pool always has a backend, a health flag for each, and a start index among them.
    #[verifier::type_invariant]
    spec fn well_formed(&self) -> bool {
        &&& self.backends@.len() > 0
        &&& self.healthy@.len() == self.backends@.len()
        &&& self.next < self.backends@.len()
    }
}

impl<A> View for BackendPool<A> {
    type V = PoolView<A>;

    closed spec fn view(&self) -> PoolView<A> {
        PoolView { backends: self.backends@, healthy: self.healthy@, next: self.next as nat }
    }
}

/// A pool has a backend, a health flag for each, and its search starts at one of them.
pub open spec fn pool_wf<A>(v: PoolView<A>) -> bool {
    &&& v.backends.len() > 0
    &&& v.healthy.len() == v.backends.len()
    &&& v.next < v.backends.len()
}

/// The index of the backend that the request with number `ticket` goes to, among `n`.
pub open spec fn round_robin_index(ticket: int, n: int) -> int {
    ticket % n
}

/// The first offset `k` (from `k` on, below the number of backends) such that the backend
/// `(next + k) % n` is healthy.
pub open spec fn first_healthy_offset(healthy: Seq<bool>, next: nat, k: nat) -> Option<nat>
    decreases healthy.len() - k,
{
    if k >= healthy.len() {
        None
    } else if healthy[round_robin_index((next + k) as int, healthy.len() as int)] {
        Some(k)
    } else {
        first_healthy_offset(healthy, next, k + 1)
    }
}

/// Round robin over the healthy backends: starting at `next`, the first healthy backend is
/// picked and the search starts after it next time; when no backend is healthy, nothing is
/// picked and nothing changes.
pub open spec fn pick_backend<A>(v: PoolView<A>) -> (PoolView<A>, Option<nat>) {
    let n = v.healthy.len() as int;
    match first_healthy_offset(v.healthy, v.next, 0) {
        None => (v, None),
        Some(k) => {
            let i = round_robin_index((v.next + k) as int, n);
            (PoolView { next: round_robin_index(i + 1, n) as nat, ..v }, Some(i as nat))
        },
    }
}

/// `v` with backend `i` marked healthy or not (no change when there is no backend `i`).
pub open spec fn set_health<A>(v: PoolView<A>, i: int, ok: bool) -> PoolView<A> {
    if 0 <= i < v.healthy.len() {
        PoolView { healthy: v.healthy.update(i, ok), ..v }
    } else {
        v
    }
}

/// One step to the next index in a cycle of `n`.
proof fn lemma_mod_step(x: int, n: int)
    requires
        n > 0,
        x >= 0,
    ensures
        (x + 1) % n == if x % n + 1 == n {
            0
        } else {
            x % n + 1
        },
{
    lemma_fundamental_div_mod(x, n);
    let q = x / n;
    let r = x % n;
    if r + 1 == n {
        assert(x + 1 == (q + 1) * n + 0) by (nonlinear_arith)
            requires
                x == n * q + r,
                r + 1 == n,
        ;
        lemma_fundamental_div_mod_converse(x + 1, n, q + 1, 0);
    } else {
        assert(x + 1 == q * n + (r + 1)) by (nonlinear_arith)
            requires
                x == n * q + r,
        ;
        lemma_fundamental_div_mod_converse(x + 1, n, q, r + 1);
    }
}

impl<A: Copy> BackendPool<A> {
    /// A pool over `backends`, all healthy, which must not be empty (the pool panics on an
    /// empty list). The first request goes to the first backend.
    pub fn new(backends: Vec<A>) -> (r: Self)
        requires
            backends@.len() > 0,
        ensures
            r@.backends == backends@,
            r@.healthy == Seq::new(backends@.len(), |i: int| true),
            r@.next == 0,
            pool_wf(r@),
    {
        let n = backends.len();
        let mut healthy: Vec<bool> = Vec::new();
        while healthy.len() < n
            invariant
                healthy@.len() <= n,
                forall|i: int| 0 <= i < healthy@.len() ==> healthy@[i],
            decreases n - healthy@.len(),
        {
            healthy.push(true);
        }
        assert(healthy@ =~= Seq::new(backends@.len(), |i: int| true));
        BackendPool { backends, healthy, next: 0 }
    }

    /// The next healthy backend in round-robin order, with its index (see `pick_backend`), or
    /// `None` when no backend is healthy.
    pub fn next_backend(&mut self) -> (r: Option<(usize, A)>)
        ensures
            final(self)@ == pick_backend(old(self)@).0,
            pool_wf(old(self)@),
            pool_wf(final(self)@),
            match r {
                Some((i, a)) => pick_backend(old(self)@).1 == Some(i as nat) && a
                    == old(self)@.backends[i as int],
                None => pick_backend(old(self)@).1 is None,
            },
    {
        proof {
            use_type_invariant(&*self);
        }
        let n = self.backends.len();
        let ghost v = self@;
        let mut k: usize = 0;
        let mut i: usize = self.next;
        assert(self.next as int % n as int == self.next as int) by {
            lemma_small_mod(self.next as nat, n as nat);
        }
        while k < n
            invariant
                n == self.backends@.len(),
                n == self.healthy@.len(),
                v == self@,
                v == old(self)@,
                pool_wf(v),
                self.next < n,
                k <= n,
                i < n,
                i as int == round_robin_index(self.next + k, n as int),
                first_healthy_offset(v.healthy, v.next, 0) == first_healthy_offset(
                    v.healthy,
                    v.next,
                    k as nat,
                ),
            decreases n - k,
        {
            if self.healthy[i] {
                let a = self.backends[i];
                let nx = if i + 1 == n {
                    0
                } else {
                    i + 1
                };
                proof {
                    lemma_mod_step(i as int, n as int);
                    lemma_small_mod(i as nat, n as nat);
                }
                self.next = nx;
                return Some((i, a));
            }
            proof {
                lemma_mod_step(self.next + k, n as int);
            }
            i = if i + 1 == n {
                0
            } else {
                i + 1
            };
            k = k + 1;
        }
        None
    }

    /// Marks backend `i` as failed: round robin skips it until it is marked healthy again.
    pub fn mark_unhealthy(&mut self, i: usize)
        ensures
            final(self)@ == set_health(old(self)@, i as int, false),
            pool_wf(final(self)@),
    {
        proof {
            use_type_invariant(&*self);
        }
        if i < self.healthy.len() {
            let mut h = self.healthy.clone();
            assert(h@ =~= self.healthy@);
            h.set(i, false);
            self.healthy = h;
        }
    }

    /// Marks backend `i` as working.
    pub fn mark_healthy(&mut self, i: usize)
        ensures
            final(self)@ == set_health(old(self)@, i as int, true),
            pool_wf(final(self)@),
    {
        proof {
            use_type_invariant(&*self);
        }
        if i < self.healthy.len() {
            let mut h = self.healthy.clone();
            assert(h@ =~= self.healthy@);
            h.set(i, true);
            self.healthy = h;
        }
    }

    /// The backends of the pool, in the order they were given.
    pub fn backends(&self) -> (r: &[A])
        ensures
            r@ == self@.backends,
            pool_wf(self@),
    {
        proof {
            use_type_invariant(self);
        }
        self.backends.as_slice()
    }
}

/// Backend `k` of `n` is picked for one of the `n` request numbers from `start` on.
pub open spec fn picked_within(start: int, n: int, k: int) -> bool {
    exists|j: int| 0 <= j < n && #[trigger] round_robin_index(start + j, n) == k
}

/// Round robin is fair: over any `n` consecutive request numbers, each of `n` backends is
/// picked exactly once.
pub proof fn lemma_round_robin_fair(start: int, n: int)
    requires
        n > 0,
        start >= 0,
    ensures
        forall|i: int, j: int|
            0 <= i < j < n ==> #[trigger] round_robin_index(start + i, n) != #[trigger] round_robin_index(
                start + j,
                n,
            ),
        forall|k: int| 0 <= k < n ==> #[trigger] picked_within(start, n, k),
{
    assert forall|i: int, j: int| 0 <= i < j < n implies #[trigger] round_robin_index(start + i, n)
        != #[trigger] round_robin_index(start + j, n) by {
        lemma_mod_equivalence(start + j, start + i, n);
        lemma_small_mod((j - i) as nat, n as nat);
    }
    assert forall|k: int| 0 <= k < n implies #[trigger] picked_within(start, n, k) by {
        lemma_fundamental_div_mod(start, n);
        let q = start / n;
        let r = start % n;
        let j = if k >= r {
            k - r
        } else {
            k + n - r
        };
        let q2 = if k >= r {
            q
        } else {
            q + 1
        };
        assert(start + j == q2 * n + k) by (nonlinear_arith)
            requires
                start == q * n + r,
                j == (if k >= r {
                    k - r
                } else {
                    k + n - r
                }),
                q2 == (if k >= r {
                    q
                } else {
                    q + 1
                }),
        ;
        lemma_fundamental_div_mod_converse(start + j, n, q2, k);
        assert(round_robin_index(start + j, n) == k);
    }
}

/// `first_healthy_offset` finds the first healthy backend in round-robin order from `next`,
/// and finds none only when no backend at all is healthy.
pub proof fn lemma_first_healthy_offset(healthy: Seq<bool>, next: nat, k: nat)
    requires
        healthy.len() > 0,
    ensures
        match first_healthy_offset(healthy, next, k) {
            Some(o) => k <= o < healthy.len() && healthy[round_robin_index(
                (next + o) as int,
                healthy.len() as int,
            )] && forall|j: nat|
                k <= j < o ==> !healthy[#[trigger] round_robin_index((next + j) as int, healthy.len() as int)],
            None => forall|j: nat|
                k <= j < healthy.len() ==> !healthy[#[trigger] round_robin_index(
                    (next + j) as int,
                    healthy.len() as int,
                )],
        },
    decreases healthy.len() - k,
{
    if k < healthy.len() && !healthy[round_robin_index((next + k) as int, healthy.len() as int)] {
        lemma_first_healthy_offset(healthy, next, k + 1);
    }
}

/// Passive health checks: the pool never hands out a backend marked unhealthy; it hands out
/// nothing exactly when every backend is unhealthy; otherwise it hands out the first healthy
/// backend in round-robin order from where the last search stopped.
pub proof fn lemma_pick_skips_unhealthy<A>(v: PoolView<A>)
    requires
        v.backends.len() > 0,
        v.healthy.len() == v.backends.len(),
        v.next < v.backends.len(),
    ensures
        pick_backend(v).1 matches Some(i) ==> i < v.backends.len() && v.healthy[i as int],
        pick_backend(v).1 is None <==> forall|j: int| 0 <= j < v.healthy.len() ==> !v.healthy[j],
        pick_backend(v).0.next < v.backends.len(),
        pick_backend(v).0.backends == v.backends && pick_backend(v).0.healthy == v.healthy,
{
    let n = v.healthy.len() as int;
    lemma_first_healthy_offset(v.healthy, v.next, 0);
    lemma_round_robin_fair(v.next as int, n);
    match first_healthy_offset(v.healthy, v.next, 0) {
        Some(k) => {
            let i = round_robin_index((v.next + k) as int, n);
            assert(0 <= round_robin_index(i + 1, n) < n);
        },
        None => {
            assert forall|j: int| 0 <= j < n implies !v.healthy[j] by {
                assert(picked_within(v.next as int, n, j));
                let o = choose|o: int| 0 <= o < n && #[trigger] round_robin_index(v.next + o, n) == j;
                assert(!v.healthy[round_robin_index((v.next + (o as nat)) as int, n)]);
            }
        },
    }
}

/// With every backend healthy, the pool hands out the backend where the search starts and
/// moves on to the next one, so `n` calls hand out each of `n` backends once, in order.
pub proof fn lemma_pick_all_healthy<A>(v: PoolView<A>)
    requires
        v.backends.len() > 0,
        v.healthy.len() == v.backends.len(),
        v.next < v.backends.len(),
        forall|j: int| 0 <= j < v.healthy.len() ==> v.healthy[j],
    ensures
        pick_backend(v).1 == Some(v.next),
        pick_backend(v).0.next == round_robin_index(v.next + 1 as int, v.backends.len() as int),
{
    lemma_small_mod(v.next, v.healthy.len());
}

/// Round robin hands out the next healthy backend: going round from where the search starts,
/// the backend handed out is healthy and every backend met before it is unhealthy; the next
/// search starts just after it. Nothing is handed out only when no backend is healthy.
pub proof fn lemma_pick_is_next_healthy<A>(v: PoolView<A>)
    requires
        pool_wf(v),
    ensures
        ({
            let n = v.backends.len() as int;
            match pick_backend(v).1 {
                Some(i) => {
                    &&& i < n
                    &&& v.healthy[i as int]
                    &&& forall|o: int|
                        0 <= o < (i - v.next + n) % n ==> !v.healthy[#[trigger] ((v.next + o)
                            % n)]
                    &&& pick_backend(v).0.next == (i as int + 1) % n
                    &&& pick_backend(v).0.healthy == v.healthy
                },
                None => forall|j: int| 0 <= j < n ==> !v.healthy[j],
            }
        }),
{
    let n = v.backends.len() as int;
    lemma_first_healthy_offset(v.healthy, v.next, 0);
    lemma_pick_skips_unhealthy(v);
    if let Some(k) = first_healthy_offset(v.healthy, v.next, 0) {
        let i = round_robin_index((v.next + k) as int, n);
        if v.next + k < n {
            lemma_small_mod((v.next + k) as nat, n as nat);
            lemma_small_mod(k as nat, n as nat);
            assert((i - v.next + n) % n == (k + n) % n);
            lemma_mod_step_back(k as int, n);
        } else {
            lemma_fundamental_div_mod_converse((v.next + k) as int, n, 1, (v.next + k - n) as int);
            lemma_small_mod(k as nat, n as nat);
        }
        assert((i - v.next + n) % n == k);
        assert forall|o: int| 0 <= o < (i - v.next + n) % n implies !v.healthy[#[trigger] ((v.next
            + o) % n)] by {
            assert(round_robin_index((v.next + (o as nat)) as int, n) == (v.next + o) % n);
        }
    }
}

/// Adding the modulus once changes no remainder.
proof fn lemma_mod_step_back(k: int, n: int)
    requires
        0 <= k < n,
    ensures
        (k + n) % n == k,
{
    lemma_fundamental_div_mod_converse(k + n, n, 1, k);
}

/// The pool after `n` calls of `next_backend`.
pub open spec fn after_picks<A>(v: PoolView<A>, n: nat) -> PoolView<A>
    decreases n,
{
    if n == 0 {
        v
    } else {
        pick_backend(after_picks(v, (n - 1) as nat)).0
    }
}

/// Picking changes no health mark and keeps the pool well formed, however often it is done.
proof fn lemma_after_picks<A>(v: PoolView<A>, n: nat)
    requires
        pool_wf(v),
    ensures
        pool_wf(after_picks(v, n)),
        after_picks(v, n).healthy == v.healthy,
        after_picks(v, n).backends == v.backends,
    decreases n,
{
    if n > 0 {
        lemma_after_picks(v, (n - 1) as nat);
        lemma_pick_skips_unhealthy(after_picks(v, (n - 1) as nat));
    }
}

/// Passive health checks: once backend `i` is marked unhealthy, however many backends are
/// picked afterwards (with no `mark_healthy(i)` in between), `i` is never handed out; the pool
/// hands out nothing exactly when every backend is unhealthy.
pub proof fn lemma_marked_unhealthy_is_skipped<A>(v: PoolView<A>, i: int, n: nat)
    requires
        pool_wf(v),
        0 <= i < v.backends.len(),
    ensures
        ({
            let w = after_picks(set_health(v, i, false), n);
            &&& pick_backend(w).1 != Some(i as nat)
            &&& pick_backend(w).1 is None <==> forall|j: int|
                0 <= j < v.healthy.len() ==> !#[trigger] set_health(v, i, false).healthy[j]
        }),
{
    let u = set_health(v, i, false);
    lemma_after_picks(u, n);
    lemma_pick_skips_unhealthy(after_picks(u, n));
}

/// The address of a backend, as plain values: the IP address as a 128-bit number (an IPv4
/// address in its low 32 bits), whether it is an IPv6 address, the port, and for IPv6 the
/// flow information and scope id. Two addresses are equal exactly when all of these are.
#[derive(Debug, Clone, Copy, PartialEq, Eq, Structural)]
pub struct BackendAddr {
    pub ip: u128,
    pub v6: bool,
    pub port: u16,
    pub flowinfo: u32,
    pub scope_id: u32,
}

/// The idle connections to each backend address, kept for reuse; the one returned last is
/// handed out first. Each address seen gets a slot number, and the idle connections are kept
/// by slot.
pub struct BackendConnPool<C> {
    addrs: Vec<BackendAddr>,
    idle: HashMap<usize, Vec<C>>,
}

/// The slot of `a` among `addrs`: the index where it stands, if it does.
pub open spec fn slot_of(addrs: Seq<BackendAddr>, a: BackendAddr) -> Option<nat> {
    if exists|k: int| 0 <= k < addrs.len() && addrs[k] == a {
        Some((choose|k: int| 0 <= k < addrs.len() && addrs[k] == a) as nat)
    } else {
        None
    }
}

/// The idle connections to `a`, given the addresses by slot and the connections by slot.
pub open spec fn conns_at<C>(
    addrs: Seq<BackendAddr>,
    idle: Map<usize, Vec<C>>,
    a: BackendAddr,
) -> Seq<C> {
    match slot_of(addrs, a) {
        Some(k) => if idle.contains_key(k as usize) {
            idle[k as usize]@
        } else {
            Seq::empty()
        },
        None => Seq::empty(),
    }
}

impl<C> BackendConnPool<C> {
    /// No address has two slots, and every slot with connections has an address.
    pub closed spec fn wf(&self) -> bool {
        &&& self.addrs@.len() <= usize::MAX
        &&& forall|i: int, j: int|
            0 <= i < j < self.addrs@.len() ==> self.addrs@[i] != self.addrs@[j]
        &&& forall|k: usize| #[trigger] self.idle@.contains_key(k) ==> k < self.addrs@.len()
    }
}

impl<C> View for BackendConnPool<C> {
    type V = Map<BackendAddr, Seq<C>>;

    /// The idle connections to every address (none for an address never seen).
    closed spec fn view(&self) -> Map<BackendAddr, Seq<C>> {
        Map::new(|a: BackendAddr| true, |a: BackendAddr| conns_at(self.addrs@, self.idle@, a))
    }
}

/// In a list without duplicates, the slot of the address at `k` is `k`.
proof fn lemma_slot_of_index(addrs: Seq<BackendAddr>, k: int)
    requires
        0 <= k < addrs.len(),
        forall|i: int, j: int| 0 <= i < j < addrs.len() ==> addrs[i] != addrs[j],
    ensures
        slot_of(addrs, addrs[k]) == Some(k as nat),
{
    let c = choose|j: int| 0 <= j < addrs.len() && addrs[j] == addrs[k];
    if c < k {
        assert(addrs[c] != addrs[k]);
    } else if c > k {
        assert(addrs[k] != addrs[c]);
    }
}

/// Setting the connections of slot `k` changes the idle connections of the address at `k`
/// and of no other address.
proof fn lemma_conns_at_insert<C>(
    addrs: Seq<BackendAddr>,
    idle: Map<usize, Vec<C>>,
    k: usize,
    v: Vec<C>,
    x: BackendAddr,
)
    requires
        k < addrs.len() <= usize::MAX,
        forall|i: int, j: int| 0 <= i < j < addrs.len() ==> addrs[i] != addrs[j],
    ensures
        conns_at(addrs, idle.insert(k, v), x) == if x == addrs[k as int] {
            v@
        } else {
            conns_at(addrs, idle, x)
        },
{
    lemma_slot_of_index(addrs, k as int);
    match slot_of(addrs, x) {
        Some(j) => {
            assert(exists|q: int| 0 <= q < addrs.len() && addrs[q] == x);
            assert(addrs[j as int] == x);
            assert(j < addrs.len());
            let ju = j as usize;
            if x == addrs[k as int] {
                assert(j == k);
                assert(idle.insert(k, v).contains_key(ju));
                assert(idle.insert(k, v)[ju] == v);
            } else {
                assert(ju != k);
                assert(idle.insert(k, v).contains_key(ju) == idle.contains_key(ju));
                if idle.contains_key(ju) {
                    assert(idle.insert(k, v)[ju] == idle[ju]);
                }
            }
        },
        None => {
            if x == addrs[k as int] {
                assert(exists|q: int| 0 <= q < addrs.len() && addrs[q] == x);
            }
        },
    }
}

impl<C> BackendConnPool<C> {
    /// A pool with no idle connection.
    pub fn new() -> (r: Self)
        ensures
            r.wf(),
            forall|a: BackendAddr| #[trigger] r@[a] == Seq::<C>::empty(),
            r@.dom() == Set::<BackendAddr>::full(),
    {
        let r = BackendConnPool { addrs: Vec::new(), idle: HashMap::new() };
        assert(r@.dom() =~= Set::<BackendAddr>::full());
        r
    }

    /// The slot of `a`, if it has one.
    fn find_slot(&self, a: BackendAddr) -> (r: Option<usize>)
        requires
            self.wf(),
        ensures
            match r {
                Some(k) => slot_of(self.addrs@, a) == Some(k as nat) && k < self.addrs@.len(),
                None => slot_of(self.addrs@, a) is None,
            },
    {
        let mut k: usize = 0;
        while k < self.addrs.len()
            invariant
                self.wf(),
                k <= self.addrs@.len(),
                forall|j: int| 0 <= j < k ==> self.addrs@[j] != a,
            decreases self.addrs@.len() - k,
        {
            if self.addrs[k] == a {
                proof {
                    lemma_slot_of_index(self.addrs@, k as int);
                }
                return Some(k);
            }
            k = k + 1;
        }
        None
    }

    /// Takes the idle connection to `a` that was returned last, if there is one.
    pub fn borrow(&mut self, a: BackendAddr) -> (r: Option<C>)
        requires
            old(self).wf(),
        ensures
            final(self).wf(),
            final(self)@.dom() == Set::<BackendAddr>::full(),
            old(self)@[a].len() == 0 ==> r is None && final(self)@ == old(self)@,
            old(self)@[a].len() > 0 ==> r == Some(old(self)@[a].last())
                && final(self)@ == old(self)@.insert(a, old(self)@[a].drop_last()),
    {
        let ghost before = self@;
        let k = match self.find_slot(a) {
            None => {
                assert(self@ =~= Map::new(|x: BackendAddr| true, |x: BackendAddr| conns_at(self.addrs@, self.idle@, x)));
                return None;
            },
            Some(k) => k,
        };
        match self.idle.remove(&k) {
            None => None,
            Some(conns) => {
                let mut conns = conns;
                let ghost cs = conns@;
                let c = conns.pop();
                self.idle.insert(k, conns);
                proof {
                    let ghost idle0 = old(self).idle@;
                    assert(self.idle@ == idle0.insert(k, conns));
                    assert forall|x: BackendAddr| #[trigger] self@[x] == (if cs.len() == 0 {
                        before
                    } else {
                        before.insert(a, cs.drop_last())
                    })[x] by {
                        lemma_conns_at_insert(self.addrs@, idle0, k, conns, x);
                        lemma_slot_of_index(self.addrs@, k as int);
                        if cs.len() > 0 {
                            assert(conns@ =~= cs.drop_last());
                        }
                    }
                    if cs.len() == 0 {
                        assert(self@ =~= before);
                    } else {
                        assert(self@ =~= before.insert(a, cs.drop_last()));
                    }
                }
                c
            },
        }
    }

    /// Keeps `conn` as an idle connection to `a`.
    pub fn return_conn(&mut self, a: BackendAddr, conn: C)
        requires
            old(self).wf(),
        ensures
            final(self).wf(),
            final(self)@ == old(self)@.insert(a, old(self)@[a].push(conn)),
    {
        let ghost before = self@;
        let k = match self.find_slot(a) {
            Some(k) => k,
            None => {
                let mut addrs = self.addrs.clone();
                assert(addrs@ =~= self.addrs@);
                addrs.push(a);
                let k = addrs.len() - 1;
                proof {
                    assert(!self.idle@.contains_key(k));
                    assert forall|i: int, j: int| 0 <= i < j < addrs@.len() implies addrs@[i]
                        != addrs@[j] by {
                        if j == k {
                            assert(addrs@[i] == self.addrs@[i]);
                            if addrs@[i] == a {
                                assert(exists|q: int| 0 <= q < self.addrs@.len() && self.addrs@[q] == a);
                            }
                        }
                    }
                }
                self.addrs = addrs;
                proof {
                    lemma_slot_of_index(self.addrs@, k as int);
                    assert forall|x: BackendAddr| #[trigger] self@[x] == before[x] by {
                        if x != a {
                            if let Some(j) = slot_of(self.addrs@, x) {
                                lemma_slot_of_index(self.addrs@, j as int);
                                assert(j != k);
                                assert(self.addrs@[j as int] == x);
                                lemma_slot_of_index(old(self).addrs@, j as int);
                            } else {
                                if let Some(j) = slot_of(old(self).addrs@, x) {
                                    assert(self.addrs@[j as int] == old(self).addrs@[j as int]);
                                }
                            }
                        }
                    }
                }
                k
            },
        };
        let ghost mid = self@;
        let ghost mid_idle = self.idle@;
        let mut conns = match self.idle.remove(&k) {
            None => Vec::new(),
            Some(v) => v,
        };
        assert(conns@ == before[a]);
        conns.push(conn);
        self.idle.insert(k, conns);
        proof {
            lemma_slot_of_index(self.addrs@, k as int);
            assert(self.idle@ == mid_idle.insert(k, conns));
            assert(self.addrs@[k as int] == a);
            assert forall|x: BackendAddr| #[trigger] self@[x] == before.insert(a, before[a].push(conn))[x] by {
                lemma_conns_at_insert(self.addrs@, mid_idle, k, conns, x);
                assert(mid[x] == conns_at(self.addrs@, mid_idle, x));
                assert(mid[x] == before[x]);
            }
            assert(self@ =~= before.insert(a, before[a].push(conn)));
        }
    }
}

/// A connection returned for `a` is the next one borrowed for `a`, and borrowing it leaves the
/// idle connections to every address as they were before it was returned.
pub proof fn lemma_return_then_borrow<C>(m: Map<BackendAddr, Seq<C>>, a: BackendAddr, conn: C)
    requires
        m.dom() == Set::<BackendAddr>::full(),
    ensures
        ({
            let m2 = m.insert(a, m[a].push(conn));
            &&& m2[a].len() > 0
            &&& m2[a].last() == conn
            &&& m2.insert(a, m2[a].drop_last()) == m
        }),
{
    let m2 = m.insert(a, m[a].push(conn));
    assert(m2[a].drop_last() =~= m[a]);
    assert(m2.insert(a, m2[a].drop_last()) =~= m);
}

} // verus!
