use vstd::prelude::*;
use vstd::arithmetic::div_mod::{
    lemma_add_mod_noop, lemma_add_mod_noop_right, lemma_fundamental_div_mod_converse, lemma_mod_multiples_vanish,
    lemma_small_mod,
};

verus! {

/// Round-robin choice over a fixed pool of `len` servers, by index.
pub struct RoundRobin {
    len: usize,
    next: usize,
}

impl RoundRobin {
    /// The number of servers in the pool.
    pub closed spec fn pool_len(&self) -> nat {
        self.len as nat
    }

    /// The index that the next pick returns.
    pub closed spec fn cursor(&self) -> nat {
        self.next as nat
    }

    pub closed spec fn wf(&self) -> bool {
        self.next < self.len
    }

    /// A balancer over `len` servers that starts at the first.
    pub fn new(len: usize) -> (r: RoundRobin)
        requires
            len > 0,
        ensures
            r.wf(),
            r.pool_len() == len,
            r.cursor() == 0,
    {
        RoundRobin { len, next: 0 }
    }

    /// Returns the index at the cursor and moves the cursor to the next
    /// index, wrapping after the last.
    pub fn pick_server(&mut self) -> (r: usize)
        requires
            old(self).wf(),
        ensures
            final(self).wf(),
            r == old(self).cursor(),
            final(self).pool_len() == old(self).pool_len(),
            final(self).cursor() == (old(self).cursor() + 1) % old(self).pool_len(),
    {
        let r = self.next;
        if self.next + 1 == self.len {
            self.next = 0;
            proof { lemma_fundamental_div_mod_converse(self.len as int, self.len as int, 1, 0); }
        } else {
            self.next = self.next + 1;
            proof { lemma_small_mod(self.next as nat, self.len as nat); }
        }
        r
    }
}

/// The cursor of a balancer over `m` servers after `j` picks from `start`.
pub open spec fn cursor_after(start: nat, m: nat, j: nat) -> nat
    decreases j,
{
    if j == 0 {
        start
    } else {
        (cursor_after(start, m, (j - 1) as nat) + 1) % m
    }
}

/// The indices that `n` consecutive picks return from cursor `start`.
pub open spec fn picks(start: nat, m: nat, n: nat) -> Seq<nat> {
    Seq::new(n, |j: int| cursor_after(start, m, j as nat))
}

/// How many times `x` occurs in `s`.
pub open spec fn occurrences(s: Seq<nat>, x: nat) -> nat
    decreases s.len(),
{
    if s.len() == 0 {
        0
    } else {
        occurrences(s.drop_last(), x) + if s.last() == x { 1nat } else { 0nat }
    }
}

proof fn lemma_mod_once(y: int, m: int)
    requires
        0 < m,
        0 <= y < 2 * m,
    ensures
        y % m == if y < m { y } else { y - m },
{
    if y < m {
        lemma_small_mod(y as nat, m as nat);
    } else {
        lemma_fundamental_div_mod_converse(y, m, 1, y - m);
    }
}

proof fn lemma_cursor_after(start: nat, m: nat, j: nat)
    requires
        m > 0,
        start < m,
    ensures
        cursor_after(start, m, j) == (start + j) % m,
    decreases j,
{
    if j == 0 {
        lemma_small_mod(start, m);
    } else {
        let x = start + j - 1;
        lemma_cursor_after(start, m, (j - 1) as nat);
        lemma_add_mod_noop(x, 1, m as int);
        lemma_add_mod_noop_right(x % (m as int), 1, m as int);
        lemma_add_mod_noop(x % (m as int), 1, m as int);
        lemma_mod_twice_local(x, m as int);
    }
}

proof fn lemma_mod_twice_local(x: int, m: int)
    requires
        0 < m,
        0 <= x,
    ensures
        (x % m) % m == x % m,
{
    lemma_small_mod((x % m) as nat, m as nat);
}

proof fn lemma_occurrences_concat(a: Seq<nat>, b: Seq<nat>, x: nat)
    ensures
        occurrences(a + b, x) == occurrences(a, x) + occurrences(b, x),
    decreases b.len(),
{
    if b.len() > 0 {
        assert((a + b).drop_last() =~= a + b.drop_last());
        lemma_occurrences_concat(a, b.drop_last(), x);
    } else {
        assert(a + b =~= a);
    }
}

/// One full cycle from `start` holds each index once.
proof fn lemma_cycle_once(start: nat, m: nat, k: nat, x: nat)
    requires
        m > 0,
        start < m,
        x < m,
        k <= m,
    ensures
        occurrences(Seq::new(k, |j: int| ((start + j) % (m as int)) as nat), x) == if ((x + m - start) % (m as int)) < k { 1nat } else { 0nat },
    decreases k,
{
    let d = x + m - start;
    lemma_mod_once(d, m as int);
    if k > 0 {
        let s = Seq::new(k, |j: int| ((start + j) % (m as int)) as nat);
        assert(s.drop_last() =~= Seq::new((k - 1) as nat, |j: int| ((start + j) % (m as int)) as nat));
        lemma_cycle_once(start, m, (k - 1) as nat, x);
        lemma_mod_once(start + k - 1, m as int);
    } else {
        assert(Seq::new(k, |j: int| ((start + j) % (m as int)) as nat).len() == 0);
    }
}

proof fn lemma_cycles(start: nat, m: nat, q: nat, x: nat)
    requires
        m > 0,
        start < m,
        x < m,
    ensures
        occurrences(Seq::new(q * m, |j: int| ((start + j) % (m as int)) as nat), x) == q,
    decreases q,
{
    let f = |j: int| ((start + j) % (m as int)) as nat;
    if q == 0 {
        assert(q * m == 0) by (nonlinear_arith)
            requires q == 0;
        assert(Seq::new(q * m, f).len() == 0);
    } else {
        let p = (q - 1) as nat;
        assert(q * m == p * m + m) by (nonlinear_arith)
            requires q == p + 1;
        let block = Seq::new(m, f);
        assert forall|i: int| p * m <= i < q * m implies #[trigger] Seq::new(q * m, f)[i] == block[i - p * m] by {
            lemma_mod_multiples_vanish(p as int, start + (i - p * m), m as int);
            assert(p * m == m * p) by (nonlinear_arith);
        }
        assert(Seq::new(q * m, f) =~= Seq::new(p * m, f) + block);
        lemma_occurrences_concat(Seq::new(p * m, f), block, x);
        lemma_cycles(start, m, p, x);
        lemma_cycle_once(start, m, m, x);
        lemma_mod_once(x + m - start, m as int);
    }
}

/// Over a pool of `m` servers, `n` consecutive picks, `n` a multiple of
/// `m`, return each index exactly `n / m` times, and the sequence of picks
/// repeats with period `m`.
pub proof fn lemma_round_robin_fair(start: nat, m: nat, n: nat)
    requires
        m > 0,
        start < m,
        n % m == 0,
    ensures
        forall|x: nat| x < m ==> #[trigger] occurrences(picks(start, m, n), x) == n / m,
        forall|j: int| 0 <= j && j + m < n ==> #[trigger] picks(start, m, n)[j + m] == picks(start, m, n)[j],
{
    let q = n / m;
    assert(n == q * m) by {
        vstd::arithmetic::div_mod::lemma_fundamental_div_mod(n as int, m as int);
        assert(m * q == q * m) by (nonlinear_arith);
    }
    let f = |j: int| ((start + j) % (m as int)) as nat;
    assert forall|j: int| 0 <= j < n implies #[trigger] picks(start, m, n)[j] == Seq::new(n, f)[j] by {
        lemma_cursor_after(start, m, j as nat);
    }
    assert(picks(start, m, n) =~= Seq::new(n, f));
    assert forall|x: nat| x < m implies #[trigger] occurrences(picks(start, m, n), x) == n / m by {
        lemma_cycles(start, m, q, x);
    }
    assert forall|j: int| 0 <= j && j + m < n implies #[trigger] picks(start, m, n)[j + m] == picks(start, m, n)[j] by {
        lemma_mod_multiples_vanish(1, start + j, m as int);
    }
}

} // verus!
