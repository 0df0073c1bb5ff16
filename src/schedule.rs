//! The eviction schedule behind the bounded checkpoint store.
//!
//! Two counters, `ruler` and `level`, replay the ruler sequence (the number of
//! trailing zeros of 1, 2, 3, ...).  After each insertion into a batch the
//! schedule either lets the batch grow by one, or names one position of the
//! batch whose item is to be dropped.  The batch then holds exactly
//! `level + 2` items, which is `ceil(log2(n)) + 1` after `n >= 1` insertions.
use vstd::prelude::*;

verus! {

/// `2` raised to `e`.
pub open spec fn pow2(e: nat) -> nat
    decreases e,
{
    if e == 0 {
        1
    } else {
        2 * pow2((e - 1) as nat)
    }
}

/// The number of trailing zero bits of a positive number.
pub open spec fn ctz(r: nat) -> nat
    decreases r,
{
    if r == 0 || r % 2 == 1 {
        0
    } else {
        1 + ctz(r / 2)
    }
}

/// The least `k` with `n <= 2^k`.
pub open spec fn ceil_log2(n: nat) -> nat
    decreases n,
{
    if n <= 1 {
        0
    } else {
        1 + ceil_log2(((n + 1) / 2) as nat)
    }
}

/// The counters `(ruler, level)` of the schedule after `n` insertions.
pub open spec fn counters(n: nat) -> (int, int)
    decreases n,
{
    if n == 0 {
        (1, -2)
    } else {
        let (r, l) = counters((n - 1) as nat);
        if l - ctz(r as nat) <= 0 {
            (1, l + 1)
        } else {
            (r + 1, l)
        }
    }
}

/// The batch-relative position evicted by the insertion that follows `n`
/// insertions; none is evicted when it is not positive.
pub open spec fn eviction_at(n: nat) -> int {
    counters(n).1 - ctz(counters(n).0 as nat)
}

/// The insertion numbers (from 0) of the items a batch keeps after `n`
/// insertions, in order.
pub open spec fn kept(n: nat) -> Seq<nat>
    decreases n,
{
    if n == 0 {
        Seq::empty()
    } else {
        let grown = kept((n - 1) as nat).push((n - 1) as nat);
        let c = eviction_at((n - 1) as nat);
        if c <= 0 {
            grown
        } else {
            grown.remove(c)
        }
    }
}

/// After `n` insertions a batch keeps `level + 2` items, and an eviction
/// position is never past `level`.
pub proof fn lemma_kept_len(n: nat)
    ensures
        counters(n).1 >= -2,
        kept(n).len() == counters(n).1 + 2,
        eviction_at(n) <= counters(n).1,
    decreases n,
{
    if n > 0 {
        lemma_kept_len((n - 1) as nat);
    }
}

/// Every insertion number that a batch keeps after `n` insertions is below
/// `n`.
pub proof fn lemma_kept_below(n: nat)
    ensures
        forall|k: int| 0 <= k < kept(n).len() ==> #[trigger] kept(n)[k] < n,
    decreases n,
{
    if n > 0 {
        let m = (n - 1) as nat;
        lemma_kept_below(m);
        lemma_kept_len(m);
        let grown = kept(m).push(m);
        assert forall|k: int| 0 <= k < grown.len() implies #[trigger] grown[k] < n by {
            if k < kept(m).len() {
                assert(grown[k] == kept(m)[k]);
            }
        }
        let c = eviction_at(m);
        if c > 0 && c < grown.len() {
            assert forall|k: int| 0 <= k < grown.remove(c).len() implies #[trigger] grown.remove(
                c,
            )[k] < n by {
                if k < c {
                    assert(grown.remove(c)[k] == grown[k]);
                } else {
                    assert(grown.remove(c)[k] == grown[k + 1]);
                }
            }
        }
    }
}

/// The insertion numbers that a batch keeps are strictly increasing.
pub proof fn lemma_kept_ascending(n: nat)
    ensures
        forall|a: int, b: int| 0 <= a < b < kept(n).len() ==> #[trigger] kept(n)[a] < #[trigger] kept(n)[b],
    decreases n,
{
    if n > 0 {
        let m = (n - 1) as nat;
        lemma_kept_ascending(m);
        lemma_kept_below(m);
        lemma_kept_len(m);
        let grown = kept(m).push(m);
        assert forall|a: int, b: int| 0 <= a < b < grown.len() implies #[trigger] grown[a] < #[trigger] grown[b] by {
            assert(grown[a] == kept(m)[a]);
            if b < kept(m).len() {
                assert(grown[b] == kept(m)[b]);
            }
        }
        let c = eviction_at(m);
        if c > 0 {
            let r = grown.remove(c);
            assert forall|a: int, b: int| 0 <= a < b < r.len() implies #[trigger] r[a] < #[trigger] r[b] by {
                let a2 = if a < c { a } else { a + 1 };
                let b2 = if b < c { b } else { b + 1 };
                assert(r[a] == grown[a2]);
                assert(r[b] == grown[b2]);
            }
        }
    }
}

/// When an insertion evicts, it evicts neither the first item of the batch
/// nor the item just inserted, and every item kept after the evicted one was
/// inserted later than it: eviction drops an item closer to the newest one
/// than the items before it, which are kept.
pub proof fn lemma_eviction_order(n: nat)
    requires
        eviction_at(n) > 0,
    ensures
        0 < eviction_at(n) < kept(n).len(),
        kept(n + 1) == kept(n).push(n).remove(eviction_at(n)),
        forall|k: int|
            eviction_at(n) <= k < kept(n + 1).len() ==> kept(n).push(n)[eviction_at(n)]
                < #[trigger] kept(n + 1)[k],
{
    lemma_kept_len(n);
    lemma_kept_ascending(n + 1);
    lemma_kept_ascending(n);
    lemma_kept_below(n);
    let grown = kept(n).push(n);
    let c = eviction_at(n);
    assert(kept((n + 1) as nat) == grown.remove(c));
    assert forall|k: int| c <= k < kept(n + 1).len() implies grown[c] < #[trigger] kept(n + 1)[k] by {
        assert(kept(n + 1)[k] == grown[k + 1]);
        if k + 1 < kept(n).len() {
            assert(grown[k + 1] == kept(n)[k + 1]);
            assert(grown[c] == kept(n)[c]);
        } else {
            assert(grown[c] == kept(n)[c]);
        }
    }
}

/// The counters after `n >= 2` insertions: `n == 2^level + ruler`, with
/// `1 <= ruler <= 2^level`.
proof fn lemma_counters_closed_form(n: nat)
    requires
        n >= 2,
    ensures
        counters(n).1 >= 0,
        1 <= counters(n).0 <= pow2(counters(n).1 as nat),
        n == pow2(counters(n).1 as nat) + counters(n).0,
    decreases n,
{
    let m = (n - 1) as nat;
    if n == 2 {
        assert(counters(0) == (1int, -2int));
        assert(ctz(1) == 0);
        assert(counters(1) == (1int, -1int));
        assert(counters(2) == (1int, 0int));
    } else {
        lemma_counters_closed_form(m);
        let (r, l) = counters(m);
        lemma_ctz_below_pow2(r as nat, l as nat);
        lemma_pow2_positive(l as nat);
        assert(pow2((l + 1) as nat) == 2 * pow2(l as nat));
    }
}

/// A batch of `n >= 1` insertions keeps exactly `ceil(log2(n)) + 1` items,
/// among them the first and the one inserted last.
pub proof fn lemma_kept_count(n: nat)
    ensures
        kept(n).len() == retained_count(n),
        n > 0 ==> kept(n)[0] == 0 && kept(n).last() == n - 1,
    decreases n,
{
    lemma_kept_len(n);
    if n >= 2 {
        lemma_counters_closed_form(n);
        let l = counters(n).1 as nat;
        assert(pow2(l + 1) == 2 * pow2(l));
        lemma_ceil_log2_between(n, l);
    } else if n == 1 {
        assert(counters(1) == (1int, -1int));
    }
    if n > 0 {
        let m = (n - 1) as nat;
        lemma_kept_count(m);
        lemma_kept_len(m);
        let grown = kept(m).push(m);
        let c = eviction_at(m);
        if c > 0 {
            assert(kept(n) == grown.remove(c));
            assert(kept(n)[0] == grown[0]);
            assert(kept(n).last() == grown.last());
        } else if m > 0 {
            assert(kept(n)[0] == grown[0]);
        }
    }
}

/// How many items a batch keeps after `n` insertions.
pub open spec fn retained_count(n: nat) -> nat {
    if n == 0 {
        0
    } else {
        ceil_log2(n) + 1
    }
}

proof fn lemma_pow2_positive(e: nat)
    ensures
        pow2(e) >= 1,
    decreases e,
{
    if e > 0 {
        lemma_pow2_positive((e - 1) as nat);
    }
}

/// Below `2^l`, a number has at least `l` trailing zeros only if it is `2^l`.
proof fn lemma_ctz_below_pow2(r: nat, l: nat)
    requires
        1 <= r <= pow2(l),
    ensures
        ctz(r) <= l,
        ctz(r) >= l <==> r == pow2(l),
    decreases l,
{
    if l == 0 {
        assert(ctz(1) == 0);
    } else {
        lemma_pow2_positive((l - 1) as nat);
        if r % 2 == 1 {
            assert(ctz(r) == 0);
        } else {
            lemma_ctz_below_pow2(r / 2, (l - 1) as nat);
        }
    }
}

proof fn lemma_ceil_log2_between(n: nat, l: nat)
    requires
        pow2(l) < n <= pow2(l + 1),
    ensures
        ceil_log2(n) == l + 1,
    decreases l,
{
    lemma_pow2_positive(l);
    if l == 0 {
        assert(n == 2);
        assert(ceil_log2(1) == 0);
    } else {
        lemma_pow2_positive((l - 1) as nat);
        assert(pow2(l) == 2 * pow2((l - 1) as nat));
        assert(pow2(l + 1) == 2 * pow2(l));
        let h = ((n + 1) / 2) as nat;
        assert(pow2((l - 1) as nat) < h <= pow2(l));
        lemma_ceil_log2_between(h, (l - 1) as nat);
    }
}

/// Counts the trailing zero bits of a positive number.
fn trailing_zero_count(r: u64) -> (c: u64)
    requires
        r >= 1,
    ensures
        c == ctz(r as nat),
        c < 64,
{
    let mut q: u64 = r;
    let mut c: u64 = 0;
    assert(pow2(0) == 1);
    while q % 2 == 0
        invariant
            q >= 1,
            c + ctz(q as nat) == ctz(r as nat),
            pow2(c as nat) * q == r,
        decreases q,
    {
        assert(pow2((c + 1) as nat) * (q / 2) == pow2(c as nat) * q) by (nonlinear_arith)
            requires
                pow2((c + 1) as nat) == 2 * pow2(c as nat),
                q % 2 == 0,
        ;
        proof {
            lemma_pow2_u64_bound((c + 1) as nat, (q / 2) as nat, r as nat);
        }
        q = q / 2;
        c = c + 1;
    }
    proof {
        lemma_pow2_u64_bound(c as nat, q as nat, r as nat);
    }
    c
}

proof fn lemma_pow2_u64_bound(c: nat, q: nat, r: nat)
    requires
        q >= 1,
        pow2(c) * q == r,
        r <= u64::MAX,
    ensures
        c < 64,
{
    lemma_pow2_positive(c);
    assert(pow2(c) <= r) by (nonlinear_arith)
        requires
            q >= 1,
            pow2(c) * q == r,
            pow2(c) >= 1,
    ;
    lemma_pow2_below_u64(c, r);
}

proof fn lemma_pow2_below_u64(c: nat, r: nat)
    requires
        pow2(c) <= r <= u64::MAX,
    ensures
        c < 64,
{
    if c >= 64 {
        lemma_pow2_monotone(64, c);
        lemma_pow2_64();
    }
}

proof fn lemma_pow2_add(a: nat, b: nat)
    ensures
        pow2(a + b) == pow2(a) * pow2(b),
    decreases b,
{
    if b > 0 {
        let b1 = (b - 1) as nat;
        lemma_pow2_add(a, b1);
        assert(pow2(b) == 2 * pow2(b1));
        assert(pow2(a + b) == 2 * pow2(a + b1));
        assert(pow2(a) * (2 * pow2(b1)) == 2 * (pow2(a) * pow2(b1))) by (nonlinear_arith);
    } else {
        assert(pow2(0) == 1);
        assert(a + b == a);
    }
}

proof fn lemma_pow2_64()
    ensures
        pow2(64) == 0x1_0000_0000_0000_0000,
{
    reveal_with_fuel(pow2, 17);
    assert(pow2(16) == 65536);
    lemma_pow2_add(16, 16);
    assert(pow2(32) == 65536 * 65536);
    assert(pow2(32) == 0x1_0000_0000);
    lemma_pow2_add(32, 32);
    assert(pow2(64) == 0x1_0000_0000 * 0x1_0000_0000);
}

proof fn lemma_pow2_monotone(a: nat, b: nat)
    requires
        a <= b,
    ensures
        pow2(a) <= pow2(b),
    decreases b,
{
    if a < b {
        lemma_pow2_monotone(a, (b - 1) as nat);
    }
}

/// The state of the eviction schedule of one batch.
pub struct EvictionSchedule {
    ruler: u64,
    level: i64,
}

impl EvictionSchedule {
    pub closed spec fn level_spec(&self) -> int {
        self.level as int
    }

    /// The schedule is in the state it reaches after `n` insertions.
    pub closed spec fn after(&self, n: nat) -> bool {
        &&& self.ruler == counters(n).0
        &&& self.level == counters(n).1
        &&& self.bounded(n)
    }

    spec fn bounded(&self, n: nat) -> bool {
        if n == 0 {
            self.ruler == 1 && self.level == -2
        } else if n == 1 {
            self.ruler == 1 && self.level == -1
        } else {
            &&& 0 <= self.level < 64
            &&& 1 <= self.ruler <= pow2(self.level as nat)
            &&& n == pow2(self.level as nat) + self.ruler
        }
    }

    /// After `n` insertions a batch keeps `level + 2` items, which is
    /// `ceil(log2(n)) + 1` for `n >= 1`.
    pub proof fn lemma_retained(&self, n: nat)
        requires
            self.after(n),
        ensures
            self.level_spec() + 2 == retained_count(n),
    {
        if n >= 2 {
            let l = self.level as nat;
            assert(pow2(l + 1) == 2 * pow2(l));
            lemma_ceil_log2_between(n, l);
        }
    }

    pub fn new() -> (s: Self)
        ensures
            s.after(0),
            s.level_spec() == -2,
    {
        EvictionSchedule { ruler: 1, level: -2 }
    }

    /// Accounts for one more insertion into the batch.  Returns the
    /// batch-relative position of the item to evict, if any.  The batch held
    /// `level + 2` items before the insertion; the position returned is never
    /// the first one nor one of the two newest.
    pub fn step(&mut self, Ghost(n): Ghost<nat>) -> (evict: Option<usize>)
        requires
            old(self).after(n),
            n + 1 <= u64::MAX,
        ensures
            final(self).after(n + 1),
            match evict {
                None => {
                    &&& final(self).level_spec() == old(self).level_spec() + 1
                    &&& eviction_at(n) <= 0
                },
                Some(p) => {
                    &&& final(self).level_spec() == old(self).level_spec()
                    &&& 1 <= p <= old(self).level_spec()
                    &&& p == eviction_at(n)
                },
            },
    {
        let tz = trailing_zero_count(self.ruler);
        proof {
            if n >= 2 {
                lemma_ctz_below_pow2(self.ruler as nat, self.level as nat);
                lemma_pow2_positive(self.level as nat);
            }
        }
        let candidate: i64 = self.level - tz as i64;
        if candidate <= 0 {
            proof {
                if n >= 2 {
                    assert(pow2((self.level + 1) as nat) == 2 * pow2(self.level as nat));
                    assert(self.ruler == pow2(self.level as nat));
                    lemma_pow2_below_u64((self.level + 1) as nat, n + 1);
                }
            }
            self.ruler = 1;
            self.level = self.level + 1;
            None
        } else {
            self.ruler = self.ruler + 1;
            Some(candidate as usize)
        }
    }
}

} // verus!
