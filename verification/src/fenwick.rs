//! Indexed prefix-sum tree (Fenwick tree) over `i64` values.

use vstd::prelude::*;

verus! {

/// Bound kept on the number of elements and on every stored element's
/// magnitude. Any sum of at most `BOUND` elements, each of magnitude at most
/// `BOUND`, then stays strictly inside `i64`, so no operation can overflow.
pub const BOUND: i64 = 0x4000_0000;

/// Value of the least-significant set bit of `i` (zero for `i == 0`).
pub open spec fn low_bit(i: usize) -> usize {
    i & ((!i + 1) as usize)
}

/// Sum of `vals[lo..hi)`.
pub open spec fn range_sum(vals: Seq<int>, lo: int, hi: int) -> int
    decreases hi - lo,
{
    if lo >= hi {
        0
    } else {
        range_sum(vals, lo, hi - 1) + vals[hi - 1]
    }
}

/// Sum of the final slot values of the children of slot `k` (the slots `c`
/// with `c + low_bit(c) == k`) among slots `1..=j`.
pub open spec fn child_sum(vals: Seq<int>, k: int, j: int) -> int
    decreases j,
{
    if j <= 0 {
        0
    } else if j + low_bit(j as usize) == k {
        child_sum(vals, k, j - 1) + range_sum(vals, j - low_bit(j as usize), j)
    } else {
        child_sum(vals, k, j - 1)
    }
}

/// Maintains an array of `n` logical values, stored as a 1-indexed internal
/// tree of length `n + 1` whose slot `k` holds the sum of the logical range
/// `[k - low_bit(k), k)`. The logical values themselves are kept as a ghost
/// sequence of mathematical integers.
/// Why a checked update was refused.
#[derive(Clone, Copy, Debug, PartialEq, Eq)]
pub enum UpdateError {
    /// The position lies at or beyond the logical length.
    IndexOutOfRange,
    /// The updated value would leave the `BOUND` range the tree maintains.
    ValueOutOfBounds,
}

#[derive(Clone)]
pub struct FenwickTree {
    pub tree: Vec<i64>,
    pub vals: Ghost<Seq<int>>,
}

impl View for FenwickTree {
    type V = Seq<int>;

    open spec fn view(&self) -> Seq<int> {
        self.vals@
    }
}

impl FenwickTree {
    /// Structure invariant: the internal tree has one slot per logical value
    /// plus the unused slot 0, each slot holds the sum of its binary-indexed
    /// range, and every logical value stays within `BOUND`.
    pub open spec fn wf(self) -> bool {
        &&& self.tree@.len() == self@.len() + 1
        &&& self@.len() <= BOUND
        &&& self.tree@[0] == 0
        &&& forall|k: int|
            1 <= k <= self@.len() ==> (#[trigger] self.tree@[k]) == range_sum(
                self@,
                k - low_bit(k as usize),
                k,
            )
        &&& forall|i: int| 0 <= i < self@.len() ==> -BOUND <= #[trigger] self@[i] <= BOUND
    }
}

proof fn lemma_low_bit_compute(i: usize)
    by (bit_vector)
    requires
        1 <= i,
    ensures
        i & ((i - 1) as usize) <= i,
        (i - (i & ((i - 1) as usize))) as usize == low_bit(i),
{
}

proof fn lemma_low_bit_range(i: usize)
    by (bit_vector)
    requires
        1 <= i,
    ensures
        1 <= low_bit(i) <= i,
{
}

proof fn lemma_low_bit_next(i: usize)
    by (bit_vector)
    requires
        1 <= i,
        i <= 0x4000_0000,
    ensures
        low_bit((i + low_bit(i)) as usize) >= 2 * low_bit(i),
{
}

proof fn lemma_low_bit_gap(cur: usize, j: usize)
    by (bit_vector)
    requires
        1 <= cur,
        cur < j,
        j < cur + low_bit(cur),
    ensures
        j - low_bit(j) >= cur,
{
}

proof fn lemma_child_prev(c: usize, k: usize)
    by (bit_vector)
    requires
        1 <= c,
        c + low_bit(c) == k,
    ensures
        c < k,
        low_bit(c) <= c,
        ((c - low_bit(c)) == k - low_bit(k)) || (1 <= (c - low_bit(c)) && (c - low_bit(c))
            + low_bit((c - low_bit(c)) as usize) == k),
{
}

proof fn lemma_child_no_between(c: usize, c2: usize, k: usize)
    by (bit_vector)
    requires
        1 <= c,
        c + low_bit(c) == k,
        1 <= c2,
        c2 + low_bit(c2) == k,
        c2 < c,
    ensures
        c2 <= c - low_bit(c),
{
}

proof fn lemma_child_above_base(c: usize, k: usize)
    by (bit_vector)
    requires
        1 <= c,
        c + low_bit(c) == k,
    ensures
        c > k - low_bit(k),
        low_bit(k) <= k,
{
}

proof fn lemma_odd_no_child(c: usize, k: usize)
    by (bit_vector)
    requires
        1 <= c,
        c + low_bit(c) == k,
    ensures
        low_bit(k) >= 2,
{
}

proof fn lemma_last_child(k: usize)
    by (bit_vector)
    requires
        low_bit(k) >= 2,
    ensures
        1 <= k - 1,
        (k - 1) + low_bit((k - 1) as usize) == k,
{
}

/// Splitting a summed range at any interior point splits the sum.
pub proof fn lemma_range_sum_concat(vals: Seq<int>, a: int, b: int, c: int)
    requires
        a <= b <= c,
    ensures
        range_sum(vals, a, b) + range_sum(vals, b, c) == range_sum(vals, a, c),
    decreases c - b,
{
    if b < c {
        lemma_range_sum_concat(vals, a, b, c - 1);
    }
}

/// A sum over a range of bounded elements is bounded by the range's width.
pub proof fn lemma_range_sum_bound(vals: Seq<int>, lo: int, hi: int)
    requires
        0 <= lo <= hi <= vals.len(),
        forall|i: int| 0 <= i < vals.len() ==> -BOUND <= #[trigger] vals[i] <= BOUND,
    ensures
        -(hi - lo) * BOUND <= range_sum(vals, lo, hi) <= (hi - lo) * BOUND,
    decreases hi - lo,
{
    if lo < hi {
        lemma_range_sum_bound(vals, lo, hi - 1);
    }
}

/// Updating one element changes exactly the sums of the ranges covering it,
/// by exactly the difference.
pub proof fn lemma_range_sum_update(vals: Seq<int>, i: int, x: int, lo: int, hi: int)
    requires
        0 <= i < vals.len(),
        0 <= lo <= hi <= vals.len(),
    ensures
        range_sum(vals.update(i, x), lo, hi) == range_sum(vals, lo, hi) + (if lo <= i < hi {
            x - vals[i]
        } else {
            0
        }),
    decreases hi - lo,
{
    if lo < hi {
        lemma_range_sum_update(vals, i, x, lo, hi - 1);
    }
}

proof fn lemma_child_sum_const(vals: Seq<int>, k: int, lo: int, hi: int)
    requires
        lo <= hi,
        forall|c: int| lo < c <= hi ==> !(c >= 1 && c + #[trigger] low_bit(c as usize) == k),
    ensures
        child_sum(vals, k, hi) == child_sum(vals, k, lo),
    decreases hi - lo,
{
    if lo < hi {
        lemma_child_sum_const(vals, k, lo, hi - 1);
    }
}

proof fn lemma_child_sum_zero(vals: Seq<int>, k: int, j: int)
    requires
        forall|c: int| 1 <= c <= j ==> c + #[trigger] low_bit(c as usize) != k,
    ensures
        child_sum(vals, k, j) == 0,
    decreases j,
{
    if j > 0 {
        lemma_child_sum_zero(vals, k, j - 1);
    }
}

/// The children of slot `k` up to child `c` cover exactly the contiguous
/// logical range `[k - low_bit(k), c)`.
proof fn lemma_child_sum_covers(vals: Seq<int>, k: usize, c: usize)
    requires
        1 <= c,
        c + low_bit(c) == k,
    ensures
        child_sum(vals, k as int, c as int) == range_sum(vals, k - low_bit(k), c as int),
    decreases c,
{
    lemma_low_bit_range(c);
    lemma_child_prev(c, k);
    lemma_child_above_base(c, k);
    let d = (c - low_bit(c)) as usize;
    assert forall|c2: int| d < c2 <= c - 1 implies !(c2 >= 1 && c2 + #[trigger] low_bit(c2 as usize) == k) by {
        if c2 >= 1 && c2 + low_bit(c2 as usize) == k {
            lemma_child_no_between(c, c2 as usize, k);
        }
    }
    lemma_child_sum_const(vals, k as int, d as int, c - 1);
    if d == k - low_bit(k) {
        assert forall|c2: int| 1 <= c2 <= d implies c2 + #[trigger] low_bit(c2 as usize) != k by {
            if c2 + low_bit(c2 as usize) == k {
                lemma_child_above_base(c2 as usize, k);
            }
        }
        lemma_child_sum_zero(vals, k as int, d as int);
    } else {
        lemma_child_above_base(d, k);
        lemma_child_sum_covers(vals, k, d);
        lemma_range_sum_concat(vals, k - low_bit(k), d as int, c as int);
    }
}

/// Slot `k`'s own element together with all of its children's final values
/// sums to exactly the range the slot is meant to hold.
proof fn lemma_children_cover(vals: Seq<int>, k: usize)
    requires
        1 <= k,
    ensures
        vals[k - 1] + child_sum(vals, k as int, k - 1) == range_sum(vals, k - low_bit(k), k as int),
{
    lemma_low_bit_range(k);
    if low_bit(k) == 1 {
        assert forall|c: int| 1 <= c <= k - 1 implies c + #[trigger] low_bit(c as usize) != k by {
            if c + low_bit(c as usize) == k {
                lemma_odd_no_child(c as usize, k);
            }
        }
        lemma_child_sum_zero(vals, k as int, k - 1);
        assert(range_sum(vals, k - 1, k as int) == range_sum(vals, k - 1, k - 1) + vals[k - 1]);
    } else {
        lemma_last_child(k);
        lemma_child_sum_covers(vals, k, (k - 1) as usize);
        assert(range_sum(vals, k - low_bit(k), k as int) == range_sum(vals, k - low_bit(k), k - 1)
            + vals[k - 1]);
    }
}

impl FenwickTree {
    /// Builds the tree from an initial array of logical values, seeding the
    /// internal slots bottom-up with one propagation per slot.
    pub fn new(v: Vec<i64>) -> (t: FenwickTree)
        requires
            v@.len() <= BOUND,
            forall|i: int| 0 <= i < v@.len() ==> -BOUND <= #[trigger] v@[i] <= BOUND,
        ensures
            t.wf(),
            t@ == v@.map_values(|x: i64| x as int),
    {
        let ghost vals = v@.map_values(|x: i64| x as int);
        let n = v.len();
        let mut tree: Vec<i64> = Vec::new();
        tree.push(0);
        let mut j: usize = 0;
        while j < n
            invariant
                j <= n,
                n == v@.len(),
                tree@.len() == j + 1,
                tree@[0] == 0,
                forall|k: int| 1 <= k <= j ==> (#[trigger] tree@[k]) == v@[k - 1],
            decreases n - j,
        {
            let x = v[j];
            tree.push(x);
            j += 1;
        }
        let len = n + 1;
        let mut i: usize = 1;
        while i < len
            invariant
                1 <= i <= len,
                len == n + 1,
                n == v@.len(),
                n <= BOUND,
                tree@.len() == len,
                tree@[0] == 0,
                vals == v@.map_values(|x: i64| x as int),
                vals.len() == n,
                forall|idx: int| 0 <= idx < n ==> -BOUND <= #[trigger] vals[idx] <= BOUND,
                forall|k: int|
                    1 <= k < i ==> (#[trigger] tree@[k]) == range_sum(
                        vals,
                        k - low_bit(k as usize),
                        k,
                    ),
                forall|k: int|
                    i <= k <= n ==> (#[trigger] tree@[k]) == vals[k - 1] + child_sum(
                        vals,
                        k,
                        i - 1,
                    ),
            decreases len - i,
        {
            proof {
                lemma_low_bit_compute(i);
            }
            let masked = i & (i - 1);
            let lb = i - masked;
            proof {
                assert(lb == low_bit(i));
                lemma_low_bit_range(i);
                lemma_children_cover(vals, i);
                assert(tree@[i as int] == vals[i - 1] + child_sum(vals, i as int, i - 1));
            }
            let p = i + lb;
            if p < len {
                let cur = tree[i];
                let tp = tree[p];
                proof {
                    lemma_child_sum_covers(vals, p, i);
                    lemma_child_above_base(i, p);
                    lemma_low_bit_range(p);
                    lemma_range_sum_bound(vals, p - low_bit(p), i as int);
                    assert(child_sum(vals, p as int, i as int) == child_sum(
                        vals,
                        p as int,
                        i - 1,
                    ) + range_sum(vals, i - low_bit(i), i as int));
                    assert(tp + cur == vals[p - 1] + child_sum(vals, p as int, i as int));
                    assert(-BOUND * (i - (p - low_bit(p))) <= child_sum(vals, p as int, i as int)
                        <= BOUND * (i - (p - low_bit(p))));
                    assert(i64::MIN <= tp + cur <= i64::MAX);
                }
                let s2 = tp + cur;
                tree.set(p, s2);
                proof {
                    assert forall|k: int| i + 1 <= k <= n implies (#[trigger] tree@[k]) == vals[k
                        - 1] + child_sum(vals, k, i as int) by {
                        if k == p {
                        } else {
                            assert(child_sum(vals, k, i as int) == child_sum(vals, k, i - 1));
                        }
                    }
                }
            } else {
                proof {
                    assert forall|k: int| i + 1 <= k <= n implies (#[trigger] tree@[k]) == vals[k
                        - 1] + child_sum(vals, k, i as int) by {
                        assert(child_sum(vals, k, i as int) == child_sum(vals, k, i - 1));
                    }
                }
            }
            i += 1;
        }
        let t = FenwickTree { tree, vals: Ghost(vals) };
        t
    }

    /// Adds `delta` to the logical value at 0-indexed position `idx`, walking
    /// the internal slots whose ranges cover that position.
    pub fn add(&mut self, idx: usize, delta: i64)
        requires
            old(self).wf(),
            idx < old(self)@.len(),
            -BOUND <= old(self)@[idx as int] + delta <= BOUND,
        ensures
            final(self).wf(),
            final(self)@ == old(self)@.update(idx as int, old(self)@[idx as int] + delta),
    {
        let ghost vals0 = self@;
        let ghost vals1 = self@.update(idx as int, self@[idx as int] + delta);
        let ghost pre = *self;
        let ghost n = self@.len() as int;
        let ghost p = idx + 1;
        let mut pos = idx + 1;
        proof {
            lemma_low_bit_range(pos);
            assert forall|k: int| 1 <= k <= n && k < pos implies (#[trigger] self.tree@[k])
                == range_sum(vals1, k - low_bit(k as usize), k) by {
                lemma_low_bit_range(k as usize);
                lemma_range_sum_update(
                    vals0,
                    idx as int,
                    vals0[idx as int] + delta,
                    k - low_bit(k as usize),
                    k,
                );
            }
        }
        while pos < self.tree.len()
            invariant
                pre.wf(),
                self.vals == pre.vals,
                self.tree@.len() == pre.tree@.len(),
                vals0 == pre@,
                vals1 == vals0.update(idx as int, vals0[idx as int] + delta),
                n == vals0.len(),
                idx < n,
                -BOUND <= vals1[idx as int] <= BOUND,
                p == idx + 1,
                1 <= p <= pos,
                pos - low_bit(pos) < p,
                forall|k: int|
                    1 <= k <= n && k < pos ==> (#[trigger] self.tree@[k]) == range_sum(
                        vals1,
                        k - low_bit(k as usize),
                        k,
                    ),
                forall|k: int|
                    1 <= k <= n && k >= pos ==> (#[trigger] self.tree@[k]) == pre.tree@[k],
                self.tree@[0] == 0,
            decreases 2 * self.tree@.len() - pos,
        {
            assert(1 <= pos);
            proof {
                lemma_low_bit_compute(pos);
            }
            let masked = pos & (pos - 1);
            let lb = pos - masked;
            proof {
                assert(lb == low_bit(pos));
                lemma_low_bit_range(pos);
                lemma_range_sum_update(vals0, idx as int, vals0[idx as int] + delta, pos - lb, pos as int);
                assert forall|q: int| 0 <= q < vals1.len() implies -BOUND <= #[trigger] vals1[q]
                    <= BOUND by {}
                lemma_range_sum_bound(vals1, pos - lb, pos as int);
            }
            let t0 = self.tree[pos];
            let s2 = t0 + delta;
            self.tree.set(pos, s2);
            let next = pos + lb;
            proof {
                lemma_low_bit_next(pos);
                assert forall|k: int| 1 <= k <= n && pos < k < next implies (#[trigger] self.tree@[k])
                    == range_sum(vals1, k - low_bit(k as usize), k) by {
                    lemma_low_bit_gap(pos, k as usize);
                    lemma_low_bit_range(k as usize);
                    lemma_range_sum_update(
                        vals0,
                        idx as int,
                        vals0[idx as int] + delta,
                        k - low_bit(k as usize),
                        k,
                    );
                }
            }
            pos = next;
        }
        self.vals = Ghost(vals1);
        proof {
            assert(self@ =~= vals1);
        }
    }

    /// Checked update: refuses an out-of-range position with a defined error
    /// instead of faulting, and refuses a delta that would push the stored
    /// value outside the `BOUND` range; otherwise behaves exactly like
    /// `add`. The tree is untouched on an error.
    pub fn checked_update(&mut self, idx: usize, delta: i64) -> (r: Result<(), UpdateError>)
        requires
            old(self).wf(),
        ensures
            final(self).wf(),
            r == Err::<(), UpdateError>(UpdateError::IndexOutOfRange) <==> idx >= old(
                self,
            )@.len(),
            r == Err::<(), UpdateError>(UpdateError::ValueOutOfBounds) <==> (idx < old(
                self,
            )@.len() && !(-BOUND <= old(self)@[idx as int] + delta <= BOUND)),
            r is Err ==> *final(self) == *old(self),
            r is Ok ==> final(self)@ == old(self)@.update(
                idx as int,
                old(self)@[idx as int] + delta,
            ),
    {
        if idx >= self.len() {
            return Err(UpdateError::IndexOutOfRange);
        }
        // Read the stored value back out of the tree as a difference of two
        // adjacent prefix sums.
        let hi = self.sum(idx);
        let lo: i64 = if idx == 0 {
            0
        } else {
            self.sum(idx - 1)
        };
        proof {
            let n = self@.len() as int;
            lemma_range_sum_bound(self@, 0, idx + 1);
            lemma_range_sum_bound(self@, 0, idx as int);
            assert(range_sum(self@, 0, idx + 1) == range_sum(self@, 0, idx as int)
                + self@[idx as int]);
        }
        let v = hi - lo;
        proof {
            assert(v == self@[idx as int]);
        }
        if let Some(s) = v.checked_add(delta) {
            if -BOUND <= s && s <= BOUND {
                self.add(idx, delta);
                Ok(())
            } else {
                Err(UpdateError::ValueOutOfBounds)
            }
        } else {
            Err(UpdateError::ValueOutOfBounds)
        }
    }

    /// Sum of the logical values at positions `0..=idx`, accumulated from the
    /// binary decomposition of `idx + 1`.
    pub fn sum(&self, idx: usize) -> (r: i64)
        requires
            self.wf(),
            idx < self@.len(),
        ensures
            r == range_sum(self@, 0, idx + 1),
    {
        let mut pos = idx + 1;
        let mut acc: i64 = 0;
        while pos > 0
            invariant
                self.wf(),
                idx < self@.len(),
                pos <= idx + 1,
                acc == range_sum(self@, pos as int, idx + 1),
            decreases pos,
        {
            assert(1 <= pos);
            proof {
                lemma_low_bit_compute(pos);
            }
            let masked = pos & (pos - 1);
            let lb = pos - masked;
            proof {
                assert(lb == low_bit(pos));
                lemma_low_bit_range(pos);
                lemma_range_sum_concat(self@, pos - lb, pos as int, idx + 1);
                lemma_range_sum_bound(self@, pos - lb, idx + 1);
            }
            acc = acc + self.tree[pos];
            pos = pos - lb;
        }
        acc
    }

    /// Whether the logical array is empty.
    pub fn is_empty(&self) -> (r: bool)
        requires
            self.wf(),
        ensures
            r == (self@.len() == 0),
    {
        self.tree.len() <= 1
    }

    /// Number of logical elements, independent of the internal 1-indexed
    /// storage.
    pub fn len(&self) -> (r: usize)
        requires
            self.wf(),
        ensures
            r == self@.len(),
    {
        if self.tree.len() == 0 {
            0
        } else {
            self.tree.len() - 1
        }
    }
}

impl vstd::std_specs::cmp::PartialEqSpecImpl for FenwickTree {
    open spec fn obeys_eq_spec() -> bool {
        true
    }

    open spec fn eq_spec(&self, other: &FenwickTree) -> bool {
        self.tree@ == other.tree@
    }
}

impl PartialEq for FenwickTree {
    /// Trees compare equal exactly when their internal storage matches.
    fn eq(&self, other: &FenwickTree) -> (r: bool) {
        let r = self.tree == other.tree;
        proof {
            if r {
                assert(self.tree@ =~= other.tree@);
            }
        }
        r
    }
}

impl vstd::std_specs::cmp::PartialEqSpecImpl<Vec<i64>> for FenwickTree {
    open spec fn obeys_eq_spec() -> bool {
        true
    }

    open spec fn eq_spec(&self, other: &Vec<i64>) -> bool {
        &&& self.tree@.len() == other@.len() + 1
        &&& forall|i: int| 0 <= i < other@.len() ==> self.tree@[i + 1] == #[trigger] other@[i]
    }
}

impl PartialEq<Vec<i64>> for FenwickTree {
    /// A tree equals a plain vector when the internal slots after the unused
    /// slot 0 match the vector positionally.
    fn eq(&self, other: &Vec<i64>) -> (r: bool) {
        if self.tree.len() == 0 {
            return false;
        }
        if other.len() != self.tree.len() - 1 {
            return false;
        }
        let mut i: usize = 0;
        while i < other.len()
            invariant
                self.tree@.len() == other@.len() + 1,
                i <= other@.len(),
                forall|j: int| 0 <= j < i ==> self.tree@[j + 1] == #[trigger] other@[j],
            decreases other@.len() - i,
        {
            let a = self.tree[i + 1];
            let b = other[i];
            if a != b {
                return false;
            }
            i += 1;
        }
        true
    }
}

/// Equality is structural, not historical: two well-formed trees over the
/// same logical array have identical internal storage, whatever sequences of
/// construction and updates produced them.
pub proof fn lemma_eq_structural(t1: FenwickTree, t2: FenwickTree)
    requires
        t1.wf(),
        t2.wf(),
        t1@ == t2@,
    ensures
        t1.tree@ == t2.tree@,
{
    assert(t1.tree@ =~= t2.tree@);
}

proof fn lemma_tree_determines_prefix(t1: FenwickTree, t2: FenwickTree, p: int)
    requires
        t1.wf(),
        t2.wf(),
        t1.tree@ == t2.tree@,
        0 <= p <= t1@.len(),
    ensures
        range_sum(t1@, 0, p) == range_sum(t2@, 0, p),
    decreases p,
{
    if p > 0 {
        lemma_low_bit_range(p as usize);
        let lb = low_bit(p as usize) as int;
        lemma_tree_determines_prefix(t1, t2, p - lb);
        lemma_range_sum_concat(t1@, 0, p - lb, p);
        lemma_range_sum_concat(t2@, 0, p - lb, p);
        assert(t1.tree@[p] == range_sum(t1@, p - lb, p));
        assert(t2.tree@[p] == range_sum(t2@, p - lb, p));
    }
}

/// The logical array can be read back from the internal storage: well-formed
/// trees with the same storage hold the same logical values.
pub proof fn lemma_tree_determines_values(t1: FenwickTree, t2: FenwickTree)
    requires
        t1.wf(),
        t2.wf(),
        t1.tree@ == t2.tree@,
    ensures
        t1@ == t2@,
{
    assert forall|i: int| 0 <= i < t1@.len() implies t1@[i] == t2@[i] by {
        lemma_tree_determines_prefix(t1, t2, i);
        lemma_tree_determines_prefix(t1, t2, i + 1);
    }
    assert(t1@ =~= t2@);
}

/// Update locality: adding `delta` at position `i` changes every prefix sum
/// reaching `i` by exactly `delta` and leaves shorter prefixes unchanged.
pub proof fn lemma_update_locality(vals: Seq<int>, i: int, delta: int, k: int)
    requires
        0 <= i < vals.len(),
        0 <= k < vals.len(),
    ensures
        range_sum(vals.update(i, vals[i] + delta), 0, k + 1) == range_sum(vals, 0, k + 1) + (
        if k >= i {
            delta
        } else {
            0
        }),
{
    lemma_range_sum_update(vals, i, vals[i] + delta, 0, k + 1);
}



} // verus!
