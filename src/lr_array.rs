//! A fixed-size bit vector with logarithmic rank and select on its unset bits.
//!
//! Next to the bits it keeps a complete binary tree of set-bit counts, stored
//! flat in heap order: the children of node `t` are `2t+1` and `2t+2`, and a
//! node covering `[lo, hi)` with `hi - lo > 2` splits at `lo + (hi - lo) / 2`.
use vstd::prelude::*;
use bitvec::vec::BitVec;

verus! {

/// The bit storage of an [`LRArray`]: a `bitvec` bit vector, which Verus
/// sees only through [`bits_of`].
#[verifier::external_body]
pub struct BitStorage {
    inner: BitVec,
}

/// The largest number of bits a bit vector can hold on every target.
pub const MAX_BITS: usize = usize::MAX / 8;

/// The bits held by a bit vector, in index order.
pub uninterp spec fn bits_of(v: BitStorage) -> Seq<bool>;

/// Relies on bitvec's `BitVec::repeat`: a vector of `len` bits, all cleared.
#[verifier::external_body]
fn cleared_bits(len: usize) -> (r: BitStorage)
    requires
        len <= MAX_BITS,
    ensures
        bits_of(r) == Seq::new(len as nat, |i: int| false),
{
    BitStorage { inner: BitVec::repeat(false, len) }
}

/// Relies on bitvec's indexing of a bit slice: the bit at `n`.
#[verifier::external_body]
fn bit_at(v: &BitStorage, n: usize) -> (r: bool)
    requires
        n < bits_of(*v).len(),
    ensures
        r == bits_of(*v)[n as int],
{
    v.inner[n]
}

/// Relies on bitvec's `BitSlice::set`: writes the bit at `n` and no other.
#[verifier::external_body]
fn raise_bit(v: &mut BitStorage, n: usize)
    requires
        n < bits_of(*old(v)).len(),
    ensures
        bits_of(*final(v)) == bits_of(*old(v)).update(n as int, true),
{
    v.inner.set(n, true)
}

/// Number of set bits of `b` in `[lo, hi)`.
pub open spec fn set_in(b: Seq<bool>, lo: int, hi: int) -> int
    decreases hi - lo,
{
    if hi <= lo {
        0
    } else {
        set_in(b, lo, hi - 1) + if b[hi - 1] { 1int } else { 0int }
    }
}

/// Number of unset bits of `b` strictly before index `n`; all of them when `n`
/// is past the end.
pub open spec fn unset_before_spec(b: Seq<bool>, n: int) -> int {
    let m = if n < b.len() { n } else { b.len() as int };
    m - set_in(b, 0, m)
}

/// The index of the unset bit of `b` that has exactly `k` unset bits before it.
pub open spec fn kth_unset(b: Seq<bool>, k: int) -> int {
    choose|i: int| 0 <= i < b.len() && !b[i] && i - set_in(b, 0, i) == k
}

/// Node `x` is `t` or lies beneath it in the heap layout.
pub open spec fn below(x: int, t: int) -> bool
    decreases x,
{
    if x <= t || x <= 0 {
        x == t
    } else {
        below((x - 1) / 2, t)
    }
}

/// `f1` differs from `f0` at most at the nodes strictly beneath `t`.
pub open spec fn kept_outside(f0: Seq<usize>, f1: Seq<usize>, t: int) -> bool {
    &&& f0.len() == f1.len()
    &&& forall|x: int| 0 <= x < f0.len() && !(below(x, t) && x != t) ==> #[trigger] f1[x] == f0[x]
}

/// The counters beneath node `t`, which covers `[lo, hi)`, hold the set-bit
/// counts of their ranges.
pub open spec fn tree_ok(f: Seq<usize>, b: Seq<bool>, t: int, lo: int, hi: int) -> bool
    decreases hi - lo,
{
    if hi - lo > 2 {
        let mid = lo + (hi - lo) / 2;
        &&& 0 <= t
        &&& 2 * t + 2 < f.len()
        &&& f[2 * t + 1] == set_in(b, lo, mid)
        &&& f[2 * t + 2] == set_in(b, mid, hi)
        &&& tree_ok(f, b, 2 * t + 1, lo, mid)
        &&& tree_ok(f, b, 2 * t + 2, mid, hi)
    } else {
        true
    }
}

pub proof fn lemma_set_in_split(b: Seq<bool>, lo: int, mid: int, hi: int)
    requires
        lo <= mid <= hi,
    ensures
        set_in(b, lo, hi) == set_in(b, lo, mid) + set_in(b, mid, hi),
    decreases hi - mid,
{
    if hi > mid {
        lemma_set_in_split(b, lo, mid, hi - 1);
    }
}

pub proof fn lemma_set_in_one(b: Seq<bool>, i: int)
    ensures
        set_in(b, i, i + 1) == if b[i] { 1int } else { 0int },
{
    assert(set_in(b, i, i) == 0);
}

pub proof fn lemma_set_in_bounds(b: Seq<bool>, lo: int, hi: int)
    requires
        lo <= hi,
    ensures
        0 <= set_in(b, lo, hi) <= hi - lo,
    decreases hi - lo,
{
    if hi > lo {
        lemma_set_in_bounds(b, lo, hi - 1);
    }
}

pub proof fn lemma_set_in_raise(b: Seq<bool>, n: int, lo: int, hi: int)
    requires
        0 <= n < b.len(),
        !b[n],
        0 <= lo,
        hi <= b.len(),
    ensures
        set_in(b.update(n, true), lo, hi) == set_in(b, lo, hi) + if lo <= n < hi { 1int } else { 0int },
    decreases hi - lo,
{
    if hi > lo {
        lemma_set_in_raise(b, n, lo, hi - 1);
    }
}

pub proof fn lemma_set_in_frame(b1: Seq<bool>, b2: Seq<bool>, lo: int, hi: int)
    requires
        forall|i: int| lo <= i < hi ==> b1[i] == b2[i],
    ensures
        set_in(b1, lo, hi) == set_in(b2, lo, hi),
    decreases hi - lo,
{
    if hi > lo {
        lemma_set_in_frame(b1, b2, lo, hi - 1);
    }
}

pub proof fn lemma_set_in_none(b: Seq<bool>, lo: int, hi: int)
    requires
        forall|i: int| lo <= i < hi ==> !b[i],
    ensures
        set_in(b, lo, hi) == 0,
    decreases hi - lo,
{
    if hi > lo {
        lemma_set_in_none(b, lo, hi - 1);
    }
}

/// Two unset bits with the same number of unset bits before them are the same bit.
pub proof fn lemma_unset_rank_unique(b: Seq<bool>, i: int, j: int)
    requires
        0 <= i < b.len(),
        0 <= j < b.len(),
        !b[i],
        !b[j],
        i - set_in(b, 0, i) == j - set_in(b, 0, j),
    ensures
        i == j,
{
    lemma_set_in_one(b, i);
    lemma_set_in_one(b, j);
    if i < j {
        lemma_set_in_split(b, 0, i, j);
        lemma_set_in_split(b, i, i + 1, j);
        lemma_set_in_bounds(b, i + 1, j);
    } else if j < i {
        lemma_set_in_split(b, 0, j, i);
        lemma_set_in_split(b, j, j + 1, i);
        lemma_set_in_bounds(b, j + 1, i);
    }
}

/// `kth_unset` picks the bit that has the stated rank.
pub proof fn lemma_kth_unset(b: Seq<bool>, k: int, i: int)
    requires
        0 <= i < b.len(),
        !b[i],
        i - set_in(b, 0, i) == k,
    ensures
        kth_unset(b, k) == i,
{
    let j = kth_unset(b, k);
    lemma_unset_rank_unique(b, i, j);
}

proof fn lemma_below_child(x: int, t: int)
    requires
        t >= 0,
        below(x, 2 * t + 1) || below(x, 2 * t + 2),
    ensures
        below(x, t),
        x > t,
    decreases x,
{
    assert(below(t, t));
    if x == 2 * t + 1 || x == 2 * t + 2 {
        assert((x - 1) / 2 == t);
    } else {
        assert(x > 2 * t + 1);
        assert(below((x - 1) / 2, 2 * t + 1) || below((x - 1) / 2, 2 * t + 2));
        lemma_below_child((x - 1) / 2, t);
    }
}

proof fn lemma_below_siblings(x: int, t: int)
    requires
        t >= 0,
    ensures
        !(below(x, 2 * t + 1) && below(x, 2 * t + 2)),
    decreases x,
{
    if x > 2 * t + 2 {
        lemma_below_siblings((x - 1) / 2, t);
    } else if x == 2 * t + 2 {
        assert((x - 1) / 2 == t);
        assert(!below(t, 2 * t + 1));
    } else if x == 2 * t + 1 {
        assert(!below(x, 2 * t + 2));
    }
}

/// The counters beneath `t` depend only on the counters strictly beneath `t`
/// and on the bits of its range.
proof fn lemma_tree_frame(f1: Seq<usize>, f2: Seq<usize>, b1: Seq<bool>, b2: Seq<bool>, t: int, lo: int, hi: int)
    requires
        tree_ok(f1, b1, t, lo, hi),
        f1.len() == f2.len(),
        forall|x: int| 0 <= x < f1.len() && #[trigger] below(x, t) && x != t ==> f1[x] == f2[x],
        forall|i: int| lo <= i < hi ==> b1[i] == b2[i],
    ensures
        tree_ok(f2, b2, t, lo, hi),
    decreases hi - lo,
{
    if hi - lo > 2 {
        let mid = lo + (hi - lo) / 2;
        lemma_set_in_frame(b1, b2, lo, mid);
        lemma_set_in_frame(b1, b2, mid, hi);
        assert(below(2 * t + 1, t)) by { lemma_below_child(2 * t + 1, t); }
        assert(below(2 * t + 2, t)) by { lemma_below_child(2 * t + 2, t); }
        assert forall|x: int| 0 <= x < f1.len() && #[trigger] below(x, 2 * t + 1) && x != 2 * t + 1 implies f1[x] == f2[x] by {
            lemma_below_child(x, t);
        }
        assert forall|x: int| 0 <= x < f1.len() && #[trigger] below(x, 2 * t + 2) && x != 2 * t + 2 implies f1[x] == f2[x] by {
            lemma_below_child(x, t);
        }
        lemma_tree_frame(f1, f2, b1, b2, 2 * t + 1, lo, mid);
        lemma_tree_frame(f1, f2, b1, b2, 2 * t + 2, mid, hi);
    }
}

/// A tree of zero counters over cleared bits is consistent, when the heap
/// has room for every node.
proof fn lemma_tree_zero(f: Seq<usize>, b: Seq<bool>, t: int, lo: int, hi: int)
    requires
        forall|i: int| 0 <= i < f.len() ==> f[i] == 0,
        forall|i: int| lo <= i < hi ==> !b[i],
        0 <= t,
        lo <= hi,
        (t + 2) * (hi - lo - 1) <= f.len(),
    ensures
        tree_ok(f, b, t, lo, hi),
    decreases hi - lo,
{
    if hi - lo > 2 {
        let w = hi - lo;
        let h = w / 2;
        let mid = lo + h;
        lemma_set_in_none(b, lo, mid);
        lemma_set_in_none(b, mid, hi);
        assert(2 * t + 2 < f.len()) by (nonlinear_arith)
            requires (t + 2) * (w - 1) <= f.len(), w > 2, t >= 0;
        assert((2 * t + 3) * (h - 1) <= f.len()) by (nonlinear_arith)
            requires (t + 2) * (w - 1) <= f.len(), w > 2, t >= 0, h == w / 2;
        assert((2 * t + 4) * (w - h - 1) <= f.len()) by (nonlinear_arith)
            requires (t + 2) * (w - 1) <= f.len(), w > 2, t >= 0, h == w / 2;
        lemma_tree_zero(f, b, 2 * t + 1, lo, mid);
        lemma_tree_zero(f, b, 2 * t + 2, mid, hi);
    }
}

/// Adds one to each counter on the path from `t` down to the leaf holding
/// bit `n`, the bit that is about to be set.
fn bump_path(f: &mut Vec<usize>, Ghost(b): Ghost<Seq<bool>>, t: usize, lo: usize, hi: usize, n: usize)
    requires
        lo <= n < hi <= b.len(),
        old(f)@.len() <= 2 * MAX_BITS,
        !b[n as int],
        tree_ok(old(f)@, b, t as int, lo as int, hi as int),
    ensures
        final(f)@.len() == old(f)@.len(),
        tree_ok(final(f)@, b.update(n as int, true), t as int, lo as int, hi as int),
        kept_outside(old(f)@, final(f)@, t as int),
    decreases hi - lo,
{
    let ghost f0 = f@;
    let ghost b1 = b.update(n as int, true);
    if hi - lo > 2 {
        let h = (hi - lo) / 2;
        let mid = lo + h;
        let left = t * 2 + 1;
        let right = t * 2 + 2;
        let (c, s, clo, chi) = if n < mid { (left, right, lo, mid) } else { (right, left, mid, hi) };
        let ghost slo: int = if n < mid { mid as int } else { lo as int };
        let ghost shi: int = if n < mid { hi as int } else { mid as int };
        proof {
            lemma_set_in_split(b, clo as int, n as int, chi as int);
            lemma_set_in_split(b, n as int, n + 1, chi as int);
            lemma_set_in_bounds(b, clo as int, n as int);
            lemma_set_in_bounds(b, n + 1, chi as int);
            lemma_set_in_one(b, n as int);
        }
        let v = f[c];
        f.set(c, v + 1);
        proof {
            assert forall|x: int| 0 <= x < f0.len() && #[trigger] below(x, c as int) && x != c implies f0[x] == f@[x] by {}
            lemma_tree_frame(f0, f@, b, b, c as int, clo as int, chi as int);
        }
        let ghost f1 = f@;
        bump_path(f, Ghost(b), c, clo, chi, n);
        proof {
            assert(below(s as int, s as int));
            assert(below(c as int, c as int));
            lemma_below_siblings(s as int, t as int);
            lemma_below_siblings(c as int, t as int);
            lemma_below_child(c as int, t as int);
            lemma_below_child(s as int, t as int);
            lemma_set_in_raise(b, n as int, clo as int, chi as int);
            lemma_set_in_raise(b, n as int, slo, shi);
            assert forall|x: int| 0 <= x < f0.len() && #[trigger] below(x, s as int) && x != s implies f0[x] == f@[x] by {
                lemma_below_siblings(x, t as int);
                lemma_below_child(x, t as int);
                if x == c {
                    lemma_below_siblings(c as int, t as int);
                }
            }
            lemma_tree_frame(f0, f@, b, b1, s as int, slo, shi);
            assert forall|x: int| 0 <= x < f0.len() && !(below(x, t as int) && x != t as int) implies #[trigger] f@[x] == f0[x] by {
                lemma_below_child(c as int, t as int);
                if below(x, c as int) {
                    lemma_below_child(x, t as int);
                }
                assert(f1[x] == f0[x]);
            }
            assert(below(s as int, s as int));
            assert(below(c as int, c as int));
            assert(f@[c as int] == set_in(b1, clo as int, chi as int));
            assert(f@[s as int] == set_in(b1, slo, shi));
            assert(tree_ok(f@, b1, c as int, clo as int, chi as int));
            assert(tree_ok(f@, b1, s as int, slo, shi));
        }
    }
}

/// Finds the unset bit with `k` unset bits before it in `[lo, hi)`, and adds
/// one to each counter on the path from `t` down to its leaf.
fn bump_kth(f: &mut Vec<usize>, vals: &BitStorage, t: usize, lo: usize, hi: usize, k: usize) -> (r: usize)
    requires
        lo < hi <= bits_of(*vals).len(),
        old(f)@.len() <= 2 * MAX_BITS,
        k < (hi - lo) - set_in(bits_of(*vals), lo as int, hi as int),
        tree_ok(old(f)@, bits_of(*vals), t as int, lo as int, hi as int),
    ensures
        lo <= r < hi,
        !bits_of(*vals)[r as int],
        (r - lo) - set_in(bits_of(*vals), lo as int, r as int) == k,
        final(f)@.len() == old(f)@.len(),
        tree_ok(final(f)@, bits_of(*vals).update(r as int, true), t as int, lo as int, hi as int),
        kept_outside(old(f)@, final(f)@, t as int),
    decreases hi - lo,
{
    let ghost b = bits_of(*vals);
    let ghost f0 = f@;
    if hi - lo > 2 {
        let h = (hi - lo) / 2;
        let mid = lo + h;
        let left = t * 2 + 1;
        let right = t * 2 + 2;
        proof {
            lemma_set_in_split(b, lo as int, mid as int, hi as int);
            lemma_set_in_bounds(b, lo as int, mid as int);
            lemma_set_in_bounds(b, mid as int, hi as int);
        }
        let free_left = h - f[left];
        let (c, s, clo, chi, ck) = if free_left > k {
            (left, right, lo, mid, k)
        } else {
            (right, left, mid, hi, k - free_left)
        };
        let ghost slo: int = if free_left > k { mid as int } else { lo as int };
        let ghost shi: int = if free_left > k { hi as int } else { mid as int };
        proof {
            lemma_set_in_bounds(b, clo as int, chi as int);
        }
        let v = f[c];
        f.set(c, v + 1);
        proof {
            assert forall|x: int| 0 <= x < f0.len() && #[trigger] below(x, c as int) && x != c implies f0[x] == f@[x] by {}
            lemma_tree_frame(f0, f@, b, b, c as int, clo as int, chi as int);
        }
        let ghost f1 = f@;
        let r = bump_kth(f, vals, c, clo, chi, ck);
        proof {
            let b1 = b.update(r as int, true);
            assert(below(s as int, s as int));
            assert(below(c as int, c as int));
            lemma_below_siblings(s as int, t as int);
            lemma_below_siblings(c as int, t as int);
            lemma_below_child(c as int, t as int);
            lemma_below_child(s as int, t as int);
            lemma_set_in_raise(b, r as int, clo as int, chi as int);
            lemma_set_in_raise(b, r as int, slo, shi);
            assert forall|x: int| 0 <= x < f0.len() && #[trigger] below(x, s as int) && x != s implies f0[x] == f@[x] by {
                lemma_below_siblings(x, t as int);
                lemma_below_child(x, t as int);
                if x == c {
                    lemma_below_siblings(c as int, t as int);
                }
            }
            lemma_tree_frame(f0, f@, b, b1, s as int, slo, shi);
            assert forall|x: int| 0 <= x < f0.len() && !(below(x, t as int) && x != t as int) implies #[trigger] f@[x] == f0[x] by {
                lemma_below_child(c as int, t as int);
                if below(x, c as int) {
                    lemma_below_child(x, t as int);
                }
                assert(f1[x] == f0[x]);
            }
            if free_left <= k {
                lemma_set_in_split(b, lo as int, mid as int, r as int);
            }
            assert(below(s as int, s as int));
            assert(below(c as int, c as int));
            assert(f@[c as int] == set_in(b1, clo as int, chi as int));
            assert(f@[s as int] == set_in(b1, slo, shi));
            assert(tree_ok(f@, b1, c as int, clo as int, chi as int));
            assert(tree_ok(f@, b1, s as int, slo, shi));
        }
        r
    } else {
        let r = if k == 1 || bit_at(vals, lo) {
            lo + 1
        } else {
            lo
        };
        proof {
            lemma_set_in_one(b, lo as int);
            if hi - lo == 2 {
                assert(set_in(b, lo as int, hi as int) == set_in(b, lo as int, lo + 1) + if b[lo + 1] { 1int } else { 0int });
            }
        }
        r
    }
}

/// A fixed-size bit vector that counts and selects its unset bits in
/// logarithmic time.
pub struct LRArray {
    /// Number of bits.
    total_bits: usize,
    /// Number of bits that are set.
    total_set_bits: usize,
    /// The bits themselves.
    vals: BitStorage,
    /// Set-bit counts of the nodes of the range tree, in heap order.
    f: Vec<usize>,
}

impl View for LRArray {
    type V = Seq<bool>;

    closed spec fn view(&self) -> Seq<bool> {
        bits_of(self.vals)
    }
}

impl LRArray {
    /// The counters agree with the bits: the root holds the number of set bits,
    /// which is also kept in `total_set_bits`, and every other node holds the
    /// number of set bits in its range.
    pub closed spec fn wf(&self) -> bool {
        &&& self@.len() == self.total_bits
        &&& self.total_bits <= MAX_BITS
        &&& self.f@.len() == 2 * self.total_bits
        &&& self.total_set_bits == set_in(self@, 0, self.total_bits as int)
        &&& self.total_bits > 0 ==> self.f@[0] == self.total_set_bits
        &&& tree_ok(self.f@, self@, 0, 0, self.total_bits as int)
    }

    /// A vector of `size` bits, all unset.
    pub fn new(size: usize) -> (r: LRArray)
        requires
            size <= MAX_BITS,
        ensures
            r.wf(),
            r@ == Seq::new(size as nat, |i: int| false),
    {
        let vals = cleared_bits(size);
        let f = vec![0; size * 2];
        proof {
            lemma_set_in_none(bits_of(vals), 0, size as int);
            lemma_tree_zero(f@, bits_of(vals), 0, 0, size as int);
        }
        LRArray { vals, f, total_bits: size, total_set_bits: 0 }
    }

    /// Number of unset bits.
    pub fn unset_bits(&self) -> (r: usize)
        requires
            self.wf(),
        ensures
            r == self@.len() - set_in(self@, 0, self@.len() as int),
    {
        proof {
            lemma_set_in_bounds(self@, 0, self.total_bits as int);
        }
        self.total_bits - self.total_set_bits
    }

    /// Number of set bits.
    pub fn set_bits(&self) -> (r: usize)
        requires
            self.wf(),
        ensures
            r == set_in(self@, 0, self@.len() as int),
    {
        self.total_set_bits
    }

    /// Number of bits.
    pub fn total_bits(&self) -> (r: usize)
        requires
            self.wf(),
        ensures
            r == self@.len(),
    {
        self.total_bits
    }

    /// The bit at `n`.
    pub fn get_bit(&self, n: usize) -> (r: bool)
        requires
            self.wf(),
            n < self@.len(),
        ensures
            r == self@[n as int],
    {
        bit_at(&self.vals, n)
    }

    /// Number of unset bits strictly before index `n`; all unset bits when `n`
    /// is past the end.
    pub fn unset_before(&self, n: usize) -> (r: usize)
        requires
            self.wf(),
        ensures
            r == unset_before_spec(self@, n as int),
    {
        if n >= self.total_bits {
            return self.unset_bits();
        }
        let ghost b = self@;
        let mut lo: usize = 0;
        let mut hi: usize = self.total_bits;
        let mut t: usize = 0;
        let mut acc: usize = 0;
        while hi - lo > 2
            invariant
                self.wf(),
                b == self@,
                lo <= n < hi <= self.total_bits,
                tree_ok(self.f@, b, t as int, lo as int, hi as int),
                acc == lo - set_in(b, 0, lo as int),
            decreases hi - lo,
        {
            let left = t * 2 + 1;
            let right = t * 2 + 2;
            let h = (hi - lo) / 2;
            let mid = lo + h;
            proof {
                lemma_set_in_bounds(b, lo as int, mid as int);
                lemma_set_in_bounds(b, 0, lo as int);
                lemma_set_in_split(b, 0, lo as int, mid as int);
            }
            let free_left = h - self.f[left];
            if n < mid {
                hi = mid;
                t = left;
            } else {
                lo = mid;
                t = right;
                acc = acc + free_left;
            }
        }
        proof {
            lemma_set_in_bounds(b, 0, lo as int);
        }
        if n > lo && !bit_at(&self.vals, n - 1) {
            acc = acc + 1;
        }
        acc
    }

    /// Sets the bit at `n`. Returns whether it was set already, in which case
    /// nothing changes.
    pub fn set_nth_bit(&mut self, n: usize) -> (r: bool)
        requires
            old(self).wf(),
            n < old(self)@.len(),
        ensures
            final(self).wf(),
            r == old(self)@[n as int],
            final(self)@ == old(self)@.update(n as int, true),
    {
        if bit_at(&self.vals, n) {
            proof {
                assert(self@.update(n as int, true) =~= self@);
            }
            return true;
        }
        let ghost b = self@;
        proof {
            lemma_set_in_split(b, 0, n as int, self.total_bits as int);
            lemma_set_in_split(b, n as int, n + 1, self.total_bits as int);
            lemma_set_in_bounds(b, 0, n as int);
            lemma_set_in_bounds(b, n + 1, self.total_bits as int);
            lemma_set_in_raise(b, n as int, 0, self.total_bits as int);
            lemma_set_in_one(b, n as int);
        }
        let root = self.f[0];
        self.f.set(0, root + 1);
        proof {
            assert forall|x: int| 0 <= x < self.f@.len() && #[trigger] below(x, 0) && x != 0 implies
                old(self).f@[x] == self.f@[x] by {}
            lemma_tree_frame(old(self).f@, self.f@, b, b, 0, 0, self.total_bits as int);
        }
        let ghost f1 = self.f@;
        bump_path(&mut self.f, Ghost(b), 0, 0, self.total_bits, n);
        proof {
            assert(below(0, 0));
            assert(self.f@[0] == f1[0]);
        }
        raise_bit(&mut self.vals, n);
        self.total_set_bits = self.total_set_bits + 1;
        false
    }

    /// Sets the unset bit that has exactly `k` unset bits before it, and
    /// returns its index.
    pub fn set_kth_unset_bit(&mut self, k: usize) -> (r: usize)
        requires
            old(self).wf(),
            k < old(self)@.len() - set_in(old(self)@, 0, old(self)@.len() as int),
        ensures
            final(self).wf(),
            r < old(self)@.len(),
            !old(self)@[r as int],
            unset_before_spec(old(self)@, r as int) == k,
            r == kth_unset(old(self)@, k as int),
            final(self)@ == old(self)@.update(r as int, true),
    {
        let ghost b = self@;
        proof {
            lemma_set_in_bounds(b, 0, self.total_bits as int);
        }
        let root = self.f[0];
        self.f.set(0, root + 1);
        proof {
            assert forall|x: int| 0 <= x < self.f@.len() && #[trigger] below(x, 0) && x != 0 implies
                old(self).f@[x] == self.f@[x] by {}
            lemma_tree_frame(old(self).f@, self.f@, b, b, 0, 0, self.total_bits as int);
        }
        let ghost f1 = self.f@;
        let r = bump_kth(&mut self.f, &self.vals, 0, 0, self.total_bits, k);
        proof {
            assert(below(0, 0));
            assert(self.f@[0] == f1[0]);
            lemma_set_in_raise(b, r as int, 0, self.total_bits as int);
            lemma_kth_unset(b, k as int, r as int);
        }
        raise_bit(&mut self.vals, r);
        self.total_set_bits = self.total_set_bits + 1;
        r
    }
}

} // verus!
