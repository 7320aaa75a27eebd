//! The Lehmer code of a permutation and back, both driven by an [`LRArray`].
use vstd::prelude::*;
use crate::PermError;
use crate::lr_array::{
    kth_unset, lemma_kth_unset, lemma_set_in_bounds, lemma_set_in_none, lemma_set_in_one,
    lemma_set_in_raise, lemma_set_in_split, set_in, unset_before_spec, LRArray, MAX_BITS,
};

verus! {

/// Every entry is below the length, and no value repeats.
pub open spec fn is_permutation(p: Seq<u32>) -> bool {
    &&& forall|i: int| 0 <= i < p.len() ==> p[i] < p.len()
    &&& forall|i: int, j: int| 0 <= i < j < p.len() ==> p[i] != p[j]
}

/// Entry `i` is at most `len - 1 - i`.
pub open spec fn is_lehmer_code(l: Seq<u32>) -> bool {
    forall|i: int| 0 <= i < l.len() ==> l[i] + i < l.len()
}

/// The values that the first `i` entries of `p` hold, as bits over `0..p.len()`.
pub open spec fn emitted(p: Seq<u32>, i: int) -> Seq<bool>
    decreases i,
{
    if i <= 0 {
        Seq::new(p.len(), |u: int| false)
    } else {
        emitted(p, i - 1).update(p[i - 1] as int, true)
    }
}

/// The Lehmer code of `p`: entry `i` is the rank of `p[i]` among the values
/// that no earlier entry holds.
pub open spec fn lehmer_code(p: Seq<u32>) -> Seq<u32> {
    Seq::new(p.len(), |i: int| unset_before_spec(emitted(p, i), p[i] as int) as u32)
}

/// The values taken by the first `i` steps of decoding the Lehmer code `l`.
pub open spec fn taken(l: Seq<u32>, i: int) -> Seq<bool>
    decreases i,
{
    if i <= 0 {
        Seq::new(l.len(), |u: int| false)
    } else {
        let b = taken(l, i - 1);
        b.update(kth_unset(b, l[i - 1] as int), true)
    }
}

/// The permutation whose Lehmer code is `l`: entry `i` is the value of rank
/// `l[i]` among those not taken yet.
pub open spec fn permutation_of(l: Seq<u32>) -> Seq<u32> {
    Seq::new(l.len(), |i: int| kth_unset(taken(l, i), l[i] as int) as u32)
}

proof fn lemma_emitted(p: Seq<u32>, i: int, u: int)
    requires
        0 <= i <= p.len(),
        0 <= u < p.len(),
        forall|j: int| 0 <= j < i ==> p[j] < p.len(),
    ensures
        emitted(p, i).len() == p.len(),
        emitted(p, i)[u] <==> exists|j: int| 0 <= j < i && p[j] == u,
    decreases i,
{
    if i > 0 {
        lemma_emitted(p, i - 1, u);
        if emitted(p, i - 1)[u] {
            let j = choose|j: int| 0 <= j < i - 1 && p[j] == u;
            assert(0 <= j < i && p[j] == u);
        }
    }
}

/// Rewrites a permutation into its Lehmer code. Fails, leaving the input as
/// it was, when the input is not a permutation.
pub fn perm_to_lehmer(perm: &mut Vec<u32>) -> (r: Result<(), PermError>)
    requires
        old(perm)@.len() <= MAX_BITS,
    ensures
        r is Ok <==> is_permutation(old(perm)@),
        r is Ok ==> final(perm)@ == lehmer_code(old(perm)@),
        r is Err ==> r == Err::<(), PermError>(PermError::InvalidInput) && final(perm)@ == old(perm)@,
{
    let ghost p = perm@;
    let n = perm.len();
    let mut lr = LRArray::new(n);
    let mut out: Vec<u32> = Vec::with_capacity(n);
    let mut i: usize = 0;
    proof {
        assert(lr@ =~= emitted(p, 0));
    }
    while i < n
        invariant
            perm@ == p,
            n == p.len(),
            n <= MAX_BITS,
            0 <= i <= n,
            lr.wf(),
            lr@ == emitted(p, i as int),
            out@ == lehmer_code(p).take(i as int),
            forall|j: int| 0 <= j < i ==> p[j] < n,
            forall|j: int, k: int| 0 <= j < k < i ==> p[j] != p[k],
        decreases n - i,
    {
        let v = perm[i];
        if v as usize >= n {
            return Err(PermError::InvalidInput);
        }
        let rank = lr.unset_before(v as usize);
        proof {
            lemma_emitted(p, i as int, v as int);
        }
        if lr.set_nth_bit(v as usize) {
            proof {
                let j = choose|j: int| 0 <= j < i && p[j] == v;
                assert(p[j] == p[i as int]);
            }
            return Err(PermError::InvalidInput);
        }
        out.push(rank as u32);
        proof {
            assert forall|j: int| 0 <= j < i implies p[j] != p[i as int] by {
                if p[j] == p[i as int] {
                    assert(exists|j: int| 0 <= j < i && p[j] == v);
                }
            }
            assert(lr@ =~= emitted(p, i + 1));
            assert(out@ =~= lehmer_code(p).take(i + 1));
        }
        i = i + 1;
    }
    proof {
        assert(out@ =~= lehmer_code(p));
    }
    *perm = out;
    Ok(())
}

/// Rewrites a Lehmer code into its permutation. Fails, leaving the input as
/// it was, when some entry `i` exceeds `len - 1 - i`.
pub fn lehmer_to_perm(lehmer: &mut Vec<u32>) -> (r: Result<(), PermError>)
    requires
        old(lehmer)@.len() <= MAX_BITS,
    ensures
        r is Ok <==> is_lehmer_code(old(lehmer)@),
        r is Ok ==> final(lehmer)@ == permutation_of(old(lehmer)@),
        r is Err ==> r == Err::<(), PermError>(PermError::InvalidInput) && final(lehmer)@ == old(lehmer)@,
{
    let ghost l = lehmer@;
    let n = lehmer.len();
    let mut lr = LRArray::new(n);
    let mut out: Vec<u32> = Vec::with_capacity(n);
    let mut i: usize = 0;
    proof {
        assert(lr@ =~= taken(l, 0));
        lemma_set_in_none(lr@, 0, n as int);
    }
    while i < n
        invariant
            lehmer@ == l,
            n == l.len(),
            0 <= i <= n,
            lr.wf(),
            lr@ == taken(l, i as int),
            lr@.len() == n,
            set_in(lr@, 0, n as int) == i,
            out@ == permutation_of(l).take(i as int),
            forall|j: int| 0 <= j < i ==> l[j] + j < n,
        decreases n - i,
    {
        let k = lehmer[i];
        if k as usize >= lr.unset_bits() {
            return Err(PermError::InvalidInput);
        }
        let ghost b = lr@;
        let r = lr.set_kth_unset_bit(k as usize);
        out.push(r as u32);
        proof {
            lemma_set_in_raise(b, r as int, 0, n as int);
            assert(lr@ == taken(l, i + 1));
            assert(out@ =~= permutation_of(l).take(i + 1));
        }
        i = i + 1;
    }
    proof {
        assert(out@ =~= permutation_of(l));
    }
    *lehmer = out;
    Ok(())
}

/// After the first `i` entries of a permutation, exactly `i` values are
/// emitted, and none of the later entries is among them.
proof fn lemma_emitted_perm(p: Seq<u32>, i: int)
    requires
        is_permutation(p),
        0 <= i <= p.len(),
    ensures
        emitted(p, i).len() == p.len(),
        set_in(emitted(p, i), 0, p.len() as int) == i,
        forall|j: int| i <= j < p.len() ==> !emitted(p, i)[p[j] as int],
    decreases i,
{
    if i == 0 {
        lemma_set_in_none(emitted(p, 0), 0, p.len() as int);
    } else {
        lemma_emitted_perm(p, i - 1);
        let e = emitted(p, i - 1);
        lemma_set_in_raise(e, p[i - 1] as int, 0, p.len() as int);
        assert forall|j: int| i <= j < p.len() implies !emitted(p, i)[p[j] as int] by {
            assert(p[i - 1] != p[j]);
        }
    }
}

/// Entry `i` of a Lehmer code has `len - 1 - i` as its bound: its rank among
/// the `len - i` values not yet emitted.
proof fn lemma_lehmer_entry(p: Seq<u32>, i: int)
    requires
        is_permutation(p),
        0 <= i < p.len(),
    ensures
        !emitted(p, i)[p[i] as int],
        lehmer_code(p)[i] == p[i] - set_in(emitted(p, i), 0, p[i] as int),
        lehmer_code(p)[i] + i < p.len(),
{
    lemma_emitted_perm(p, i);
    let e = emitted(p, i);
    let v = p[i] as int;
    let n = p.len() as int;
    lemma_set_in_bounds(e, 0, v);
    lemma_set_in_split(e, 0, v, n);
    lemma_set_in_split(e, v, v + 1, n);
    lemma_set_in_one(e, v);
    lemma_set_in_bounds(e, v + 1, n);
}

/// The Lehmer code of a permutation of length `n` has entry `i` within
/// `0..=n-1-i`.
pub proof fn lemma_lehmer_code_bounds(p: Seq<u32>)
    requires
        is_permutation(p),
    ensures
        is_lehmer_code(lehmer_code(p)),
        lehmer_code(p).len() == p.len(),
{
    assert forall|i: int| 0 <= i < p.len() implies lehmer_code(p)[i] + i < p.len() by {
        lemma_lehmer_entry(p, i);
    }
}

/// Decoding the Lehmer code of a permutation gives the permutation back.
pub proof fn lemma_perm_lehmer_round_trip(p: Seq<u32>)
    requires
        is_permutation(p),
    ensures
        permutation_of(lehmer_code(p)) == p,
{
    let l = lehmer_code(p);
    assert forall|i: int| 0 <= i <= p.len() implies taken(l, i) == emitted(p, i) by {
        lemma_taken_emitted(p, i);
    }
    assert forall|i: int| 0 <= i < p.len() implies permutation_of(l)[i] == p[i] by {
        lemma_taken_emitted(p, i);
        lemma_lehmer_entry(p, i);
        lemma_emitted_perm(p, i);
        lemma_kth_unset(emitted(p, i), l[i] as int, p[i] as int);
    }
    assert(permutation_of(l) =~= p);
}

proof fn lemma_taken_emitted(p: Seq<u32>, i: int)
    requires
        is_permutation(p),
        0 <= i <= p.len(),
    ensures
        taken(lehmer_code(p), i) == emitted(p, i),
    decreases i,
{
    let l = lehmer_code(p);
    if i == 0 {
        assert(taken(l, 0) =~= emitted(p, 0));
    } else {
        lemma_taken_emitted(p, i - 1);
        lemma_lehmer_entry(p, i - 1);
        lemma_emitted_perm(p, i - 1);
        lemma_kth_unset(emitted(p, i - 1), l[i - 1] as int, p[i - 1] as int);
    }
}

/// A bit vector with more than `k` unset bits before `hi` has an unset bit of
/// rank `k` there.
proof fn lemma_kth_exists(b: Seq<bool>, k: int, hi: int)
    requires
        0 <= k,
        0 <= hi <= b.len(),
        k < hi - set_in(b, 0, hi),
    ensures
        0 <= kth_unset(b, k) < hi,
        !b[kth_unset(b, k)],
        kth_unset(b, k) - set_in(b, 0, kth_unset(b, k)) == k,
    decreases hi,
{
    if k < (hi - 1) - set_in(b, 0, hi - 1) {
        lemma_kth_exists(b, k, hi - 1);
    } else {
        lemma_set_in_bounds(b, 0, hi - 1);
        lemma_kth_unset(b, k, hi - 1);
    }
}

/// Decoding a Lehmer code step by step: after `i` steps, `i` values are
/// taken, each step takes a value not taken before, and taken values stay.
proof fn lemma_taken_steps(l: Seq<u32>, i: int)
    requires
        is_lehmer_code(l),
        l.len() <= u32::MAX,
        0 <= i <= l.len(),
    ensures
        taken(l, i).len() == l.len(),
        set_in(taken(l, i), 0, l.len() as int) == i,
        forall|j: int| 0 <= j < i ==> taken(l, i)[#[trigger] permutation_of(l)[j] as int],
        forall|j: int| 0 <= j < i ==> permutation_of(l)[j] < l.len(),
    decreases i,
{
    let n = l.len() as int;
    if i == 0 {
        lemma_set_in_none(taken(l, 0), 0, n);
    } else {
        lemma_taken_steps(l, i - 1);
        let b = taken(l, i - 1);
        lemma_kth_exists(b, l[i - 1] as int, n);
        let x = kth_unset(b, l[i - 1] as int);
        lemma_set_in_raise(b, x, 0, n);
        assert(permutation_of(l)[i - 1] as int == x);
    }
}

/// Every Lehmer code is the code of the permutation it decodes to.
pub proof fn lemma_lehmer_perm_round_trip(l: Seq<u32>)
    requires
        is_lehmer_code(l),
        l.len() <= u32::MAX,
    ensures
        is_permutation(permutation_of(l)),
        lehmer_code(permutation_of(l)) == l,
{
    let p = permutation_of(l);
    let n = l.len() as int;
    assert forall|i: int| 0 <= i < n implies {
        &&& 0 <= kth_unset(taken(l, i), l[i] as int) < n
        &&& !taken(l, i)[kth_unset(taken(l, i), l[i] as int)]
        &&& kth_unset(taken(l, i), l[i] as int) - set_in(taken(l, i), 0, kth_unset(taken(l, i), l[i] as int)) == l[i]
        &&& p[i] as int == kth_unset(taken(l, i), l[i] as int)
    } by {
        lemma_taken_steps(l, i);
        lemma_kth_exists(taken(l, i), l[i] as int, n);
    }
    assert forall|i: int, j: int| 0 <= i < j < n implies p[i] != p[j] by {
        lemma_taken_steps(l, j);
    }
    assert forall|i: int| 0 <= i < n implies lehmer_code(p)[i] == l[i] by {
        lemma_emitted_taken(l, i);
        lemma_taken_steps(l, i);
        lemma_kth_exists(taken(l, i), l[i] as int, n);
    }
    assert(lehmer_code(p) =~= l);
}

proof fn lemma_emitted_taken(l: Seq<u32>, i: int)
    requires
        is_lehmer_code(l),
        l.len() <= u32::MAX,
        0 <= i <= l.len(),
    ensures
        emitted(permutation_of(l), i) == taken(l, i),
    decreases i,
{
    let p = permutation_of(l);
    if i == 0 {
        assert(emitted(p, 0) =~= taken(l, 0));
    } else {
        lemma_emitted_taken(l, i - 1);
        lemma_taken_steps(l, i - 1);
        lemma_kth_exists(taken(l, i - 1), l[i - 1] as int, l.len() as int);
    }
}

} // verus!
