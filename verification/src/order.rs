//! Sorting.

use vstd::prelude::*;

verus! {

broadcast use vstd::seq_lib::group_to_multiset_ensures;

pub open spec fn ascending_u64(s: Seq<u64>) -> bool {
    forall|i: int, j: int| 0 <= i <= j < s.len() ==> s[i] <= s[j]
}

pub open spec fn ascending_i32(s: Seq<i32>) -> bool {
    forall|i: int, j: int| 0 <= i <= j < s.len() ==> s[i] <= s[j]
}

/// Put `x` where it belongs in an ascending list.
fn insert_i32(v: &mut Vec<i32>, x: i32)
    requires
        ascending_i32(old(v)@),
    ensures
        ascending_i32(final(v)@),
        final(v)@.to_multiset() == old(v)@.to_multiset().insert(x),
{
    let mut i: usize = v.len();
    while i > 0 && v[i - 1] > x
        invariant
            i <= v@.len(),
            forall|k: int| i <= k < v@.len() ==> v@[k] > x,
        decreases i,
    {
        i = i - 1;
    }
    v.insert(i, x);
    assert(v@.to_multiset() =~= old(v)@.to_multiset().insert(x)) by {
        assert(v@.remove(i as int) =~= old(v)@);
        assert(v@[i as int] == x);
        assert(v@.contains(x));
        assert(v@.to_multiset().count(x) > 0);
        assert(v@.remove(i as int).to_multiset() == v@.to_multiset().remove(x));
    }
}

/// The same numbers in ascending order.
pub fn sorted_i32(v: &Vec<i32>) -> (r: Vec<i32>)
    ensures
        ascending_i32(r@),
        forall|i: int, j: int| 0 <= i <= j < r@.len() ==> r@[i] <= r@[j],
        r@.to_multiset() == v@.to_multiset(),
        r@.len() == v@.len(),
{
    let mut r: Vec<i32> = Vec::new();
    let mut i: usize = 0;
    assert(v@.take(0) =~= Seq::empty());
    while i < v.len()
        invariant
            i <= v@.len(),
            ascending_i32(r@),
            r@.to_multiset() == v@.take(i as int).to_multiset(),
        decreases v@.len() - i,
    {
        assert(v@.take(i + 1) =~= v@.take(i as int).push(v@[i as int]));
        insert_i32(&mut r, v[i]);
        i = i + 1;
    }
    assert(v@.take(v@.len() as int) =~= v@);
    assert(r@.len() == r@.to_multiset().len());
    assert(v@.len() == v@.to_multiset().len());
    r
}

/// Two ascending lists as one.
fn merge(a: &Vec<u64>, b: &Vec<u64>) -> (r: Vec<u64>)
    requires
        ascending_u64(a@),
        ascending_u64(b@),
    ensures
        ascending_u64(r@),
        r@.to_multiset() == a@.to_multiset().add(b@.to_multiset()),
{
    let mut r: Vec<u64> = Vec::new();
    let mut i: usize = 0;
    let mut j: usize = 0;
    assert(r@.to_multiset() =~= a@.take(0).to_multiset().add(b@.take(0).to_multiset())) by {
        assert(a@.take(0) =~= Seq::empty());
        assert(b@.take(0) =~= Seq::empty());
    }
    while i < a.len() || j < b.len()
        invariant
            i <= a@.len(),
            j <= b@.len(),
            ascending_u64(a@),
            ascending_u64(b@),
            ascending_u64(r@),
            forall|k: int, m: int| 0 <= k < r@.len() && i <= m < a@.len() ==> r@[k] <= a@[m],
            forall|k: int, m: int| 0 <= k < r@.len() && j <= m < b@.len() ==> r@[k] <= b@[m],
            r@.to_multiset() == a@.take(i as int).to_multiset().add(
                b@.take(j as int).to_multiset(),
            ),
        decreases a@.len() - i + b@.len() - j,
    {
        if j >= b.len() || i < a.len() && a[i] <= b[j] {
            assert(a@.take(i + 1) =~= a@.take(i as int).push(a@[i as int]));
            r.push(a[i]);
            i = i + 1;
        } else {
            assert(b@.take(j + 1) =~= b@.take(j as int).push(b@[j as int]));
            r.push(b[j]);
            j = j + 1;
        }
        assert(r@.to_multiset() =~= a@.take(i as int).to_multiset().add(
            b@.take(j as int).to_multiset(),
        ));
    }
    assert(a@.take(a@.len() as int) =~= a@);
    assert(b@.take(b@.len() as int) =~= b@);
    r
}

fn sort_part(v: &Vec<u64>, lo: usize, hi: usize) -> (r: Vec<u64>)
    requires
        lo <= hi <= v@.len(),
    ensures
        ascending_u64(r@),
        r@.to_multiset() == v@.subrange(lo as int, hi as int).to_multiset(),
    decreases hi - lo,
{
    if hi - lo == 0 {
        let r: Vec<u64> = Vec::new();
        assert(v@.subrange(lo as int, hi as int) =~= r@);
        r
    } else if hi - lo == 1 {
        let mut r: Vec<u64> = Vec::new();
        r.push(v[lo]);
        assert(v@.subrange(lo as int, hi as int) =~= r@);
        r
    } else {
        let mid: usize = lo + (hi - lo) / 2;
        let a = sort_part(v, lo, mid);
        let b = sort_part(v, mid, hi);
        let r = merge(&a, &b);
        proof {
            let x = v@.subrange(lo as int, mid as int);
            let y = v@.subrange(mid as int, hi as int);
            vstd::seq_lib::lemma_multiset_commutative(x, y);
            assert(v@.subrange(lo as int, hi as int) =~= x + y);
        }
        r
    }
}

/// The same numbers in ascending order.
pub fn sorted_u64(v: &Vec<u64>) -> (r: Vec<u64>)
    ensures
        ascending_u64(r@),
        forall|i: int, j: int| 0 <= i <= j < r@.len() ==> r@[i] <= r@[j],
        r@.to_multiset() == v@.to_multiset(),
        r@.len() == v@.len(),
{
    let r = sort_part(v, 0, v.len());
    assert(v@.subrange(0, v@.len() as int) =~= v@);
    assert(r@.len() == r@.to_multiset().len());
    assert(v@.len() == v@.to_multiset().len());
    r
}

} // verus!
