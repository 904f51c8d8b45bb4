//! Median selection.
//!
//! The median is defined as the middle element (lower middle for even
//! lengths) of the ascending sorted order, which is itself defined by
//! repeated insertion, so both are plain functions of the input sequence.

use vstd::prelude::*;

verus! {

/// `s` with `x` inserted before the first element not smaller than it.
pub open spec fn insert_sorted(x: i128, s: Seq<i128>) -> Seq<i128>
    decreases s.len(),
{
    if s.len() == 0 {
        seq![x]
    } else if x <= s[0] {
        seq![x] + s
    } else {
        seq![s[0]] + insert_sorted(x, s.drop_first())
    }
}

/// The sequence sorted ascending, by inserting one element at a time.
pub open spec fn sort_spec(s: Seq<i128>) -> Seq<i128>
    decreases s.len(),
{
    if s.len() == 0 {
        Seq::empty()
    } else {
        insert_sorted(s.last(), sort_spec(s.drop_last()))
    }
}

/// The middle element of the sorted order (the lower middle when the length
/// is even).
pub open spec fn median_spec(s: Seq<i128>) -> i128 {
    sort_spec(s)[(s.len() - 1) as int / 2]
}

/// Inserting grows a sequence by one.
pub proof fn lemma_insert_sorted_len(x: i128, s: Seq<i128>)
    ensures
        insert_sorted(x, s).len() == s.len() + 1,
    decreases s.len(),
{
    if s.len() > 0 && !(x <= s[0]) {
        lemma_insert_sorted_len(x, s.drop_first());
    }
}

/// Sorting keeps the length.
pub proof fn lemma_sort_spec_len(s: Seq<i128>)
    ensures
        sort_spec(s).len() == s.len(),
    decreases s.len(),
{
    if s.len() > 0 {
        lemma_sort_spec_len(s.drop_last());
        lemma_insert_sorted_len(s.last(), sort_spec(s.drop_last()));
    }
}

/// If everything before position `j` is smaller than `x` and the element at
/// `j` (if any) is not, then inserting `x` lands exactly at position `j`.
proof fn lemma_insert_at(x: i128, s: Seq<i128>, j: int)
    requires
        0 <= j <= s.len(),
        forall|i: int| 0 <= i < j ==> s[i] < x,
        j < s.len() ==> x <= s[j],
    ensures
        insert_sorted(x, s) == s.insert(j, x),
    decreases j,
{
    if j == 0 {
        if s.len() == 0 {
            assert(insert_sorted(x, s) =~= s.insert(0, x));
        } else {
            assert(seq![x] + s =~= s.insert(0, x));
        }
    } else {
        assert(s[0] < x);
        let d = s.drop_first();
        assert(forall|i: int| 0 <= i < j - 1 ==> d[i] == s[i + 1] && d[i] < x);
        assert(j - 1 < d.len() ==> x <= d[j - 1]);
        lemma_insert_at(x, d, j - 1);
        assert(seq![s[0]] + d.insert(j - 1, x) =~= s.insert(j, x));
    }
}

/// Insert `x` into `v` before the first element not smaller than it.
fn insert_exec(v: &mut Vec<i128>, x: i128)
    ensures
        final(v)@ == insert_sorted(x, old(v)@),
{
    let mut j: usize = 0;
    while j < v.len() && v[j] < x
        invariant
            j <= v@.len(),
            v@ == old(v)@,
            forall|i: int| 0 <= i < j ==> v@[i] < x,
        decreases v@.len() - j,
    {
        j = j + 1;
    }
    proof {
        lemma_insert_at(x, v@, j as int);
    }
    v.insert(j, x);
}

/// The median of a nonempty vector.
pub fn median(v: &Vec<i128>) -> (r: i128)
    requires
        v@.len() >= 1,
    ensures
        r == median_spec(v@),
{
    let mut sorted: Vec<i128> = Vec::new();
    let mut i: usize = 0;
    while i < v.len()
        invariant
            i <= v@.len(),
            sorted@ == sort_spec(v@.take(i as int)),
            sorted@.len() == i,
        decreases v@.len() - i,
    {
        let x: i128 = v[i];
        proof {
            let pre = v@.take(i as int);
            let post = v@.take(i + 1);
            assert(post.drop_last() =~= pre);
            assert(post.last() == v@[i as int]);
            lemma_insert_sorted_len(x, sort_spec(pre));
        }
        insert_exec(&mut sorted, x);
        i = i + 1;
    }
    proof {
        assert(v@.take(v@.len() as int) =~= v@);
        lemma_sort_spec_len(v@);
    }
    sorted[(v.len() - 1) / 2]
}

} // verus!
