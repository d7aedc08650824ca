use vstd::prelude::*;
use vstd::multiset::Multiset;

use crate::types::{AlgoType, StatsMessage};

verus! {

broadcast use vstd::seq_lib::group_to_multiset_ensures;

/// `s` is in non-decreasing order.
pub open spec fn sorted(s: Seq<u64>) -> bool {
    forall|i: int, j: int| 0 <= i <= j < s.len() ==> s[i] <= s[j]
}

/// `a` and `b` hold the same values, each as many times.
pub open spec fn permutation(a: Seq<u64>, b: Seq<u64>) -> bool {
    a.to_multiset() == b.to_multiset()
}

/// Exchanging two entries keeps the multiset of values.
pub proof fn lemma_swap_permutation(s: Seq<u64>, i: int, j: int)
    requires
        0 <= i < s.len(),
        0 <= j < s.len(),
    ensures
        permutation(s.update(i, s[j]).update(j, s[i]), s),
{
    broadcast use vstd::multiset::group_multiset_properties;

    let t = s.update(i, s[j]);
    assert(t[j] == (if i == j { s[j] } else { s[j] }));
    assert(t.to_multiset() == s.to_multiset().insert(s[j]).remove(s[i]));
    assert(t.update(j, s[i]).to_multiset() == t.to_multiset().insert(s[i]).remove(t[j]));
    assert(t.update(j, s[i]).to_multiset() =~= s.to_multiset());
}

/// Exchanges the entries at `nb1` and `nb2`.
pub fn swap(vec: &mut Vec<u64>, nb1: usize, nb2: usize)
    requires
        nb1 < old(vec).len(),
        nb2 < old(vec).len(),
    ensures
        final(vec)@ == old(vec)@.update(nb1 as int, old(vec)@[nb2 as int]).update(
            nb2 as int,
            old(vec)@[nb1 as int],
        ),
        permutation(final(vec)@, old(vec)@),
{
    proof {
        lemma_swap_permutation(vec@, nb1 as int, nb2 as int);
    }
    let temp = vec[nb1];
    let other = vec[nb2];
    vec.set(nb1, other);
    vec.set(nb2, temp);
}

/// The number of comparisons bubble sort makes on `n` values: `n(n-1)/2`.
pub open spec fn bubble_comparisons(n: nat) -> nat {
    (n * (n - 1) / 2) as nat
}

/// The comparisons made by the first `i` passes over `n` values.
spec fn passes(n: int, i: int) -> int
    decreases i,
{
    if i <= 0 {
        0
    } else {
        passes(n, i - 1) + (n - i)
    }
}

proof fn lemma_passes_closed_form(n: int, i: int)
    requires
        0 <= i,
    ensures
        2 * passes(n, i) == i * (2 * n - i - 1),
    decreases i,
{
    if i > 0 {
        lemma_passes_closed_form(n, i - 1);
        assert(2 * passes(n, i) == i * (2 * n - i - 1)) by (nonlinear_arith)
            requires
                2 * passes(n, i - 1) == (i - 1) * (2 * n - (i - 1) - 1),
                passes(n, i) == passes(n, i - 1) + (n - i),
        ;
    } else {
        assert(i * (2 * n - i - 1) == 0) by (nonlinear_arith)
            requires
                i == 0,
        ;
    }
}

proof fn lemma_passes_monotone(n: int, i: int, k: int)
    requires
        0 <= i <= k <= n,
    ensures
        passes(n, i) <= passes(n, k),
    decreases k - i,
{
    if i < k {
        lemma_passes_monotone(n, i, k - 1);
    }
}

proof fn lemma_passes_total(n: int)
    requires
        n >= 1,
    ensures
        passes(n, n - 1) == bubble_comparisons(n as nat),
{
    lemma_passes_closed_form(n, n - 1);
    assert((n - 1) * (2 * n - (n - 1) - 1) == n * (n - 1)) by (nonlinear_arith);
    assert(n * (n - 1) >= 0) by (nonlinear_arith)
        requires
            n >= 1,
    ;
}

/// Bubble sort: `n - 1` passes, the pass `i` comparing each of the first
/// `n - i - 1` values with its right neighbour and swapping them when out of order.
/// Returns the number of comparisons made.
pub fn bubble_sort(vec: &mut Vec<u64>) -> (count: u64)
    requires
        old(vec).len() >= 1,
        bubble_comparisons(old(vec).len() as nat) <= u64::MAX,
    ensures
        sorted(final(vec)@),
        permutation(final(vec)@, old(vec)@),
        count == bubble_comparisons(old(vec).len() as nat),
{
    let ghost orig = vec@;
    let n = vec.len();
    let mut count: u64 = 0;
    proof {
        lemma_passes_total(n as int);
    }
    for i in 0..n - 1
        invariant
            n == vec.len(),
            n >= 1,
            permutation(vec@, orig),
            passes(n as int, n - 1) <= u64::MAX,
            count == passes(n as int, i as int),
            // the last `i` places hold the largest values, in order
            forall|a: int, b: int| n - i <= a <= b < n ==> vec@[a] <= vec@[b],
            forall|a: int, b: int| 0 <= a < n - i <= b < n ==> vec@[a] <= vec@[b],
    {
        proof {
            lemma_passes_monotone(n as int, i as int + 1, n as int - 1);
        }
        for j in 0..n - i - 1
            invariant
                n == vec.len(),
                n >= 1,
                i < n - 1,
                permutation(vec@, orig),
                passes(n as int, i + 1) <= u64::MAX,
                count == passes(n as int, i as int) + j,
                forall|a: int, b: int| n - i <= a <= b < n ==> vec@[a] <= vec@[b],
                forall|a: int, b: int| 0 <= a < n - i <= b < n ==> vec@[a] <= vec@[b],
                // the value at `j` is the largest of the first `j + 1`
                forall|a: int| 0 <= a <= j ==> vec@[a] <= vec@[j as int],
        {
            count += 1;
            if vec[j] > vec[j + 1] {
                swap(vec, j, j + 1);
            }
        }
    }
    proof {
        assert(orig.len() == n);
    }
    count
}

/// How many values of `s` are greater than `x`.
pub open spec fn count_greater(s: Seq<u64>, x: u64) -> nat
    decreases s.len(),
{
    if s.len() == 0 {
        0
    } else {
        count_greater(s.drop_last(), x) + (if s.last() > x { 1nat } else { 0nat })
    }
}

/// The number of comparisons insertion sort makes: each value after the first
/// is compared once with every earlier value greater than it, and once more
/// with the value that stops it (or the front of the array).
pub open spec fn insertion_comparisons(s: Seq<u64>) -> nat
    decreases s.len(),
{
    if s.len() <= 1 {
        0
    } else {
        insertion_comparisons(s.drop_last()) + count_greater(s.drop_last(), s.last()) + 1
    }
}

proof fn lemma_count_greater_concat(a: Seq<u64>, b: Seq<u64>, x: u64)
    ensures
        count_greater(a + b, x) == count_greater(a, x) + count_greater(b, x),
    decreases b.len(),
{
    if b.len() == 0 {
        assert(a + b =~= a);
    } else {
        lemma_count_greater_concat(a, b.drop_last(), x);
        assert((a + b).drop_last() =~= a + b.drop_last());
    }
}

proof fn lemma_count_greater_permutation(a: Seq<u64>, b: Seq<u64>, x: u64)
    requires
        permutation(a, b),
    ensures
        count_greater(a, x) == count_greater(b, x),
    decreases a.len(),
{
    broadcast use vstd::multiset::group_multiset_properties;

    if a.len() == 0 {
        assert(b.to_multiset().len() == 0);
        assert(b.len() == 0);
    } else {
        let v = a.last();
        let a0 = a.drop_last();
        assert(a =~= a0.push(v));
        assert(a[a.len() - 1] == v);
        assert(a.contains(v));
        assert(a.to_multiset().count(v) > 0);
        assert(b.to_multiset().count(v) > 0);
        assert(b.contains(v));
        let k = choose|k: int| 0 <= k < b.len() && b[k] == v;
        let b0 = b.remove(k);
        assert(b0.to_multiset() == b.to_multiset().remove(v));
        assert(a0.to_multiset() =~= a.to_multiset().remove(v));
        lemma_count_greater_permutation(a0, b0, x);
        let left = b.take(k);
        let right = b.skip(k + 1);
        assert(b =~= left + seq![v] + right);
        assert(b0 =~= left + right);
        lemma_count_greater_concat(left + seq![v], right, x);
        lemma_count_greater_concat(left, seq![v], x);
        lemma_count_greater_concat(left, right, x);
        assert(seq![v].drop_last() =~= Seq::<u64>::empty());
        assert(count_greater(Seq::<u64>::empty(), x) == 0);
        assert(seq![v].last() == v);
        assert(count_greater(seq![v], x) == (if v > x { 1nat } else { 0nat }));
        assert(count_greater(b, x) == count_greater(b0, x) + (if v > x { 1nat } else { 0nat }));
        assert(count_greater(a, x) == count_greater(a0, x) + (if v > x { 1nat } else { 0nat }));
    }
}

/// In a sorted sequence whose values from `h` on exceed `x` and before `h` do
/// not, exactly the last `len - h` values exceed `x`.
proof fn lemma_count_greater_split(p: Seq<u64>, h: int, x: u64)
    requires
        0 <= h <= p.len(),
        forall|k: int| 0 <= k < h ==> p[k] <= x,
        forall|k: int| h <= k < p.len() ==> p[k] > x,
    ensures
        count_greater(p, x) == p.len() - h,
    decreases p.len(),
{
    if p.len() > 0 {
        if h == p.len() {
            lemma_count_greater_split(p.drop_last(), h - 1, x);
        } else {
            lemma_count_greater_split(p.drop_last(), h, x);
        }
    }
}

/// All values from `h` on exceed `x`: at least `len - h` values exceed `x`.
proof fn lemma_count_greater_tail(p: Seq<u64>, h: int, x: u64)
    requires
        0 <= h <= p.len(),
        forall|k: int| h <= k < p.len() ==> p[k] > x,
    ensures
        count_greater(p, x) >= p.len() - h,
    decreases p.len(),
{
    if p.len() > 0 && h < p.len() {
        lemma_count_greater_tail(p.drop_last(), h, x);
    }
}

proof fn lemma_insertion_comparisons_monotone(s: Seq<u64>, i: int, k: int)
    requires
        0 <= i <= k <= s.len(),
    ensures
        insertion_comparisons(s.take(i)) <= insertion_comparisons(s.take(k)),
    decreases k - i,
{
    if i < k {
        lemma_insertion_comparisons_monotone(s, i, k - 1);
        assert(s.take(k).drop_last() =~= s.take(k - 1));
    }
}

/// Insertion sort: each value in turn is moved left past every earlier value
/// greater than it. Returns the number of comparisons made.
pub fn insertion_sort(vec: &mut Vec<u64>) -> (count: u64)
    requires
        insertion_comparisons(old(vec)@) <= u64::MAX,
    ensures
        sorted(final(vec)@),
        permutation(final(vec)@, old(vec)@),
        count == insertion_comparisons(old(vec)@),
{
    let ghost orig = vec@;
    let n = vec.len();
    let mut count: u64 = 0;
    if n == 0 {
        return 0;
    }
    assert(orig.take(n as int) =~= orig);
    for i in 1..n
        invariant
            n == vec.len(),
            n == orig.len(),
            insertion_comparisons(orig) <= u64::MAX,
            count == insertion_comparisons(orig.take(i as int)),
            sorted(vec@.take(i as int)),
            permutation(vec@.take(i as int), orig.take(i as int)),
            vec@.skip(i as int) == orig.skip(i as int),
            orig.take(n as int) == orig,
    {
        let ghost pre = vec@;
        let ghost p = pre.take(i as int);
        let key = vec[i];
        assert(key == orig[i as int]) by {
            assert(pre.skip(i as int)[0] == orig.skip(i as int)[0]);
        }
        let mut j: usize = i - 1;
        let mut placed = false;
        proof {
            assert(orig.take(i + 1).drop_last() =~= orig.take(i as int));
            lemma_count_greater_permutation(p, orig.take(i as int), key);
            lemma_insertion_comparisons_monotone(orig, i + 1, n as int);
        }
        // hole at `j + 1`: the values of `p` after `j` have moved one place right
        while vec[j] > key
            invariant_except_break
                j < i,
                !placed,
                forall|k: int| 0 <= k <= j ==> vec@[k] == p[k],
                forall|k: int| j + 2 <= k <= i ==> vec@[k] == p[k - 1],
                forall|k: int| j + 1 <= k < i ==> p[k] > key,
                count == insertion_comparisons(orig.take(i as int)) + (i - 1 - j),
            invariant
                n == vec.len(),
                i < n,
                p == pre.take(i as int),
                p.len() == i,
                sorted(p),
                count_greater(p, key) + insertion_comparisons(orig.take(i as int)) + 1
                    == insertion_comparisons(orig.take(i + 1)),
                insertion_comparisons(orig.take(i + 1)) <= u64::MAX,
                forall|k: int| i < k < n ==> vec@[k] == pre[k],
            ensures
                placed ==> {
                    &&& vec@[0] == key
                    &&& forall|k: int| 1 <= k <= i ==> vec@[k] == p[k - 1]
                    &&& forall|k: int| 0 <= k < i ==> p[k] > key
                    &&& count == insertion_comparisons(orig.take(i as int)) + i
                },
                !placed ==> {
                    &&& j < i
                    &&& forall|k: int| 0 <= k <= j ==> vec@[k] == p[k]
                    &&& forall|k: int| j + 2 <= k <= i ==> vec@[k] == p[k - 1]
                    &&& forall|k: int| j + 1 <= k < i ==> p[k] > key
                    &&& p[j as int] <= key
                    &&& count == insertion_comparisons(orig.take(i as int)) + (i - 1 - j)
                },
            decreases j,
        {
            proof {
                lemma_count_greater_tail(p, j as int, key);
            }
            count += 1;
            let moved = vec[j];
            vec.set(j + 1, moved);
            match j.checked_sub(1) {
                Some(new_j) => j = new_j,
                None => {
                    vec.set(0, key);
                    placed = true;
                    break;
                },
            }
        }
        proof {
            let h: int = if placed { 0 } else { j + 1 };
            lemma_count_greater_split(p, h, key);
        }
        count += 1;
        if !placed {
            vec.set(j + 1, key);
        }
        proof {
            let h: int = if placed { 0 } else { j + 1 };
            assert(vec@.take(i + 1) =~= p.insert(h, key));
            assert(vec@.skip(i + 1) =~= orig.skip(i + 1)) by {
                assert forall|k: int| 0 <= k < vec@.skip(i + 1).len() implies
                    #[trigger] vec@.skip(i + 1)[k] == orig.skip(i + 1)[k] by {
                    assert(pre.skip(i as int)[k + 1] == orig.skip(i as int)[k + 1]);
                }
            }
            assert(orig.take(i + 1) =~= orig.take(i as int).push(key));
            assert(sorted(vec@.take(i + 1)));
        }
    }
    assert(vec@.take(n as int) =~= vec@);
    count
}

/// The merge of two sequences: repeatedly take the smaller front value,
/// the left one when they are equal.
pub open spec fn merge_seqs(a: Seq<u64>, b: Seq<u64>) -> Seq<u64>
    decreases a.len() + b.len(),
{
    if a.len() == 0 {
        b
    } else if b.len() == 0 {
        a
    } else if a[0] <= b[0] {
        seq![a[0]] + merge_seqs(a.drop_first(), b)
    } else {
        seq![b[0]] + merge_seqs(a, b.drop_first())
    }
}

/// The number of front-value comparisons made while merging `a` and `b`:
/// one per value taken while both sides are non-empty.
pub open spec fn merge_comparisons(a: Seq<u64>, b: Seq<u64>) -> nat
    decreases a.len() + b.len(),
{
    if a.len() == 0 || b.len() == 0 {
        0
    } else if a[0] <= b[0] {
        1 + merge_comparisons(a.drop_first(), b)
    } else {
        1 + merge_comparisons(a, b.drop_first())
    }
}

/// Length of the left half when a range of `n` values is split at its middle.
pub open spec fn left_half_len(n: int) -> int {
    (n + 1) / 2
}

/// Top-down merge sort of a whole sequence: sort both halves, then merge them.
pub open spec fn merge_sorted(s: Seq<u64>) -> Seq<u64>
    decreases s.len(),
{
    if s.len() <= 1 {
        s
    } else {
        let h = left_half_len(s.len() as int);
        merge_seqs(merge_sorted(s.take(h)), merge_sorted(s.skip(h)))
    }
}

/// The comparisons made by [`merge_sorted`].
pub open spec fn merge_sort_comparisons(s: Seq<u64>) -> nat
    decreases s.len(),
{
    if s.len() <= 1 {
        0
    } else {
        let h = left_half_len(s.len() as int);
        merge_sort_comparisons(s.take(h)) + merge_sort_comparisons(s.skip(h)) + merge_comparisons(
            merge_sorted(s.take(h)),
            merge_sorted(s.skip(h)),
        )
    }
}

/// Copies `vec[from..to]` into a new vector.
fn copy_range(vec: &Vec<u64>, from: usize, to: usize) -> (r: Vec<u64>)
    requires
        from <= to <= vec.len(),
    ensures
        r@ == vec@.subrange(from as int, to as int),
{
    let mut r: Vec<u64> = Vec::new();
    let mut k = from;
    while k < to
        invariant
            from <= k <= to <= vec.len(),
            r@ == vec@.subrange(from as int, k as int),
        decreases to - k,
    {
        r.push(vec[k]);
        k += 1;
        assert(r@ =~= vec@.subrange(from as int, k as int));
    }
    r
}

/// Merges the adjacent ranges `vec[l..=m]` and `vec[m+1..=r]` in place,
/// counting the comparisons in `count`.
pub fn merge(vec: &mut Vec<u64>, l: usize, m: usize, r: usize, count: &mut u64)
    requires
        l <= m + 1,
        m <= r,
        r < old(vec).len(),
        *old(count) + merge_comparisons(
            old(vec)@.subrange(l as int, m + 1),
            old(vec)@.subrange(m + 1, r + 1),
        ) <= u64::MAX,
    ensures
        final(vec)@.len() == old(vec)@.len(),
        final(vec)@.subrange(l as int, r + 1) == merge_seqs(
            old(vec)@.subrange(l as int, m + 1),
            old(vec)@.subrange(m + 1, r + 1),
        ),
        forall|k: int| 0 <= k < old(vec)@.len() && !(l <= k <= r) ==> final(vec)@[k] == old(vec)@[k],
        *final(count) == *old(count) + merge_comparisons(
            old(vec)@.subrange(l as int, m + 1),
            old(vec)@.subrange(m + 1, r + 1),
        ),
{
    let ghost orig = vec@;
    let ghost c0 = *count;
    let v_left = copy_range(vec, l, m + 1);
    let v_right = copy_range(vec, m + 1, r + 1);
    let ghost whole = merge_seqs(v_left@, v_right@);
    let ghost total = merge_comparisons(v_left@, v_right@);
    let mut i: usize = 0;
    let mut j: usize = 0;
    let mut k: usize = l;
    assert(v_left@.skip(0) =~= v_left@);
    assert(v_right@.skip(0) =~= v_right@);
    assert(vec@.subrange(l as int, l as int) =~= Seq::<u64>::empty());
    while i < v_left.len() && j < v_right.len()
        invariant
            vec@.len() == orig.len(),
            v_left@ == orig.subrange(l as int, m + 1),
            v_right@ == orig.subrange(m + 1, r + 1),
            v_left@.len() == m + 1 - l,
            orig.len() <= usize::MAX,
            v_right@.len() == r - m,
            l <= m + 1 <= r + 1 <= orig.len(),
            i <= v_left.len(),
            j <= v_right.len(),
            k == l + i + j,
            vec@.subrange(l as int, k as int) + merge_seqs(v_left@.skip(i as int), v_right@.skip(j as int)) == whole,
            *count + merge_comparisons(v_left@.skip(i as int), v_right@.skip(j as int)) == c0 + total,
            c0 + total <= u64::MAX,
            forall|x: int| 0 <= x < orig.len() && !(l <= x <= r) ==> vec@[x] == orig[x],
        decreases v_left.len() + v_right.len() - i - j,
    {
        let ghost a = v_left@.skip(i as int);
        let ghost b = v_right@.skip(j as int);
        let ghost prefix = vec@.subrange(l as int, k as int);
        *count += 1;
        if v_left[i] <= v_right[j] {
            vec.set(k, v_left[i]);
            i = i + 1;
            k = k + 1;
            assert(a.drop_first() =~= v_left@.skip(i as int));
            assert(vec@.subrange(l as int, k as int) =~= prefix.push(a[0]));
            assert(prefix.push(a[0]) + merge_seqs(a.drop_first(), b) =~= prefix + (seq![a[0]] + merge_seqs(a.drop_first(), b)));
        } else {
            vec.set(k, v_right[j]);
            j = j + 1;
            k = k + 1;
            assert(b.drop_first() =~= v_right@.skip(j as int));
            assert(vec@.subrange(l as int, k as int) =~= prefix.push(b[0]));
            assert(prefix.push(b[0]) + merge_seqs(a, b.drop_first()) =~= prefix + (seq![b[0]] + merge_seqs(a, b.drop_first())));
        }
    }
    while i < v_left.len()
        invariant
            vec@.len() == orig.len(),
            v_left@ == orig.subrange(l as int, m + 1),
            v_right@ == orig.subrange(m + 1, r + 1),
            v_left@.len() == m + 1 - l,
            orig.len() <= usize::MAX,
            v_right@.len() == r - m,
            l <= m + 1 <= r + 1 <= orig.len(),
            i <= v_left.len(),
            j <= v_right.len(),
            i < v_left.len() ==> j == v_right.len(),
            k == l + i + j,
            vec@.subrange(l as int, k as int) + merge_seqs(v_left@.skip(i as int), v_right@.skip(j as int)) == whole,
            *count + merge_comparisons(v_left@.skip(i as int), v_right@.skip(j as int)) == c0 + total,
            forall|x: int| 0 <= x < orig.len() && !(l <= x <= r) ==> vec@[x] == orig[x],
        decreases v_left.len() - i,
    {
        let ghost a = v_left@.skip(i as int);
        let ghost b = v_right@.skip(j as int);
        let ghost prefix = vec@.subrange(l as int, k as int);
        assert(b.len() == 0);
        vec.set(k, v_left[i]);
        i = i + 1;
        k = k + 1;
        assert(a =~= seq![a[0]] + a.drop_first());
        assert(a.drop_first() =~= v_left@.skip(i as int));
        assert(vec@.subrange(l as int, k as int) =~= prefix.push(a[0]));
        assert(prefix.push(a[0]) + a.drop_first() =~= prefix + a);
    }
    while j < v_right.len()
        invariant
            vec@.len() == orig.len(),
            v_left@ == orig.subrange(l as int, m + 1),
            v_right@ == orig.subrange(m + 1, r + 1),
            v_left@.len() == m + 1 - l,
            orig.len() <= usize::MAX,
            v_right@.len() == r - m,
            l <= m + 1 <= r + 1 <= orig.len(),
            i == v_left.len(),
            j <= v_right.len(),
            k == l + i + j,
            vec@.subrange(l as int, k as int) + merge_seqs(v_left@.skip(i as int), v_right@.skip(j as int)) == whole,
            *count + merge_comparisons(v_left@.skip(i as int), v_right@.skip(j as int)) == c0 + total,
            forall|x: int| 0 <= x < orig.len() && !(l <= x <= r) ==> vec@[x] == orig[x],
        decreases v_right.len() - j,
    {
        let ghost a = v_left@.skip(i as int);
        let ghost b = v_right@.skip(j as int);
        let ghost prefix = vec@.subrange(l as int, k as int);
        assert(a.len() == 0);
        vec.set(k, v_right[j]);
        j = j + 1;
        k = k + 1;
        assert(b =~= seq![b[0]] + b.drop_first());
        assert(b.drop_first() =~= v_right@.skip(j as int));
        assert(vec@.subrange(l as int, k as int) =~= prefix.push(b[0]));
        assert(prefix.push(b[0]) + b.drop_first() =~= prefix + b);
    }
    assert(v_left@.skip(i as int).len() == 0);
    assert(v_right@.skip(j as int).len() == 0);
    assert(merge_seqs(v_left@.skip(i as int), v_right@.skip(j as int)) =~= Seq::<u64>::empty());
    assert(vec@.subrange(l as int, k as int) + Seq::<u64>::empty() =~= vec@.subrange(l as int, k as int));
}

proof fn lemma_merge_lower_bound(a: Seq<u64>, b: Seq<u64>, lo: u64)
    requires
        forall|k: int| 0 <= k < a.len() ==> lo <= a[k],
        forall|k: int| 0 <= k < b.len() ==> lo <= b[k],
    ensures
        forall|k: int| 0 <= k < merge_seqs(a, b).len() ==> lo <= #[trigger] merge_seqs(a, b)[k],
    decreases a.len() + b.len(),
{
    if a.len() > 0 && b.len() > 0 {
        let m = merge_seqs(a, b);
        if a[0] <= b[0] {
            lemma_merge_lower_bound(a.drop_first(), b, lo);
            assert forall|k: int| 0 < k < m.len() implies lo <= #[trigger] m[k] by {
                assert(m[k] == merge_seqs(a.drop_first(), b)[k - 1]);
            }
        } else {
            lemma_merge_lower_bound(a, b.drop_first(), lo);
            assert forall|k: int| 0 < k < m.len() implies lo <= #[trigger] m[k] by {
                assert(m[k] == merge_seqs(a, b.drop_first())[k - 1]);
            }
        }
    }
}

/// Merging two sorted sequences gives a sorted sequence holding the values of both.
pub proof fn lemma_merge_correct(a: Seq<u64>, b: Seq<u64>)
    requires
        sorted(a),
        sorted(b),
    ensures
        sorted(merge_seqs(a, b)),
        merge_seqs(a, b).to_multiset() == a.to_multiset().add(b.to_multiset()),
        merge_seqs(a, b).len() == a.len() + b.len(),
    decreases a.len() + b.len(),
{
    broadcast use vstd::multiset::group_multiset_properties, vstd::seq_lib::lemma_multiset_commutative;

    if a.len() == 0 {
        assert(a.to_multiset() =~= Multiset::empty());
    } else if b.len() == 0 {
        assert(b.to_multiset() =~= Multiset::empty());
    } else if a[0] <= b[0] {
        let rest = a.drop_first();
        lemma_merge_correct(rest, b);
        lemma_merge_lower_bound(rest, b, a[0]);
        assert(a =~= seq![a[0]] + rest);
        let m = merge_seqs(a, b);
        assert(m == seq![a[0]] + merge_seqs(rest, b));
        assert forall|i: int, j: int| 0 <= i <= j < m.len() implies m[i] <= m[j] by {
            if i > 0 {
                assert(m[i] == merge_seqs(rest, b)[i - 1]);
                assert(m[j] == merge_seqs(rest, b)[j - 1]);
            } else {
                if j > 0 {
                    assert(m[j] == merge_seqs(rest, b)[j - 1]);
                }
            }
        }
        assert(seq![a[0]].to_multiset() =~= Multiset::empty().insert(a[0]));
    } else {
        let rest = b.drop_first();
        lemma_merge_correct(a, rest);
        lemma_merge_lower_bound(a, rest, b[0]);
        assert(b =~= seq![b[0]] + rest);
        let m = merge_seqs(a, b);
        assert(m == seq![b[0]] + merge_seqs(a, rest));
        assert forall|i: int, j: int| 0 <= i <= j < m.len() implies m[i] <= m[j] by {
            if i > 0 {
                assert(m[i] == merge_seqs(a, rest)[i - 1]);
                assert(m[j] == merge_seqs(a, rest)[j - 1]);
            } else {
                if j > 0 {
                    assert(m[j] == merge_seqs(a, rest)[j - 1]);
                }
            }
        }
        assert(seq![b[0]].to_multiset() =~= Multiset::empty().insert(b[0]));
    }
}

/// Merge sort yields a sorted permutation of its input.
pub proof fn lemma_merge_sorted_correct(s: Seq<u64>)
    ensures
        sorted(merge_sorted(s)),
        permutation(merge_sorted(s), s),
    decreases s.len(),
{
    broadcast use vstd::multiset::group_multiset_properties, vstd::seq_lib::lemma_multiset_commutative;

    if s.len() > 1 {
        let h = left_half_len(s.len() as int);
        lemma_merge_sorted_correct(s.take(h));
        lemma_merge_sorted_correct(s.skip(h));
        lemma_merge_correct(merge_sorted(s.take(h)), merge_sorted(s.skip(h)));
        assert(s =~= s.take(h) + s.skip(h));
    }
}

/// Sorts `vec[l..=r]` by top-down merge sort, counting the comparisons in `count`;
/// does nothing when `l >= r`.
pub fn merge_sort(vec: &mut Vec<u64>, l: usize, r: usize, count: &mut u64)
    requires
        l < r ==> r < old(vec).len(),
        l < r ==> *old(count) + merge_sort_comparisons(old(vec)@.subrange(l as int, r + 1))
            <= u64::MAX,
    ensures
        final(vec)@.len() == old(vec)@.len(),
        forall|k: int|
            0 <= k < old(vec)@.len() && !(l <= k <= r) ==> final(vec)@[k] == old(vec)@[k],
        l >= r ==> final(vec)@ == old(vec)@ && *final(count) == *old(count),
        l < r ==> final(vec)@.subrange(l as int, r + 1) == merge_sorted(
            old(vec)@.subrange(l as int, r + 1),
        ),
        l < r ==> *final(count) == *old(count) + merge_sort_comparisons(
            old(vec)@.subrange(l as int, r + 1),
        ),
    decreases r - l,
{
    if l >= r {
        return ;
    }
    let ghost v0 = vec@;
    let ghost sub = v0.subrange(l as int, r + 1);
    let ghost h = left_half_len(sub.len() as int);
    let m = l + (r - l) / 2;
    assert(m + 1 - l == h);
    assert(sub.take(h) =~= v0.subrange(l as int, m + 1));
    assert(sub.skip(h) =~= v0.subrange(m + 1, r + 1));
    let ghost c0 = *count;
    merge_sort(vec, l, m, count);
    let ghost v1 = vec@;
    assert(*count == c0 + merge_sort_comparisons(sub.take(h)));
    assert(v1.subrange(l as int, m + 1) == merge_sorted(sub.take(h))) by {
        if l == m {
            assert(sub.take(h).len() == 1);
        }
    }
    assert(v1.subrange(m + 1, r + 1) =~= sub.skip(h));
    merge_sort(vec, m + 1, r, count);
    let ghost v2 = vec@;
    assert(v2.subrange(m + 1, r + 1) == merge_sorted(sub.skip(h))) by {
        if m + 1 == r {
            assert(sub.skip(h).len() == 1);
        }
    }
    assert(*count == c0 + merge_sort_comparisons(sub.take(h)) + merge_sort_comparisons(sub.skip(h)));
    assert(v2.subrange(l as int, m + 1) =~= v1.subrange(l as int, m + 1));
    merge(vec, l, m, r, count);
}

/// A sorted permutation of a sequence is unique: whatever the algorithm,
/// two sorted arrays holding the same values are equal.
pub proof fn lemma_sorted_permutation_unique(a: Seq<u64>, b: Seq<u64>, s: Seq<u64>)
    requires
        sorted(a),
        permutation(a, s),
        sorted(b),
        permutation(b, s),
    ensures
        a == b,
{
    let leq = |x: u64, y: u64| x <= y;
    assert(vstd::relations::total_ordering(leq));
    assert(vstd::relations::sorted_by(a, leq));
    assert(vstd::relations::sorted_by(b, leq));
    vstd::seq_lib::lemma_sorted_unique(a, b, leq);
}

proof fn lemma_count_greater_len(s: Seq<u64>, x: u64)
    ensures
        count_greater(s, x) <= s.len(),
    decreases s.len(),
{
    if s.len() > 0 {
        lemma_count_greater_len(s.drop_last(), x);
    }
}

proof fn lemma_merge_comparisons_len(a: Seq<u64>, b: Seq<u64>)
    ensures
        merge_comparisons(a, b) <= a.len() + b.len(),
    decreases a.len() + b.len(),
{
    if a.len() > 0 && b.len() > 0 {
        if a[0] <= b[0] {
            lemma_merge_comparisons_len(a.drop_first(), b);
        } else {
            lemma_merge_comparisons_len(a, b.drop_first());
        }
    }
}

/// No algorithm makes more than `n * n` comparisons on `n` values.
pub proof fn lemma_comparisons_bounded(s: Seq<u64>)
    ensures
        bubble_comparisons(s.len()) <= s.len() * s.len(),
        insertion_comparisons(s) <= s.len() * s.len(),
        merge_sort_comparisons(s) <= s.len() * s.len(),
    decreases s.len(),
{
    let n = s.len();
    assert(bubble_comparisons(n) <= n * n) by (nonlinear_arith)
        requires
            bubble_comparisons(n) == (n * (n - 1) / 2) as nat,
    ;
    if n > 1 {
        let s0 = s.drop_last();
        lemma_comparisons_bounded(s0);
        lemma_count_greater_len(s0, s.last());
        let m: int = n - 1;
        assert(insertion_comparisons(s) <= n * n) by (nonlinear_arith)
            requires
                insertion_comparisons(s) == insertion_comparisons(s0) + count_greater(s0, s.last()) + 1,
                insertion_comparisons(s0) <= m * m,
                count_greater(s0, s.last()) <= m,
                n == m + 1,
        ;
        let h = left_half_len(n as int);
        let left = s.take(h);
        let right = s.skip(h);
        lemma_comparisons_bounded(left);
        lemma_comparisons_bounded(right);
        lemma_merge_sorted_correct(left);
        lemma_merge_sorted_correct(right);
        assert(merge_sorted(left).len() == left.len()) by {
            assert(merge_sorted(left).to_multiset().len() == left.to_multiset().len());
        }
        assert(merge_sorted(right).len() == right.len()) by {
            assert(merge_sorted(right).to_multiset().len() == right.to_multiset().len());
        }
        lemma_merge_comparisons_len(merge_sorted(left), merge_sorted(right));
        let a: int = left.len() as int;
        let b: int = right.len() as int;
        assert(merge_sort_comparisons(s) <= n * n) by (nonlinear_arith)
            requires
                merge_sort_comparisons(s) <= merge_sort_comparisons(left) + merge_sort_comparisons(right) + a + b,
                merge_sort_comparisons(left) <= a * a,
                merge_sort_comparisons(right) <= b * b,
                a >= 1,
                b >= 1,
                n == a + b,
        ;
    } else {
        assert(n * n >= 0) by (nonlinear_arith);
    }
}

/// On an array already in order, insertion sort compares each value after the
/// first exactly once, equal values included.
pub proof fn lemma_insertion_comparisons_sorted(s: Seq<u64>)
    requires
        sorted(s),
        s.len() >= 1,
    ensures
        insertion_comparisons(s) == s.len() - 1,
    decreases s.len(),
{
    if s.len() > 1 {
        let s0 = s.drop_last();
        assert(sorted(s0));
        lemma_insertion_comparisons_sorted(s0);
        lemma_count_greater_split(s0, s0.len() as int, s.last());
    }
}

/// How many values of `s` are below `x` (`strict`), or at most `x` (otherwise).
pub open spec fn count_below(s: Seq<u64>, x: u64, strict: bool) -> nat
    decreases s.len(),
{
    if s.len() == 0 {
        0
    } else {
        count_below(s.drop_first(), x, strict) + (if (strict && s[0] < x) || (!strict && s[0] <= x) {
            1nat
        } else {
            0nat
        })
    }
}

proof fn lemma_count_below_none(s: Seq<u64>, x: u64, strict: bool)
    requires
        forall|k: int| 0 <= k < s.len() ==> (if strict { s[k] >= x } else { s[k] > x }),
    ensures
        count_below(s, x, strict) == 0,
    decreases s.len(),
{
    if s.len() > 0 {
        assert forall|k: int| 0 <= k < s.drop_first().len() implies (if strict { s.drop_first()[k] >= x } else { s.drop_first()[k] > x }) by {
            assert(s.drop_first()[k] == s[k + 1]);
        }
        lemma_count_below_none(s.drop_first(), x, strict);
    }
}

/// How many comparisons a merge makes, whatever the ties: with sorted runs,
/// when the left run runs out first (its last value is at most the right's
/// last) it is the length of the left run plus the right values below that
/// last value; otherwise the length of the right run plus the left values at
/// most the right's last value. One comparison is made per value taken while
/// both runs are non-empty, equal front values included.
pub proof fn lemma_merge_comparisons_exact(a: Seq<u64>, b: Seq<u64>)
    requires
        sorted(a),
        sorted(b),
        a.len() > 0,
        b.len() > 0,
    ensures
        merge_comparisons(a, b) == (if a.last() <= b.last() {
            a.len() + count_below(b, a.last(), true)
        } else {
            b.len() + count_below(a, b.last(), false)
        }),
    decreases a.len() + b.len(),
{
    let a1 = a.drop_first();
    let b1 = b.drop_first();
    assert(sorted(a1)) by {
        assert forall|i: int, j: int| 0 <= i <= j < a1.len() implies a1[i] <= a1[j] by {
            assert(a1[i] == a[i + 1] && a1[j] == a[j + 1]);
        }
    }
    assert(sorted(b1)) by {
        assert forall|i: int, j: int| 0 <= i <= j < b1.len() implies b1[i] <= b1[j] by {
            assert(b1[i] == b[i + 1] && b1[j] == b[j + 1]);
        }
    }
    if a[0] <= b[0] {
        assert(merge_comparisons(a, b) == 1 + merge_comparisons(a1, b));
        if a1.len() == 0 {
            assert(merge_comparisons(a1, b) == 0);
            assert(a.last() == a[0]);
            assert(a.last() <= b.last());
            lemma_count_below_none(b, a.last(), true);
        } else {
            lemma_merge_comparisons_exact(a1, b);
            assert(a1.last() == a.last());
            if !(a.last() <= b.last()) {
                assert(b[0] <= b.last());
                assert(count_below(a, b.last(), false) == count_below(a1, b.last(), false) + 1);
            }
        }
    } else {
        assert(merge_comparisons(a, b) == 1 + merge_comparisons(a, b1));
        if b1.len() == 0 {
            assert(merge_comparisons(a, b1) == 0);
            assert(b.last() == b[0]);
            assert(a.last() > b.last()) by {
                assert(a[0] <= a.last());
            }
            lemma_count_below_none(a, b.last(), false);
        } else {
            lemma_merge_comparisons_exact(a, b1);
            assert(b1.last() == b.last());
            if a.last() <= b.last() {
                assert(a[0] <= a.last());
                assert(count_below(b, a.last(), true) == count_below(b1, a.last(), true) + 1);
            }
        }
    }
}

/// `⌈log2 n⌉`: how many times `n` values are halved (rounding up) before one is left.
pub open spec fn ceil_log2(n: nat) -> nat
    decreases n,
{
    if n <= 1 {
        0
    } else {
        1 + ceil_log2(((n + 1) / 2) as nat)
    }
}

proof fn lemma_ceil_log2_monotone(x: nat, y: nat)
    requires
        x <= y,
    ensures
        ceil_log2(x) <= ceil_log2(y),
    decreases y,
{
    if x > 1 {
        lemma_ceil_log2_monotone(((x + 1) / 2) as nat, ((y + 1) / 2) as nat);
    }
}

/// Merge sort makes at most `n * ⌈log2 n⌉` comparisons on `n` values.
pub proof fn lemma_merge_sort_comparisons_nlogn(s: Seq<u64>)
    ensures
        merge_sort_comparisons(s) <= s.len() * ceil_log2(s.len()),
    decreases s.len(),
{
    let n = s.len();
    if n > 1 {
        let h = left_half_len(n as int);
        let left = s.take(h);
        let right = s.skip(h);
        lemma_merge_sort_comparisons_nlogn(left);
        lemma_merge_sort_comparisons_nlogn(right);
        lemma_merge_sorted_correct(left);
        lemma_merge_sorted_correct(right);
        assert(merge_sorted(left).len() == left.len()) by {
            assert(merge_sorted(left).to_multiset().len() == left.to_multiset().len());
        }
        assert(merge_sorted(right).len() == right.len()) by {
            assert(merge_sorted(right).to_multiset().len() == right.to_multiset().len());
        }
        lemma_merge_comparisons_len(merge_sorted(left), merge_sorted(right));
        let a: nat = left.len();
        let b: nat = right.len();
        assert(a == ((n + 1) / 2) as nat);
        lemma_ceil_log2_monotone(b, a);
        let ca = ceil_log2(a);
        let cb = ceil_log2(b);
        assert(ceil_log2(n) == 1 + ca);
        assert(merge_sort_comparisons(s) <= n * ceil_log2(n)) by (nonlinear_arith)
            requires
                merge_sort_comparisons(s) <= merge_sort_comparisons(left) + merge_sort_comparisons(right) + a + b,
                merge_sort_comparisons(left) <= a * ca,
                merge_sort_comparisons(right) <= b * cb,
                cb <= ca,
                n == a + b,
                ceil_log2(n) == 1 + ca,
        ;
    }
}

#[verifier::external_type_specification]
#[verifier::external_body]
pub struct ExSystemTime(std::time::SystemTime);

/// Reads the system clock through `std::time::SystemTime::now`. Nothing is
/// stated of the value: it depends on the clock.
#[verifier::external_body]
fn clock_now() -> std::time::SystemTime {
    std::time::SystemTime::now()
}

/// `SystemTime::duration_since(UNIX_EPOCH)`: the time elapsed since the Unix
/// epoch, `None` where the clock stands before it. Nothing is stated of the value.
#[verifier::external_body]
fn since_epoch(t: &std::time::SystemTime) -> Option<std::time::Duration> {
    t.duration_since(std::time::UNIX_EPOCH).ok()
}

/// `Duration::as_micros`: the whole microseconds of `d`. Stated: no more than
/// a `Duration` can hold (`u64::MAX` seconds and 999 999 999 nanoseconds).
#[verifier::external_body]
fn duration_micros(d: &std::time::Duration) -> (r: u128)
    ensures
        r < 18446744073709551616000000,
{
    d.as_micros()
}

/// `Duration::as_millis`: the whole milliseconds of `d`. Stated: no more than
/// a `Duration` can hold (`u64::MAX` seconds and 999 999 999 nanoseconds).
#[verifier::external_body]
fn duration_millis(d: &std::time::Duration) -> (r: u128)
    ensures
        r < 18446744073709551616000,
{
    d.as_millis()
}

/// Microseconds since the Unix epoch by the system clock (0 if the clock
/// stands before the epoch). Of the value only its bound is stated: it depends
/// on the clock.
pub fn time() -> (r: u128)
    ensures
        r < 18446744073709551616000000,
{
    let now = clock_now();
    match since_epoch(&now) {
        Some(d) => duration_micros(&d),
        None => 0,
    }
}

/// Milliseconds since the Unix epoch by the system clock (0 if the clock
/// stands before the epoch). Of the value only its bound is stated: it depends
/// on the clock.
pub fn time_millis() -> (r: u128)
    ensures
        r < 18446744073709551616000,
{
    let now = clock_now();
    match since_epoch(&now) {
        Some(d) => duration_millis(&d),
        None => 0,
    }
}

/// The time between two clock readings; 0 where the clock went backwards.
pub fn elapsed(start: u128, end: u128) -> (r: u128)
    ensures
        r == (if end >= start { end - start } else { 0 }),
{
    if end >= start {
        end - start
    } else {
        0
    }
}

/// A sorting algorithm that can be timed and whose comparisons are counted.
pub trait Sorter {
    /// The arrays this algorithm can sort without its counter overflowing.
    spec fn accepts(&self, s: Seq<u64>) -> bool;

    /// The number of comparisons the algorithm makes on `s`.
    spec fn comparisons(&self, s: Seq<u64>) -> nat;

    /// The algorithm's kind, as reported in the statistics.
    spec fn algo(&self) -> AlgoType;

    /// Sorts `tab` in place and reports, under `name`, the algorithm, the time
    /// the sort took in microseconds and the number of comparisons.
    fn sorting(&self, tab: &mut Vec<u64>, name: &String) -> (stats: StatsMessage)
        requires
            self.accepts(old(tab)@),
        ensures
            sorted(final(tab)@),
            permutation(final(tab)@, old(tab)@),
            stats.name@ == name@,
            stats.type_algo == self.algo(),
            stats.result.1 == self.comparisons(old(tab)@),
            stats.result.0 < 18446744073709551616000000,
    ;
}

pub struct BubbleSorter;

pub struct InsertionSorter;

pub struct MergeSorter;

impl Sorter for BubbleSorter {
    open spec fn accepts(&self, s: Seq<u64>) -> bool {
        s.len() >= 1 && bubble_comparisons(s.len()) <= u64::MAX
    }

    open spec fn comparisons(&self, s: Seq<u64>) -> nat {
        bubble_comparisons(s.len())
    }

    open spec fn algo(&self) -> AlgoType {
        AlgoType::Bubblesort
    }

    fn sorting(&self, vec: &mut Vec<u64>, name: &String) -> (stats: StatsMessage) {
        let start = time();
        let count = bubble_sort(vec);
        let end = time();
        StatsMessage {
            name: name.clone(),
            type_algo: AlgoType::Bubblesort,
            result: (elapsed(start, end), count),
        }
    }
}

impl Sorter for InsertionSorter {
    open spec fn accepts(&self, s: Seq<u64>) -> bool {
        insertion_comparisons(s) <= u64::MAX
    }

    open spec fn comparisons(&self, s: Seq<u64>) -> nat {
        insertion_comparisons(s)
    }

    open spec fn algo(&self) -> AlgoType {
        AlgoType::Insertionsort
    }

    fn sorting(&self, vec: &mut Vec<u64>, name: &String) -> (stats: StatsMessage) {
        let start = time();
        let count = insertion_sort(vec);
        let end = time();
        StatsMessage {
            name: name.clone(),
            type_algo: AlgoType::Insertionsort,
            result: (elapsed(start, end), count),
        }
    }
}

impl Sorter for MergeSorter {
    open spec fn accepts(&self, s: Seq<u64>) -> bool {
        s.len() >= 1 && merge_sort_comparisons(s) <= u64::MAX
    }

    open spec fn comparisons(&self, s: Seq<u64>) -> nat {
        merge_sort_comparisons(s)
    }

    open spec fn algo(&self) -> AlgoType {
        AlgoType::Mergesort
    }

    fn sorting(&self, vec: &mut Vec<u64>, name: &String) -> (stats: StatsMessage) {
        let ghost orig = vec@;
        let start = time();
        let l: usize = 0;
        let r: usize = vec.len() - 1;
        let mut count: u64 = 0;
        assert(orig.subrange(0, r + 1) =~= orig);
        merge_sort(vec, l, r, &mut count);
        proof {
            if l < r {
                assert(vec@.subrange(0, r + 1) =~= vec@);
            } else {
                assert(orig.len() == 1);
            }
            lemma_merge_sorted_correct(orig);
        }
        let end = time();
        StatsMessage {
            name: name.clone(),
            type_algo: AlgoType::Mergesort,
            result: (elapsed(start, end), count),
        }
    }
}

} // verus!
