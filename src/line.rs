//! One line of the grid: compaction, merging and settling toward index 3.
use vstd::prelude::*;

verus! {

/// The values of a line as mathematical integers.
pub open spec fn line_seq(a: [i32; 4]) -> Seq<int> {
    a@.map_values(|v: i32| v as int)
}

/// The non-empty values of `s`, in order.
pub open spec fn nonzeros(s: Seq<int>) -> Seq<int>
    decreases s.len(),
{
    if s.len() == 0 {
        Seq::empty()
    } else if s[0] == 0 {
        nonzeros(s.drop_first())
    } else {
        seq![s[0]] + nonzeros(s.drop_first())
    }
}

/// `t` preceded by enough empty cells to have length `n`.
pub open spec fn pad(t: Seq<int>, n: nat) -> Seq<int> {
    Seq::new((n - t.len()) as nat, |i: int| 0int) + t
}

/// Sum of the values of a sequence.
pub open spec fn seq_sum(s: Seq<int>) -> int
    decreases s.len(),
{
    if s.len() == 0 {
        0
    } else {
        s[0] + seq_sum(s.drop_first())
    }
}

pub open spec fn all_nonneg(s: Seq<int>) -> bool {
    forall|i: int| 0 <= i < s.len() ==> s[i] >= 0
}

/// `v` is a power of two: 1, 2, 4, 8, ...
pub open spec fn is_pow2(v: int) -> bool
    decreases v,
{
    if v <= 0 {
        false
    } else if v == 1 {
        true
    } else {
        v % 2 == 0 && is_pow2(v / 2)
    }
}

/// Every value is empty or a power of two.
pub open spec fn tile_values(s: Seq<int>) -> bool {
    forall|i: int| 0 <= i < s.len() ==> s[i] == 0 || is_pow2(#[trigger] s[i])
}

pub open spec fn no_zeros(s: Seq<int>) -> bool {
    forall|i: int| 0 <= i < s.len() ==> s[i] != 0
}

/// A line whose values are non-negative and whose sum fits in an `i32`.
pub open spec fn line_ok(a: [i32; 4]) -> bool {
    &&& a[0] >= 0 && a[1] >= 0 && a[2] >= 0 && a[3] >= 0
    &&& a[0] + a[1] + a[2] + a[3] <= i32::MAX
}

pub proof fn lemma_line_ok(a: [i32; 4])
    ensures
        seq_sum(line_seq(a)) == a[0] + a[1] + a[2] + a[3],
        line_ok(a) <==> all_nonneg(line_seq(a)) && seq_sum(line_seq(a)) <= i32::MAX,
{
    reveal_with_fuel(seq_sum, 5);
    let s = line_seq(a);
    assert(s.drop_first().drop_first().drop_first().drop_first() =~= Seq::<int>::empty());
    assert(s.drop_first()[0] == s[1]);
    assert(s.drop_first().drop_first()[0] == s[2]);
    assert(s.drop_first().drop_first().drop_first()[0] == s[3]);
    assert(s[0] == a[0] && s[1] == a[1] && s[2] == a[2] && s[3] == a[3]);
}

pub proof fn lemma_nonzeros_props(s: Seq<int>)
    ensures
        nonzeros(s).len() <= s.len(),
        no_zeros(nonzeros(s)),
        seq_sum(nonzeros(s)) == seq_sum(s),
        all_nonneg(s) ==> all_nonneg(nonzeros(s)),
        tile_values(s) ==> tile_values(nonzeros(s)),
    decreases s.len(),
{
    if s.len() > 0 {
        lemma_nonzeros_props(s.drop_first());
        let r = nonzeros(s.drop_first());
        if s[0] != 0 {
            assert((seq![s[0]] + r).drop_first() =~= r);
        }
    }
}

pub proof fn lemma_nonzeros_of_zero_free(t: Seq<int>)
    requires
        no_zeros(t),
    ensures
        nonzeros(t) == t,
    decreases t.len(),
{
    if t.len() > 0 {
        lemma_nonzeros_of_zero_free(t.drop_first());
        assert(seq![t[0]] + t.drop_first() =~= t);
    }
}

proof fn lemma_nonzeros_of_pad(t: Seq<int>, k: nat)
    requires
        no_zeros(t),
    ensures
        nonzeros(Seq::new(k, |i: int| 0int) + t) == t,
    decreases k,
{
    let p = Seq::new(k, |i: int| 0int) + t;
    if k == 0 {
        assert(p =~= t);
        lemma_nonzeros_of_zero_free(t);
    } else {
        assert(p.drop_first() =~= Seq::new((k - 1) as nat, |i: int| 0int) + t);
        lemma_nonzeros_of_pad(t, (k - 1) as nat);
    }
}

proof fn lemma_sum_of_pad(t: Seq<int>, k: nat)
    ensures
        seq_sum(Seq::new(k, |i: int| 0int) + t) == seq_sum(t),
    decreases k,
{
    let p = Seq::new(k, |i: int| 0int) + t;
    if k == 0 {
        assert(p =~= t);
    } else {
        assert(p.drop_first() =~= Seq::new((k - 1) as nat, |i: int| 0int) + t);
        lemma_sum_of_pad(t, (k - 1) as nat);
    }
}

/// Compacting keeps the non-empty values and their sum.
pub proof fn lemma_pad_nonzeros(s: Seq<int>, n: nat)
    requires
        s.len() <= n,
    ensures
        nonzeros(pad(nonzeros(s), n)) == nonzeros(s),
        seq_sum(pad(nonzeros(s), n)) == seq_sum(s),
        pad(nonzeros(s), n).len() == n,
        all_nonneg(s) ==> all_nonneg(pad(nonzeros(s), n)),
{
    lemma_nonzeros_props(s);
    lemma_nonzeros_of_pad(nonzeros(s), (n - nonzeros(s).len()) as nat);
    lemma_sum_of_pad(nonzeros(s), (n - nonzeros(s).len()) as nat);
}


/// Some two neighbouring values of `t` are equal.
pub open spec fn has_adjacent_equal(t: Seq<int>) -> bool {
    exists|i: int| 0 <= i < t.len() - 1 && #[trigger] t[i] == t[i + 1]
}

/// One merge pass over compacted values, the near end being the last index:
/// scanning from the near end, each pair of equal neighbours becomes one
/// value of double size, and a merged value takes no further part in the pass.
pub open spec fn merge_pass(t: Seq<int>) -> Seq<int>
    decreases t.len(),
{
    if t.len() < 2 {
        t
    } else if t[t.len() - 2] == t[t.len() - 1] {
        merge_pass(t.subrange(0, t.len() - 2)).push(2 * t[t.len() - 1])
    } else {
        merge_pass(t.drop_last()).push(t.last())
    }
}

/// Merge passes repeated until no two neighbouring values are equal.
pub open spec fn settle(t: Seq<int>) -> Seq<int>
    decreases t.len(),
    via settle_decreases
{
    if has_adjacent_equal(t) {
        settle(merge_pass(t))
    } else {
        t
    }
}

#[via_fn]
proof fn settle_decreases(t: Seq<int>) {
    if has_adjacent_equal(t) {
        lemma_merge_pass(t);
    }
}

/// The line after sliding and merging toward its last index.
pub open spec fn reduced(s: Seq<int>) -> Seq<int> {
    pad(settle(nonzeros(s)), s.len())
}

pub proof fn lemma_merge_pass(t: Seq<int>)
    ensures
        merge_pass(t).len() <= t.len(),
        has_adjacent_equal(t) ==> merge_pass(t).len() < t.len(),
        !has_adjacent_equal(t) ==> merge_pass(t) == t,
        seq_sum(merge_pass(t)) == seq_sum(t),
        all_nonneg(t) ==> all_nonneg(merge_pass(t)),
        no_zeros(t) ==> no_zeros(merge_pass(t)),
        tile_values(t) ==> tile_values(merge_pass(t)),
    decreases t.len(),
{
    if t.len() >= 2 {
        let n = t.len();
        if t[n - 2] == t[n - 1] {
            let u = t.subrange(0, n - 2);
            lemma_merge_pass(u);
            lemma_sum_push(merge_pass(u), 2 * t[n - 1]);
            if is_pow2(t[n - 1]) {
                assert(is_pow2(2 * t[n - 1]));
            }
            lemma_sum_push(u, t[n - 2]);
            assert(u.push(t[n - 2]) =~= t.drop_last());
            lemma_sum_push(t.drop_last(), t[n - 1]);
            assert(t.drop_last().push(t[n - 1]) =~= t);
            assert(has_adjacent_equal(t));
        } else {
            let u = t.drop_last();
            lemma_merge_pass(u);
            lemma_sum_push(merge_pass(u), t[n - 1]);
            lemma_sum_push(u, t[n - 1]);
            assert(u.push(t[n - 1]) =~= t);
            if has_adjacent_equal(t) {
                let i = choose|i: int| 0 <= i < t.len() - 1 && #[trigger] t[i] == t[i + 1];
                assert(u[i] == u[i + 1]);
            }
            if !has_adjacent_equal(t) {
                assert(!has_adjacent_equal(u)) by {
                    if has_adjacent_equal(u) {
                        let i = choose|i: int| 0 <= i < u.len() - 1 && #[trigger] u[i] == u[i + 1];
                        assert(t[i] == t[i + 1]);
                    }
                }
            }
        }
    }
}

pub proof fn lemma_sum_push(t: Seq<int>, v: int)
    ensures
        seq_sum(t.push(v)) == seq_sum(t) + v,
    decreases t.len(),
{
    if t.len() == 0 {
        assert(t.push(v).drop_first() =~= Seq::<int>::empty());
        assert(seq_sum(t.push(v).drop_first()) == 0);
        assert(t.push(v)[0] == v);
    } else {
        lemma_sum_push(t.drop_first(), v);
        assert(t.push(v).drop_first() =~= t.drop_first().push(v));
        assert(t.push(v)[0] == t[0]);
    }
}

pub proof fn lemma_settle(t: Seq<int>)
    ensures
        !has_adjacent_equal(settle(t)),
        settle(t).len() <= t.len(),
        seq_sum(settle(t)) == seq_sum(t),
        all_nonneg(t) ==> all_nonneg(settle(t)),
        no_zeros(t) ==> no_zeros(settle(t)),
        tile_values(t) ==> tile_values(settle(t)),
        !has_adjacent_equal(t) ==> settle(t) == t,
    decreases t.len(),
{
    lemma_merge_pass(t);
    if has_adjacent_equal(t) {
        lemma_settle(merge_pass(t));
    }
}

/// A compacted line: all empty cells lie before the non-empty ones.
pub open spec fn compacted(s: Seq<int>) -> bool {
    s == pad(nonzeros(s), s.len())
}

/// Step `i` of a merge pass: when cell `i` is non-empty and equals its
/// nearer neighbour `i + 1`, cell `i` is cleared and the neighbour doubled.
pub open spec fn merge_at(s: Seq<int>, i: int) -> Seq<int> {
    if s[i] != 0 && s[i] == s[i + 1] {
        s.update(i, 0).update(i + 1, 2 * s[i + 1])
    } else {
        s
    }
}

/// One merge pass over a line of four cells, the steps taken at index 2,
/// then 1, then 0.
pub open spec fn combined(s: Seq<int>) -> Seq<int> {
    merge_at(merge_at(merge_at(s, 2), 1), 0)
}

/// On a compacted line, the pass cell by cell is the merge pass over its
/// non-empty values.
proof fn lemma_combined_compacted(s: Seq<int>)
    requires
        s.len() == 4,
        compacted(s),
    ensures
        nonzeros(combined(s)) == merge_pass(nonzeros(s)),
{
    let t = nonzeros(s);
    reveal_with_fuel(nonzeros, 5);
    reveal_with_fuel(merge_pass, 4);
    lemma_nonzeros_props(s);
    assert(s =~= seq![s[0], s[1], s[2], s[3]]);
    assert(t.len() <= 4);
    if t.len() == 4 {
        assert(t =~= s);
        assert(t.subrange(0, 2) =~= seq![s[0], s[1]]);
        assert(t.subrange(0, 3) =~= seq![s[0], s[1], s[2]]);
        assert(t.subrange(0, 2).drop_last() =~= seq![s[0]]);
        assert(t.subrange(0, 3).drop_last() =~= seq![s[0], s[1]]);
        assert(t.subrange(0, 3).subrange(0, 1) =~= seq![s[0]]);
        assert(t.drop_last() =~= seq![s[0], s[1], s[2]]);
        assert(t.drop_last().drop_last() =~= seq![s[0], s[1]]);
        assert(t.drop_last().subrange(0, 1) =~= seq![s[0]]);
        assert(t.drop_last().drop_last().drop_last() =~= seq![s[0]]);
    } else if t.len() == 3 {
        assert(t =~= seq![s[1], s[2], s[3]]);
        assert(s[0] == 0);
        assert(t.subrange(0, 1) =~= seq![s[1]]);
        assert(t.drop_last() =~= seq![s[1], s[2]]);
        assert(t.drop_last().drop_last() =~= seq![s[1]]);
    } else if t.len() == 2 {
        assert(t =~= seq![s[2], s[3]]);
        assert(s[0] == 0 && s[1] == 0);
        assert(t.drop_last() =~= seq![s[2]]);
    } else if t.len() == 1 {
        assert(t =~= seq![s[3]]);
    }
    let r = combined(s);
    assert(r =~= seq![r[0], r[1], r[2], r[3]]);
}

/// One merge pass, scanning from index 2 back to index 0: a non-empty value
/// equal to its nearer neighbour is cleared and the neighbour doubled.
pub fn combine_dupes(arr: &mut [i32; 4])
    requires
        line_ok(*old(arr)),
    ensures
        line_seq(*final(arr)) == combined(line_seq(*old(arr))),
        line_ok(*final(arr)),
        seq_sum(line_seq(*final(arr))) == seq_sum(line_seq(*old(arr))),
{
    let ghost s0 = line_seq(*arr);
    proof {
        lemma_line_ok(*arr);
    }
    if arr[2] != 0 && arr[2] == arr[3] {
        arr[2] = 0;
        arr[3] = arr[3] * 2;
    }
    proof {
        assert(line_seq(*arr) =~= merge_at(s0, 2));
    }
    let ghost s1 = line_seq(*arr);
    if arr[1] != 0 && arr[1] == arr[2] {
        arr[1] = 0;
        arr[2] = arr[2] * 2;
    }
    proof {
        assert(line_seq(*arr) =~= merge_at(s1, 1));
    }
    let ghost s2 = line_seq(*arr);
    if arr[0] != 0 && arr[0] == arr[1] {
        arr[0] = 0;
        arr[1] = arr[1] * 2;
    }
    proof {
        assert(line_seq(*arr) =~= merge_at(s2, 0));
        lemma_line_ok(*arr);
    }
}

/// A settled line: compacted toward its last index, and no two neighbouring
/// non-empty values equal.
pub open spec fn is_settled(s: Seq<int>) -> bool {
    compacted(s) && !has_adjacent_equal(nonzeros(s))
}

pub proof fn lemma_reduced_parts(s: Seq<int>)
    ensures
        reduced(s).len() == s.len(),
        nonzeros(reduced(s)) == settle(nonzeros(s)),
        settle(nonzeros(s)).len() <= nonzeros(s).len(),
        !has_adjacent_equal(settle(nonzeros(s))),
{
    lemma_nonzeros_props(s);
    lemma_settle(nonzeros(s));
    let t = settle(nonzeros(s));
    lemma_nonzeros_of_pad(t, (s.len() - t.len()) as nat);
}

/// Reducing a line that is already settled gives it back unchanged.
pub proof fn lemma_settled_line_unchanged(s: Seq<int>)
    requires
        is_settled(s),
    ensures
        reduced(s) == s,
{
    lemma_settle(nonzeros(s));
}

/// A reduction in which no two tiles merge keeps the non-empty values of
/// the line, in the same order, and so the same multiset of them.
pub proof fn lemma_no_merge_conserves(s: Seq<int>)
    requires
        nonzeros(reduced(s)).len() == nonzeros(s).len(),
    ensures
        nonzeros(reduced(s)) == nonzeros(s),
        nonzeros(reduced(s)).to_multiset() == nonzeros(s).to_multiset(),
{
    lemma_reduced_parts(s);
    let t = nonzeros(s);
    if has_adjacent_equal(t) {
        lemma_merge_pass(t);
        lemma_settle(merge_pass(t));
        assert(false);
    }
    lemma_settle(t);
}

/// The result of a reduction is settled: in particular no two neighbouring
/// non-empty cells of it hold equal values.
pub proof fn lemma_reduced_is_settled(s: Seq<int>)
    ensures
        is_settled(reduced(s)),
        forall|j: int|
            0 <= j < s.len() - 1 && reduced(s)[j] != 0 ==> #[trigger] reduced(s)[j] != reduced(
                s,
            )[j + 1],
{
    lemma_reduced_parts(s);
    let t = settle(nonzeros(s));
    let r = reduced(s);
    let k = s.len() - t.len();
    assert forall|j: int| 0 <= j < s.len() - 1 && r[j] != 0 implies #[trigger] r[j] != r[j + 1] by {
        assert(j >= k);
        assert(r[j] == t[j - k] && r[j + 1] == t[j - k + 1]);
    }
}

/// A reduction never adds a tile, and keeps the sum of the line's values.
pub proof fn lemma_reduce_keeps_sum(s: Seq<int>)
    ensures
        nonzeros(reduced(s)).len() <= nonzeros(s).len(),
        seq_sum(reduced(s)) == seq_sum(s),
{
    lemma_reduced_parts(s);
    lemma_nonzeros_props(s);
    lemma_settle(nonzeros(s));
    let t = settle(nonzeros(s));
    lemma_sum_of_pad(t, (s.len() - t.len()) as nat);
}

/// A reduction of a line whose values are empty or powers of two gives a
/// line of the same kind.
pub proof fn lemma_reduce_keeps_tile_values(s: Seq<int>)
    requires
        tile_values(s),
    ensures
        tile_values(reduced(s)),
{
    lemma_nonzeros_props(s);
    lemma_settle(nonzeros(s));
    lemma_reduced_parts(s);
    let t = settle(nonzeros(s));
    let k = s.len() - t.len();
    assert forall|j: int| 0 <= j < s.len() implies reduced(s)[j] == 0 || is_pow2(
        #[trigger] reduced(s)[j],
    ) by {
        if j >= k {
            assert(reduced(s)[j] == t[j - k]);
        }
    }
}

/// Moves the non-empty values toward index 3, keeping their order.
fn shift_zeroes_left(arr: &mut [i32; 4])
    ensures
        line_seq(*final(arr)) == pad(nonzeros(line_seq(*old(arr))), 4),
{
    let src: [i32; 4] = *arr;
    let ghost s = line_seq(src);
    let mut out: [i32; 4] = [0, 0, 0, 0];
    let mut i: usize = 4;
    let mut k: usize = 4;
    proof {
        assert(s.subrange(4, 4) =~= Seq::<int>::empty());
    }
    while i > 0
        invariant
            i <= k <= 4,
            s == line_seq(src),
            k + nonzeros(s.subrange(i as int, 4)).len() == 4,
            line_seq(out).subrange(k as int, 4) =~= nonzeros(s.subrange(i as int, 4)),
            forall|j: int| 0 <= j < k ==> out[j] == 0,
        decreases i,
    {
        i = i - 1;
        proof {
            assert(s.subrange(i as int, 4).drop_first() =~= s.subrange(i + 1, 4));
            lemma_nonzeros_props(s.subrange(i + 1, 4));
        }
        if src[i] != 0 {
            k = k - 1;
            out[k] = src[i];
            proof {
                assert(line_seq(out).subrange(k as int, 4) =~= seq![s[i as int]] + nonzeros(
                    s.subrange(i + 1, 4),
                ));
            }
        }
    }
    proof {
        assert(s.subrange(0, 4) =~= s);
        assert(line_seq(out) =~= pad(nonzeros(s), 4));
    }
    *arr = out;
}

pub proof fn lemma_nonzeros_append(a: Seq<int>, b: Seq<int>)
    ensures
        nonzeros(a + b) == nonzeros(a) + nonzeros(b),
    decreases a.len(),
{
    if a.len() == 0 {
        assert(a + b =~= b);
        assert(nonzeros(a) + nonzeros(b) =~= nonzeros(b));
    } else {
        lemma_nonzeros_append(a.drop_first(), b);
        assert((a + b).drop_first() =~= a.drop_first() + b);
        assert((a + b)[0] == a[0]);
        if a[0] != 0 {
            assert(seq![a[0]] + (nonzeros(a.drop_first()) + nonzeros(b)) =~= (seq![a[0]]
                + nonzeros(a.drop_first())) + nonzeros(b));
        }
    }
}

proof fn lemma_nonzeros_take(s: Seq<int>, i: int)
    requires
        0 <= i < s.len(),
    ensures
        nonzeros(s.take(i + 1)) == if s[i] == 0 {
            nonzeros(s.take(i))
        } else {
            nonzeros(s.take(i)).push(s[i])
        },
{
    reveal_with_fuel(nonzeros, 2);
    assert(s.take(i + 1) =~= s.take(i) + seq![s[i]]);
    lemma_nonzeros_append(s.take(i), seq![s[i]]);
    assert(seq![s[i]].drop_first() =~= Seq::<int>::empty());
    if s[i] != 0 {
        assert(nonzeros(seq![s[i]]) =~= seq![s[i]]);
    } else {
        assert(nonzeros(s.take(i)) + nonzeros(seq![s[i]]) =~= nonzeros(s.take(i)));
    }
    assert(nonzeros(s.take(i)).push(s[i]) =~= nonzeros(s.take(i)) + seq![s[i]]);
}

/// Tells whether two non-empty values of the line would meet once the empty
/// cells between them are removed.
fn has_adjacent_dupes(arr: &[i32; 4]) -> (r: bool)
    ensures
        r == has_adjacent_equal(nonzeros(line_seq(*arr))),
{
    let ghost s = line_seq(*arr);
    let mut prev: i32 = 0;
    let mut i: usize = 0;
    proof {
        assert(s.take(0) =~= Seq::<int>::empty());
    }
    while i < 4
        invariant
            i <= 4,
            s == line_seq(*arr),
            nonzeros(s.take(i as int)).len() == 0 ==> prev == 0,
            nonzeros(s.take(i as int)).len() > 0 ==> prev == nonzeros(s.take(i as int)).last(),
            !has_adjacent_equal(nonzeros(s.take(i as int))),
        decreases 4 - i,
    {
        proof {
            lemma_nonzeros_take(s, i as int);
            lemma_nonzeros_props(s.take(i as int));
        }
        let ghost t = nonzeros(s.take(i as int));
        if arr[i] != 0 {
            if arr[i] == prev {
                proof {
                    let u = t.push(s[i as int]);
                    assert(u[t.len() - 1] == u[t.len() as int]);
                    assert(s =~= s.take(i + 1) + s.subrange(i + 1, 4));
                    lemma_nonzeros_append(s.take(i + 1), s.subrange(i + 1, 4));
                    let w = nonzeros(s);
                    assert(w[t.len() - 1] == u[t.len() - 1]);
                    assert(w[t.len() as int] == u[t.len() as int]);
                }
                return true;
            }
            proof {
                let u = t.push(s[i as int]);
                assert forall|j: int| 0 <= j < u.len() - 1 implies #[trigger] u[j] != u[j + 1] by {
                    if j < t.len() - 1 {
                        assert(u[j] == t[j] && u[j + 1] == t[j + 1]);
                    }
                }
            }
            prev = arr[i];
        }
        i = i + 1;
    }
    proof {
        assert(s.take(4) =~= s);
    }
    false
}

/// Slides and merges a line toward index 3 until no two neighbouring
/// non-empty values are equal; also tells whether the line changed.
pub fn reduce_line(line: [i32; 4]) -> (r: ([i32; 4], bool))
    requires
        line_ok(line),
    ensures
        line_seq(r.0) == reduced(line_seq(line)),
        r.1 == (line_seq(r.0) != line_seq(line)),
        line_ok(r.0),
        seq_sum(line_seq(r.0)) == seq_sum(line_seq(line)),
{
    let mut t: [i32; 4] = line;
    proof {
        lemma_line_ok(line);
    }
    while has_adjacent_dupes(&t)
        invariant
            line_ok(t),
            seq_sum(line_seq(t)) == seq_sum(line_seq(line)),
            settle(nonzeros(line_seq(t))) == settle(nonzeros(line_seq(line))),
        decreases nonzeros(line_seq(t)).len(),
    {
        let ghost t0 = line_seq(t);
        proof {
            lemma_line_ok(t);
            lemma_pad_nonzeros(t0, 4);
        }
        shift_zeroes_left(&mut t);
        let ghost t1 = line_seq(t);
        proof {
            lemma_line_ok(t);
        }
        proof {
            lemma_combined_compacted(t1);
        }
        combine_dupes(&mut t);
        let ghost t2 = line_seq(t);
        proof {
            lemma_pad_nonzeros(t2, 4);
        }
        shift_zeroes_left(&mut t);
        proof {
            lemma_merge_pass(nonzeros(t0));
            lemma_line_ok(t);
        }
    }
    let ghost t0 = line_seq(t);
    proof {
        lemma_line_ok(t);
        lemma_pad_nonzeros(t0, 4);
        lemma_settle(nonzeros(t0));
    }
    shift_zeroes_left(&mut t);
    proof {
        lemma_line_ok(t);
    }
    let changed = t[0] != line[0] || t[1] != line[1] || t[2] != line[2] || t[3] != line[3];
    proof {
        if !changed {
            assert(line_seq(t) =~= line_seq(line));
        } else {
            if t[0] != line[0] {
                assert(line_seq(t)[0] != line_seq(line)[0]);
            } else if t[1] != line[1] {
                assert(line_seq(t)[1] != line_seq(line)[1]);
            } else if t[2] != line[2] {
                assert(line_seq(t)[2] != line_seq(line)[2]);
            } else {
                assert(line_seq(t)[3] != line_seq(line)[3]);
            }
        }
    }
    (t, changed)
}

} // verus!
