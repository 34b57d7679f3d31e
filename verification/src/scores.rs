//! Sorting of high-score columns, highest score first.

use std::cmp::Ordering;
use vstd::prelude::*;
use vstd::relations::{sorted_by, total_ordering};
use vstd::seq_lib::lemma_sorted_unique;
use crate::text::{
    chars_of, decimal, parse_number, parse_unsigned, push_decimal, push_one, push_str,
    split_whitespace, views, ws_tokens,
};

verus! {

broadcast use vstd::seq_lib::group_to_multiset_ensures;

/// Scores are listed from the highest down: `a` may come before `b` when `a >= b`.
pub open spec fn score_leq() -> spec_fn(u32, u32) -> bool {
    |a: u32, b: u32| a >= b
}

/// Every score in `s[lo..hi)` is at least every score that follows it in that range.
pub open spec fn desc_between(s: Seq<u32>, lo: int, hi: int) -> bool {
    forall|a: int, b: int| lo <= a < b < hi ==> s[a] >= s[b]
}

/// `new` is `old` with only the entries of `[lo, hi)` rearranged among themselves.
pub open spec fn permutes_within(old: Seq<u32>, new: Seq<u32>, lo: int, hi: int) -> bool {
    &&& new.len() == old.len()
    &&& 0 <= lo <= hi <= old.len()
    &&& forall|k: int| 0 <= k < old.len() && !(lo <= k < hi) ==> new[k] == old[k]
    &&& new.subrange(lo, hi).to_multiset() == old.subrange(lo, hi).to_multiset()
}

/// Highest-first is a total order on scores.
pub proof fn lemma_score_order_total()
    ensures
        total_ordering(score_leq()),
{
}

proof fn lemma_permutes_refl(s: Seq<u32>, lo: int, hi: int)
    requires
        0 <= lo <= hi <= s.len(),
    ensures
        permutes_within(s, s, lo, hi),
{
}

proof fn lemma_permutes_trans(a: Seq<u32>, b: Seq<u32>, c: Seq<u32>, lo: int, hi: int)
    requires
        permutes_within(a, b, lo, hi),
        permutes_within(b, c, lo, hi),
    ensures
        permutes_within(a, c, lo, hi),
{
}

proof fn lemma_permutes_widen(old: Seq<u32>, new: Seq<u32>, lo: int, hi: int, lo2: int, hi2: int)
    requires
        permutes_within(old, new, lo, hi),
        0 <= lo2 <= lo,
        hi <= hi2 <= old.len(),
    ensures
        permutes_within(old, new, lo2, hi2),
{
    broadcast use vstd::seq_lib::lemma_multiset_commutative;

    let p_old = old.subrange(lo2, lo);
    let m_old = old.subrange(lo, hi);
    let s_old = old.subrange(hi, hi2);
    let p_new = new.subrange(lo2, lo);
    let m_new = new.subrange(lo, hi);
    let s_new = new.subrange(hi, hi2);
    assert(p_old =~= p_new);
    assert(s_old =~= s_new);
    assert(old.subrange(lo2, hi2) =~= p_old + m_old + s_old);
    assert(new.subrange(lo2, hi2) =~= p_new + m_new + s_new);
    assert((p_old + m_old + s_old).to_multiset() =~= (p_old + m_old).to_multiset().add(
        s_old.to_multiset(),
    ));
    assert((p_new + m_new + s_new).to_multiset() =~= (p_new + m_new).to_multiset().add(
        s_new.to_multiset(),
    ));
}

proof fn lemma_permutes_whole(old: Seq<u32>, new: Seq<u32>, lo: int, hi: int)
    requires
        permutes_within(old, new, lo, hi),
    ensures
        new.to_multiset() == old.to_multiset(),
{
    lemma_permutes_widen(old, new, lo, hi, 0, old.len() as int);
    assert(old.subrange(0, old.len() as int) =~= old);
    assert(new.subrange(0, new.len() as int) =~= new);
}

/// Every entry of the rearranged range was somewhere in that range before.
proof fn lemma_permutes_member(old: Seq<u32>, new: Seq<u32>, lo: int, hi: int, k: int) -> (j: int)
    requires
        permutes_within(old, new, lo, hi),
        lo <= k < hi,
    ensures
        lo <= j < hi,
        old[j] == new[k],
{
    let ns = new.subrange(lo, hi);
    let os = old.subrange(lo, hi);
    assert(ns[k - lo] == new[k]);
    assert(ns.contains(new[k]));
    assert(os.to_multiset().count(new[k]) > 0);
    assert(os.contains(new[k]));
    let i = choose|i: int| 0 <= i < os.len() && os[i] == new[k];
    lo + i
}

proof fn lemma_swap_permutes(s: Seq<u32>, i: int, j: int, lo: int, hi: int)
    requires
        0 <= lo <= i < hi <= s.len(),
        lo <= j < hi,
    ensures
        permutes_within(s, s.update(i, s[j]).update(j, s[i]), lo, hi),
{
    broadcast use vstd::seq_lib::to_multiset_update;
    broadcast use vstd::multiset::group_multiset_axioms;

    let t = s.subrange(lo, hi);
    let u = s.update(i, s[j]).update(j, s[i]);
    assert(u.subrange(lo, hi) =~= t.update(i - lo, s[j]).update(j - lo, s[i]));
    let t1 = t.update(i - lo, s[j]);
    assert(t1.to_multiset() == t.to_multiset().insert(s[j]).remove(s[i]));
    assert(t1[j - lo] == (if i == j { s[j] } else { s[j] }));
    assert(t1.update(j - lo, s[i]).to_multiset() == t1.to_multiset().insert(s[i]).remove(s[j]));
    assert(t1.update(j - lo, s[i]).to_multiset() =~= t.to_multiset());
}

fn swap_entries(v: &mut Vec<u32>, i: usize, j: usize)
    requires
        i < old(v).len(),
        j < old(v).len(),
    ensures
        final(v)@ == old(v)@.update(i as int, old(v)@[j as int]).update(j as int, old(v)@[i as int]),
{
    let a = v[i];
    let b = v[j];
    v.set(i, b);
    v.set(j, a);
}

/// Hoare partition of `unsorted[low..=high]` around the score in the middle of the range:
/// afterwards the scores up to the returned split are all at least that pivot, and the
/// scores after it are all at most the pivot.
#[verifier::loop_isolation(false)]
pub fn hoare_partition(unsorted: &mut Vec<u32>, low: usize, high: usize) -> (split: usize)
    requires
        low <= high < old(unsorted).len(),
    ensures
        low <= split <= high,
        low < high ==> split < high,
        permutes_within(old(unsorted)@, final(unsorted)@, low as int, high + 1),
        forall|k: int|
            low <= k <= split ==> final(unsorted)@[k] >= old(unsorted)@[(low + high) / 2],
        forall|k: int|
            split < k <= high ==> final(unsorted)@[k] <= old(unsorted)@[(low + high) / 2],
{
    let mid = low + (high - low) / 2;
    let pivot = unsorted[mid];
    let ghost orig = unsorted@;
    let mut i = low;
    let mut j = high;
    let ghost mut wl: int = mid as int;
    let ghost mut wr: int = mid as int;
    let ghost mut first = true;
    proof {
        lemma_permutes_refl(orig, low as int, high + 1);
    }
    loop
        invariant
            mid == (low + high) / 2,
            low <= mid <= high < unsorted.len(),
            pivot == orig[mid as int],
            permutes_within(orig, unsorted@, low as int, high + 1),
            low <= i <= wl <= high,
            low <= wr <= j <= high,
            unsorted@[wl] <= pivot,
            unsorted@[wr] >= pivot,
            forall|k: int| low <= k < i ==> unsorted@[k] >= pivot,
            forall|k: int| j < k <= high ==> unsorted@[k] <= pivot,
            first ==> i == low && j == high && wl == mid && wr == mid,
            !first ==> j < high,
        decreases j + high + 1 - i,
    {
        let ghost i0 = i;
        let ghost j0 = j;
        while unsorted[i] > pivot
            invariant
                low <= mid <= high < unsorted.len(),
                i0 <= i,
                low <= i <= wl <= high,
                unsorted@[wl] <= pivot,
                forall|k: int| low <= k < i ==> unsorted@[k] >= pivot,
            decreases wl - i,
        {
            i += 1;
        }
        while unsorted[j] < pivot
            invariant
                low <= mid <= high < unsorted.len(),
                j <= j0,
                low <= wr <= j <= high,
                unsorted@[wr] >= pivot,
                forall|k: int| j < k <= high ==> unsorted@[k] <= pivot,
            decreases j - wr,
        {
            j -= 1;
        }
        if i >= j {
            assert(low < high ==> mid < high);
            return j;
        }
        let ghost before = unsorted@;
        swap_entries(unsorted, i, j);
        proof {
            lemma_swap_permutes(before, i as int, j as int, low as int, high + 1);
            lemma_permutes_trans(orig, before, unsorted@, low as int, high + 1);
            wl = j as int;
            wr = i as int;
            first = false;
        }
        i += 1;
        j -= 1;
    }
}

/// Sorts `unsorted[low..=high]` from the highest score down, in place; nothing outside
/// that range moves. An empty or single-entry range is left as it is.
pub fn quicksort_in_place(unsorted: &mut Vec<u32>, low: usize, high: usize)
    requires
        low < high ==> high < old(unsorted).len(),
    ensures
        low < high ==> permutes_within(old(unsorted)@, final(unsorted)@, low as int, high + 1),
        low < high ==> desc_between(final(unsorted)@, low as int, high + 1),
        low >= high ==> final(unsorted)@ == old(unsorted)@,
    decreases high - low,
{
    if low < high {
        let ghost s0 = unsorted@;
        let split = hoare_partition(unsorted, low, high);
        let ghost s1 = unsorted@;
        quicksort_in_place(unsorted, low, split);
        let ghost s2 = unsorted@;
        quicksort_in_place(unsorted, split + 1, high);
        let ghost s3 = unsorted@;
        proof {
            let lo = low as int;
            let hi = high + 1;
            let sp = split as int;
            if lo < sp {
            } else {
                lemma_permutes_refl(s1, lo, sp + 1);
            }
            if sp + 1 < high {
            } else {
                lemma_permutes_refl(s2, sp + 1, hi);
            }
            lemma_permutes_widen(s1, s2, lo, sp + 1, lo, hi);
            lemma_permutes_widen(s2, s3, sp + 1, hi, lo, hi);
            lemma_permutes_trans(s0, s1, s2, lo, hi);
            lemma_permutes_trans(s0, s2, s3, lo, hi);
            assert forall|a: int, b: int| lo <= a < b < hi implies s3[a] >= s3[b] by {
                if b <= sp {
                    assert(s3[a] == s2[a]);
                    assert(s3[b] == s2[b]);
                } else if a > sp {
                } else {
                    let ja = lemma_permutes_member(s1, s2, lo, sp + 1, a);
                    let jb = lemma_permutes_member(s2, s3, sp + 1, hi, b);
                    assert(s2[jb] == s1[jb]);
                    assert(s3[a] == s2[a]);
                }
            }
        }
    }
}

/// The largest score plus one that `counting_sort` can tally.
pub const COUNT_LIMIT: usize = 10000;

/// Sorts `unsorted[low..high)` from the highest score down by counting how often each
/// score occurs; every score in that range must be below `COUNT_LIMIT`.
pub fn counting_sort(unsorted: &mut Vec<u32>, low: usize, high: usize)
    requires
        low <= high <= old(unsorted).len(),
        forall|k: int| low <= k < high ==> old(unsorted)@[k] < COUNT_LIMIT,
    ensures
        permutes_within(old(unsorted)@, final(unsorted)@, low as int, high as int),
        desc_between(final(unsorted)@, low as int, high as int),
{
    broadcast use vstd::multiset::group_multiset_axioms;

    let ghost orig = unsorted@;
    let ghost range = orig.subrange(low as int, high as int);
    let mut counts: Vec<usize> = Vec::new();
    while counts.len() < COUNT_LIMIT
        invariant
            counts.len() <= COUNT_LIMIT,
            forall|v: int| 0 <= v < counts.len() ==> counts@[v] == 0,
        decreases COUNT_LIMIT - counts.len(),
    {
        counts.push(0);
    }
    let mut i = low;
    while i < high
        invariant
            low <= i <= high <= unsorted.len(),
            unsorted@ == orig,
            range == orig.subrange(low as int, high as int),
            counts.len() == COUNT_LIMIT,
            forall|k: int| low <= k < high ==> orig[k] < COUNT_LIMIT,
            forall|v: int|
                0 <= v < COUNT_LIMIT ==> counts@[v] == orig.subrange(low as int, i as int).to_multiset().count(
                    v as u32,
                ),
        decreases high - i,
    {
        let v = unsorted[i] as usize;
        let ghost before = orig.subrange(low as int, i as int);
        assert(orig.subrange(low as int, i + 1) =~= before.push(orig[i as int]));
        assert(before.to_multiset().len() == before.len());
        assert(before.to_multiset().count(v as u32) <= before.to_multiset().len());
        counts.set(v, counts[v] + 1);
        i += 1;
    }
    assert(orig.subrange(low as int, high as int) =~= range);
    let mut value: usize = COUNT_LIMIT;
    let mut pos: usize = low;
    while value > 0
        invariant
            low <= pos <= high <= unsorted.len(),
            unsorted@.len() == orig.len(),
            value <= COUNT_LIMIT,
            range == orig.subrange(low as int, high as int),
            range.len() == high - low,
            counts.len() == COUNT_LIMIT,
            forall|v: int| 0 <= v < COUNT_LIMIT ==> counts@[v] == range.to_multiset().count(v as u32),
            forall|k: int| low <= k < high ==> orig[k] < COUNT_LIMIT,
            forall|k: int| 0 <= k < orig.len() && !(low <= k < high) ==> unsorted@[k] == orig[k],
            forall|x: u32|
                unsorted@.subrange(low as int, pos as int).to_multiset().count(x) == if x >= value {
                    range.to_multiset().count(x)
                } else {
                    0
                },
            desc_between(unsorted@, low as int, pos as int),
            forall|k: int| low <= k < pos ==> unsorted@[k] >= value,
        decreases value,
    {
        value -= 1;
        let c = counts[value];
        let mut n: usize = 0;
        while n < c
            invariant
                low <= pos <= high <= unsorted.len(),
                unsorted@.len() == orig.len(),
                value < COUNT_LIMIT,
                n <= c,
                c == range.to_multiset().count(value as u32),
                range.len() == high - low,
                forall|k: int| 0 <= k < orig.len() && !(low <= k < high) ==> unsorted@[k] == orig[k],
                forall|x: u32|
                    unsorted@.subrange(low as int, pos as int).to_multiset().count(x) == if x > value {
                        range.to_multiset().count(x)
                    } else if x == value {
                        n as nat
                    } else {
                        0
                    },
                desc_between(unsorted@, low as int, pos as int),
                forall|k: int| low <= k < pos ==> unsorted@[k] >= value,
            decreases c - n,
        {
            let ghost w = unsorted@.subrange(low as int, pos as int);
            let ghost w2 = w.push(value as u32);
            proof {
                assert forall|x: u32| w2.to_multiset().count(x) <= range.to_multiset().count(x) by {}
                assert(w2.to_multiset().subset_of(range.to_multiset()));
                assert(range.to_multiset().sub(w2.to_multiset()).len() == range.len() - w2.len());
            }
            unsorted.set(pos, value as u32);
            assert(unsorted@.subrange(low as int, pos + 1) =~= w2);
            pos += 1;
            n += 1;
        }
    }
    let ghost w = unsorted@.subrange(low as int, pos as int);
    assert forall|x: u32| w.to_multiset().count(x) == range.to_multiset().count(x) by {
        assert(x >= value);
    }
    assert(w.to_multiset() =~= range.to_multiset());
    assert(w.len() == w.to_multiset().len());
    assert(pos == high);
}

/// A column of scores in listing order: the scores of `s`, highest first.
pub open spec fn sorted_scores(s: Seq<u32>) -> Seq<u32> {
    s.sort_by(score_leq())
}

/// A rearrangement of a column listed from the highest score down is exactly the
/// column's listing order: any two sorts of the same column agree.
pub proof fn lemma_descending_rearrangement_is_sorted(orig: Seq<u32>, res: Seq<u32>)
    requires
        res.to_multiset() == orig.to_multiset(),
        desc_between(res, 0, res.len() as int),
    ensures
        res == sorted_scores(orig),
{
    lemma_score_order_total();
    orig.lemma_sort_by_ensures(score_leq());
    assert(sorted_by(res, score_leq()));
    lemma_sorted_unique(res, orig.sort_by(score_leq()), score_leq());
}

/// Sorts a column from the highest score down: the scores of at least `COUNT_LIMIT`
/// are moved to the front and quicksorted, and the smaller ones are counting-sorted.
pub fn custom_sort(unsorted: Vec<u32>) -> (sorted: Vec<u32>)
    ensures
        sorted@ == sorted_scores(unsorted@),
{
    let ghost orig = unsorted@;
    let mut v = unsorted;
    let size = v.len();
    let mut big_index: usize = 0;
    let mut i: usize = 0;
    proof {
        lemma_permutes_refl(orig, 0, size as int);
    }
    while i < size
        invariant
            size == v.len() == orig.len(),
            big_index <= i <= size,
            permutes_within(orig, v@, 0, size as int),
            forall|k: int| 0 <= k < big_index ==> v@[k] >= COUNT_LIMIT,
            forall|k: int| big_index <= k < i ==> v@[k] < COUNT_LIMIT,
        decreases size - i,
    {
        if v[i] >= COUNT_LIMIT as u32 {
            let ghost before = v@;
            swap_entries(&mut v, i, big_index);
            proof {
                lemma_swap_permutes(before, i as int, big_index as int, 0, size as int);
                lemma_permutes_trans(orig, before, v@, 0, size as int);
            }
            big_index += 1;
        }
        i += 1;
    }
    let ghost s1 = v@;
    if big_index > 0 {
        quicksort_in_place(&mut v, 0, big_index - 1);
    }
    let ghost s2 = v@;
    proof {
        if big_index <= 1 {
            lemma_permutes_refl(s1, 0, big_index as int);
        }
    }
    counting_sort(&mut v, big_index, size);
    let ghost s3 = v@;
    proof {
        let b = big_index as int;
        let n = size as int;
        lemma_permutes_widen(s1, s2, 0, b, 0, n);
        lemma_permutes_widen(s2, s3, b, n, 0, n);
        lemma_permutes_trans(orig, s1, s2, 0, n);
        lemma_permutes_trans(orig, s2, s3, 0, n);
        lemma_permutes_whole(orig, s3, 0, n);
        assert forall|a: int, c: int| 0 <= a < c < n implies s3[a] >= s3[c] by {
            if c < b {
                assert(s3[a] == s2[a] && s3[c] == s2[c]);
            } else if a >= b {
            } else {
                let ja = lemma_permutes_member(s1, s2, 0, b, a);
                let jc = lemma_permutes_member(s2, s3, b, n, c);
                assert(s3[a] == s2[a]);
                assert(s2[jc] == s1[jc]);
            }
        }
        lemma_descending_rearrangement_is_sorted(orig, s3);
    }
    v
}

/// The order of a sorted column: the higher of two scores comes first.
pub fn descending(a: &u32, b: &u32) -> (o: Ordering)
    ensures
        (o == Ordering::Less) == (*a > *b),
        (o == Ordering::Equal) == (*a == *b),
        (o == Ordering::Greater) == (*a < *b),
{
    if *a > *b {
        Ordering::Less
    } else if *a == *b {
        Ordering::Equal
    } else {
        Ordering::Greater
    }
}

/// Sorts `v` with the standard library's `slice::sort_unstable_by`, ordered by `descending`.
/// The contract claims what that function documents of a comparator that is a total order:
/// the scores are the same afterwards, and they come in the comparator's order, here from
/// the highest score down.
#[verifier::external_body]
fn sort_unstable_descending(v: &mut Vec<u32>)
    ensures
        final(v)@.to_multiset() == old(v)@.to_multiset(),
        sorted_by(final(v)@, score_leq()),
{
    v.sort_unstable_by(|a, b| descending(a, b));
}

/// Sorts a column from the highest score down with the standard library's sort.
pub fn standard_sort(unsorted: Vec<u32>) -> (sorted: Vec<u32>)
    ensures
        sorted@ == sorted_scores(unsorted@),
{
    let mut v = unsorted;
    sort_unstable_descending(&mut v);
    proof {
        lemma_score_order_total();
        unsorted@.lemma_sort_by_ensures(score_leq());
        lemma_sorted_unique(v@, unsorted@.sort_by(score_leq()), score_leq());
    }
    v
}

/// Every word of the player data reads as a `u32`.
pub open spec fn all_scores(toks: Seq<Seq<char>>) -> bool {
    forall|i: int| 0 <= i < toks.len() ==> (#[trigger] parse_unsigned(toks[i], u32::MAX as nat)) is Some
}

/// The values of the words of the player data.
pub open spec fn score_values(toks: Seq<Seq<char>>) -> Seq<u32> {
    toks.map_values(|t: Seq<char>| parse_unsigned(t, u32::MAX as nat)->0 as u32)
}

/// Number of score columns per player row; a sixth column holds each row's total.
pub const SKILLS: usize = 5;

/// The total of a player's five scores, modulo 2^32.
pub open spec fn row_total(nums: Seq<u32>, row: int) -> u32 {
    ((nums[5 * row] + nums[5 * row + 1] + nums[5 * row + 2] + nums[5 * row + 3] + nums[5 * row
        + 4]) % 0x1_0000_0000) as u32
}

/// The six columns of the player data `nums` (five numbers per row; a last incomplete row is
/// dropped): one column per skill, then the row totals.
pub open spec fn player_columns(nums: Seq<u32>) -> Seq<Seq<u32>> {
    Seq::new(
        6,
        |c: int|
            Seq::new(
                nums.len() / 5,
                |r: int|
                    if c < 5 {
                        nums[5 * r + c]
                    } else {
                        row_total(nums, r)
                    },
            ),
    )
}

/// Column `c < 5` of the player data holds the `c`-th score of each full row of five, in
/// row order, and column 5 holds each row's total modulo 2^32.
pub proof fn lemma_player_columns(nums: Seq<u32>)
    ensures
        player_columns(nums).len() == 6,
        forall|c: int| 0 <= c < 6 ==> (#[trigger] player_columns(nums)[c]).len() == nums.len() / 5,
        forall|c: int, r: int|
            0 <= c < 5 && 0 <= r < nums.len() / 5 ==> #[trigger] player_columns(nums)[c][r] == nums[5 * r + c],
        forall|r: int|
            0 <= r < nums.len() / 5 ==> #[trigger] player_columns(nums)[5][r] == (nums[5 * r] + nums[5 * r + 1] + nums[5 * r + 2]
                + nums[5 * r + 3] + nums[5 * r + 4]) % 0x1_0000_0000,
{
}

/// `data` holds the six columns of the player data `s`.
pub open spec fn holds_columns(data: Seq<Vec<u32>>, s: Seq<char>) -> bool {
    &&& data.len() == 6
    &&& forall|c: int| 0 <= c < 6 ==> (#[trigger] data[c])@ == player_columns(score_values(ws_tokens(s)))[c]
}

/// Reads the player data: white-space separated scores, five to a player.
/// Gives `None` when a word does not read as a `u32`.
pub fn read_player_data(str: String) -> (data: Option<Vec<Vec<u32>>>)
    ensures
        data is None <==> !all_scores(ws_tokens(str@)),
        data matches Some(d) ==> holds_columns(d@, str@),
        data matches Some(d) ==> d@.len() == 6 && forall|c: int| 0 <= c < 6 ==> (#[trigger] d@[c])@.len()
            == ws_tokens(str@).len() / 5,
        data matches Some(d) ==> forall|c: int, r: int|
            0 <= c < 5 && 0 <= r < ws_tokens(str@).len() / 5 ==> #[trigger] d@[c]@[r] == score_values(ws_tokens(str@))[5 * r + c],
{
    let chars = chars_of(str.as_str());
    let toks = split_whitespace(&chars);
    let ghost tv = ws_tokens(str@);
    let mut nums: Vec<u32> = Vec::new();
    let mut i: usize = 0;
    while i < toks.len()
        invariant
            i <= toks.len(),
            views(toks@) == tv,
            tv == ws_tokens(str@),
            nums@.len() == i,
            forall|k: int| 0 <= k < i ==> (#[trigger] parse_unsigned(tv[k], u32::MAX as nat)) is Some,
            forall|k: int| 0 <= k < i ==> nums@[k] == score_values(tv)[k],
        decreases toks.len() - i,
    {
        assert(toks@[i as int]@ == tv[i as int]);
        match parse_number(&toks[i], u32::MAX as u64) {
            Some(v) => {
                nums.push(v as u32);
            },
            None => {
                assert(parse_unsigned(tv[i as int], u32::MAX as nat) is None);
                return None;
            },
        }
        i += 1;
    }
    let ghost values = score_values(tv);
    assert(nums@ =~= values);
    let count = nums.len();
    let rows = count / SKILLS;
    let mut data: Vec<Vec<u32>> = Vec::new();
    let mut col: usize = 0;
    while col < SKILLS
        invariant
            col <= SKILLS,
            rows == nums@.len() / 5,
            count == nums@.len(),
            nums@ == values,
            data@.len() == col,
            forall|c: int| 0 <= c < col ==> (#[trigger] data@[c])@ == player_columns(values)[c],
        decreases SKILLS - col,
    {
        let mut column: Vec<u32> = Vec::new();
        let mut row: usize = 0;
        while row < rows
            invariant
                col < SKILLS,
                row <= rows,
                rows == nums@.len() / 5,
                count == nums@.len(),
                column@.len() == row,
                forall|r: int| 0 <= r < row ==> column@[r] == nums@[5 * r + col],
            decreases rows - row,
        {
            assert(row * SKILLS + col < nums@.len()) by (nonlinear_arith)
                requires
                    row < rows,
                    rows == nums@.len() / 5,
                    col < SKILLS,
                    SKILLS == 5,
            ;
            column.push(nums[row * SKILLS + col]);
            row += 1;
        }
        assert(column@ =~= player_columns(values)[col as int]);
        data.push(column);
        col += 1;
    }
    let mut totals: Vec<u32> = Vec::new();
    let mut row: usize = 0;
    while row < rows
        invariant
            row <= rows,
            rows == nums@.len() / 5,
            count == nums@.len(),
            totals@.len() == row,
            forall|r: int| 0 <= r < row ==> totals@[r] == row_total(nums@, r),
        decreases rows - row,
    {
        assert(row * SKILLS + 4 < nums@.len()) by (nonlinear_arith)
            requires
                row < rows,
                rows == nums@.len() / 5,
                SKILLS == 5,
        ;
        let base = row * SKILLS;
        let mut sum: u32 = 0;
        sum = sum.wrapping_add(nums[base]);
        sum = sum.wrapping_add(nums[base + 1]);
        sum = sum.wrapping_add(nums[base + 2]);
        sum = sum.wrapping_add(nums[base + 3]);
        sum = sum.wrapping_add(nums[base + 4]);
        totals.push(sum);
        row += 1;
    }
    assert(totals@ =~= player_columns(values)[5]);
    data.push(totals);
    proof {
        lemma_player_columns(values);
        assert forall|c: int, r: int| 0 <= c < 5 && 0 <= r < tv.len() / 5 implies #[trigger] data@[c]@[r] == values[5 * r + c] by {
            assert(data@[c]@ == player_columns(values)[c]);
        }
        assert forall|c: int| 0 <= c < 6 implies (#[trigger] data@[c])@.len() == tv.len() / 5 by {
            assert(data@[c]@ == player_columns(values)[c]);
        }
    }
    Some(data)
}

/// Reads the player data, every word of which reads as a `u32`: white-space separated
/// scores, five to a player, into one column per skill and a column of each player's total.
pub fn string_to_data(str: String) -> (data: Vec<Vec<u32>>)
    requires
        all_scores(ws_tokens(str@)),
    ensures
        holds_columns(data@, str@),
        data@.len() == 6,
        forall|c: int| 0 <= c < 6 ==> (#[trigger] data@[c])@.len() == ws_tokens(str@).len() / 5,
        forall|c: int, r: int|
            0 <= c < 5 && 0 <= r < ws_tokens(str@).len() / 5 ==> #[trigger] data@[c]@[r] == score_values(ws_tokens(str@))[5 * r + c],
{
    match read_player_data(str) {
        Some(data) => data,
        None => Vec::new(),
    }
}

/// The report of one column: each score in decimal on a line of its own.
pub open spec fn column_text(scores: Seq<u32>) -> Seq<char>
    decreases scores.len(),
{
    if scores.len() == 0 {
        Seq::empty()
    } else {
        column_text(scores.drop_last()) + decimal(scores.last() as nat).push('\n')
    }
}

/// A column's report is each score in decimal on a line of its own, one line per score, in
/// column order.
pub proof fn lemma_column_text_lines(scores: Seq<u32>)
    ensures
        column_text(scores) == scores.map_values(|x: u32| decimal(x as nat).push('\n')).flatten(),
    decreases scores.len(),
{
    let m = scores.map_values(|x: u32| decimal(x as nat).push('\n'));
    m.lemma_flatten_and_flatten_alt_are_equivalent();
    if scores.len() == 0 {
        assert(m =~= Seq::<Seq<char>>::empty());
    } else {
        let d = scores.drop_last().map_values(|x: u32| decimal(x as nat).push('\n'));
        lemma_column_text_lines(scores.drop_last());
        assert(m.drop_last() =~= d);
        d.lemma_flatten_and_flatten_alt_are_equivalent();
    }
}

/// Writes the name of a skill, then its column of scores, one per line.
pub fn write_scores_to_buff(
    out_buff: &mut String,
    scores: &Vec<Vec<u32>>,
    skill_name: &str,
    skill_index: usize,
)
    requires
        skill_index < scores.len(),
    ensures
        final(out_buff)@ == old(out_buff)@ + skill_name@.push('\n') + column_text(
            scores@[skill_index as int]@,
        ),
        final(out_buff)@ == old(out_buff)@ + skill_name@.push('\n') + scores@[skill_index as int]@.map_values(
            |x: u32| decimal(x as nat).push('\n'),
        ).flatten(),
{
    push_str(out_buff, skill_name);
    push_one(out_buff, '\n');
    let ghost head = out_buff@;
    let column = &scores[skill_index];
    let size = column.len();
    let mut i: usize = 0;
    while i < size
        invariant
            size == column@.len(),
            i <= size,
            out_buff@ == head + column_text(column@.take(i as int)),
        decreases size - i,
    {
        push_decimal(out_buff, column[i] as u64);
        push_one(out_buff, '\n');
        assert(column@.take(i + 1).drop_last() =~= column@.take(i as int));
        i += 1;
    }
    assert(column@.take(size as int) =~= column@);
    assert(old(out_buff)@ + skill_name@.push('\n') =~= old(out_buff)@ + skill_name@ + seq!['\n']);
    proof {
        lemma_column_text_lines(column@);
    }
}

} // verus!
