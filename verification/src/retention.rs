//! The retention engine: given timestamped snapshot entries and a reference
//! time, decide which entries to delete so that recent history is kept at
//! full resolution while older history is thinned to one survivor per
//! exponentially widening time window.
use vstd::prelude::*;

verus! {

use vstd::arithmetic::div_mod::{
    lemma_fundamental_div_mod,
    lemma_fundamental_div_mod_converse,
    lemma_mod_bound,
    lemma_mod_multiples_vanish,
    lemma_small_mod,
    lemma_sub_mod_noop,
};

/// One snapshot entry: its directory name and its timestamp in seconds.
pub struct Entry {
    pub name: String,
    pub ts: i64,
}

/// The entries are ordered by timestamp, oldest first.
pub open spec fn sorted_by_ts(s: Seq<Entry>) -> bool {
    forall|i: int, j: int| 0 <= i <= j < s.len() ==> s[i].ts <= s[j].ts
}

/// The greatest multiple of `g` that is at most `x` (true floor rounding,
/// also for negative `x`).
pub open spec fn round_down(x: int, g: int) -> int
    recommends
        g >= 1,
{
    (x / g) * g
}

/// The length that remains after popping every trailing entry whose
/// timestamp is at least `t`.
pub open spec fn split_idx(s: Seq<Entry>, t: int) -> int
    decreases s.len(),
{
    if s.len() == 0 {
        0
    } else if s.last().ts >= t {
        split_idx(s.drop_last(), t)
    } else {
        s.len() as int
    }
}

pub open spec fn thin_measure(arr: Seq<Entry>, t: int) -> int {
    if arr.len() > 0 && t > arr[0].ts {
        t - arr[0].ts + 1
    } else {
        0
    }
}

/// The removal list, in the order the entries are selected. One recursive
/// call is one thinning step: entries still at or above the threshold `t`
/// are selected for removal (newest first), the threshold is lowered to the
/// next multiple of the granularity `g`, and the newest entry of the window
/// just passed is dropped from consideration as that window's survivor.
/// After five steps (`i` counts them) the granularity doubles.
pub open spec fn thin(arr: Seq<Entry>, t: int, g: int, i: int) -> Seq<Entry>
    decreases thin_measure(arr, t),
    when 1 <= g && 0 <= i <= 4 && sorted_by_ts(arr)
    via thin_dec
{
    let k = split_idx(arr, t);
    let popped = arr.subrange(k, arr.len() as int).reverse();
    let arr1 = arr.subrange(0, k);
    let t1 = round_down(t - 1, g);
    if arr1.len() == 0 {
        popped
    } else {
        let arr2 = if arr1.last().ts >= t1 {
            arr1.drop_last()
        } else {
            arr1
        };
        let g1 = if i == 4 {
            2 * g
        } else {
            g
        };
        let i1 = if i == 4 {
            0
        } else {
            i + 1
        };
        popped + thin(arr2, t1, g1, i1)
    }
}

/// Basic bounds of `split_idx`: it is a valid cut point, every entry at or
/// past it has a timestamp at least `t`, and the entry just before it (if
/// any) is below `t`.
pub proof fn lemma_split_idx_bounds(s: Seq<Entry>, t: int)
    ensures
        0 <= split_idx(s, t) <= s.len(),
        forall|j: int| split_idx(s, t) <= j < s.len() ==> s[j].ts >= t,
        split_idx(s, t) > 0 ==> s[split_idx(s, t) - 1].ts < t,
    decreases s.len(),
{
    if s.len() == 0 {
    } else if s.last().ts >= t {
        lemma_split_idx_bounds(s.drop_last(), t);
        assert(forall|j: int|
            split_idx(s, t) <= j < s.len() - 1 ==> s[j].ts >= t) by {
            assert(forall|j: int|
                split_idx(s.drop_last(), t) <= j < s.len() - 1 ==> s.drop_last()[j].ts >= t);
            assert(forall|j: int| 0 <= j < s.len() - 1 ==> s.drop_last()[j] == s[j]);
        }
    } else {
    }
}

/// `split_idx` is determined by the cut conditions alone.
pub proof fn lemma_split_idx_is(s: Seq<Entry>, t: int, k: int)
    requires
        0 <= k <= s.len(),
        k > 0 ==> s[k - 1].ts < t,
        forall|j: int| k <= j < s.len() ==> s[j].ts >= t,
    ensures
        split_idx(s, t) == k,
    decreases s.len(),
{
    if s.len() == 0 {
    } else if s.last().ts >= t {
        assert(k < s.len());
        lemma_split_idx_is(s.drop_last(), t, k);
    } else {
        assert(k == s.len());
    }
}

/// On a sorted sequence whose head is already at or above the threshold,
/// everything is popped.
pub proof fn lemma_split_idx_zero(s: Seq<Entry>, t: int)
    requires
        sorted_by_ts(s),
        s.len() > 0,
        t <= s[0].ts,
    ensures
        split_idx(s, t) == 0,
{
    lemma_split_idx_is(s, t, 0);
}

/// Floor rounding stays within one granularity below its argument and
/// lands on a multiple of the granularity.
pub proof fn lemma_round_down(x: int, g: int)
    requires
        g >= 1,
    ensures
        round_down(x, g) <= x,
        x - g < round_down(x, g),
        round_down(x, g) % g == 0,
{
    lemma_fundamental_div_mod(x, g);
    lemma_mod_bound(x, g);
    assert(g * (x / g) == (x / g) * g) by {
        vstd::arithmetic::mul::lemma_mul_is_commutative(g, x / g);
    }
    assert(round_down(x, g) % g == 0) by {
        lemma_fundamental_div_mod_converse(round_down(x, g), g, x / g, 0);
    }
}

/// `round_down` computed on machine integers, away from the extremes of
/// the `i128` range.
fn round_down_exec(x: i128, g: i128) -> (r: i128)
    requires
        1 <= g < 0x4000_0000_0000_0000_0000_0000i128,
        -0x4000_0000_0000_0000_0000_0000i128 < x < 0x4000_0000_0000_0000_0000_0000i128,
    ensures
        r == round_down(x as int, g as int),
{
    proof {
        lemma_round_down(x as int, g as int);
    }
    if x >= 0 {
        let q: i128 = x / g;
        q * g
    } else {
        let y: i128 = -x;
        let q: i128 = (y + g - 1) / g;
        proof {
            lemma_fundamental_div_mod(y + g - 1, g as int);
            lemma_mod_bound(y + g - 1, g as int);
            let qq = (y + g - 1) / (g as int);
            let rr = (y + g - 1) % (g as int);
            assert(x as int == (g as int) * (-qq) + ((g as int) - 1 - rr)) by {
                vstd::arithmetic::mul::lemma_mul_is_commutative(g as int, qq);
                vstd::arithmetic::mul::lemma_mul_unary_negation(g as int, qq);
            }
            lemma_fundamental_div_mod_converse(
                x as int,
                g as int,
                -qq,
                (g as int) - 1 - rr,
            );
            assert((x as int) / (g as int) == -qq);
            vstd::arithmetic::mul::lemma_mul_is_commutative(-qq, g as int);
            vstd::arithmetic::mul::lemma_mul_unary_negation(qq, g as int);
        }
        -(q * g)
    }
}

#[via_fn]
proof fn thin_dec(arr: Seq<Entry>, t: int, g: int, i: int) {
    lemma_split_idx_bounds(arr, t);
    let k = split_idx(arr, t);
    let arr1 = arr.subrange(0, k);
    if arr1.len() > 0 {
        if t <= arr[0].ts {
            lemma_split_idx_zero(arr, t);
            assert(false);
        }
        let t1 = round_down(t - 1, g);
        lemma_round_down(t - 1, g);
        let arr2 = if arr1.last().ts >= t1 {
            arr1.drop_last()
        } else {
            arr1
        };
        assert(sorted_by_ts(arr2)) by {
            assert(forall|a: int, b: int|
                0 <= a <= b < arr2.len() ==> arr2[a] == arr[a] && arr2[b] == arr[b]);
        }
        if arr2.len() > 0 {
            assert(arr2[0] == arr[0]);
        }
    }
}

/// Everything the thinning selects comes from its input.
pub proof fn lemma_thin_subset(arr: Seq<Entry>, t: int, g: int, i: int, e: Entry)
    requires
        1 <= g,
        0 <= i <= 4,
        sorted_by_ts(arr),
        thin(arr, t, g, i).contains(e),
    ensures
        arr.contains(e),
    decreases thin_measure(arr, t),
{
    lemma_split_idx_bounds(arr, t);
    let k = split_idx(arr, t);
    let popped = arr.subrange(k, arr.len() as int).reverse();
    let arr1 = arr.subrange(0, k);
    let t1 = round_down(t - 1, g);
    lemma_round_down(t - 1, g);
    if arr1.len() == 0 {
        let w = choose|w: int| 0 <= w < popped.len() && popped[w] == e;
        assert(popped[w] == arr[arr.len() - 1 - w]);
    } else {
        if t <= arr[0].ts {
            lemma_split_idx_zero(arr, t);
            assert(false);
        }
        let arr2 = if arr1.last().ts >= t1 {
            arr1.drop_last()
        } else {
            arr1
        };
        assert(sorted_by_ts(arr2)) by {
            assert(forall|a: int, b: int|
                0 <= a <= b < arr2.len() ==> arr2[a] == arr[a] && arr2[b] == arr[b]);
        }
        let g1 = if i == 4 { 2 * g } else { g };
        let i1 = if i == 4 { 0int } else { i + 1 };
        let w = choose|w: int| 0 <= w < thin(arr, t, g, i).len() && thin(arr, t, g, i)[w] == e;
        if w < popped.len() {
            assert(popped[w] == arr[arr.len() - 1 - w]);
        } else {
            assert(thin(arr2, t1, g1, i1).contains(e)) by {
                assert(thin(arr, t, g, i)[w] == thin(arr2, t1, g1, i1)[w - popped.len()]);
            }
            if arr2.len() > 0 {
                assert(arr2[0] == arr[0]);
            }
            lemma_thin_subset(arr2, t1, g1, i1, e);
            let v = choose|v: int| 0 <= v < arr2.len() && arr2[v] == e;
            assert(arr2[v] == arr[v]);
        }
    }
}

/// What retention removes from a sorted entry sequence: entries at or past
/// `now` are set aside untouched, and the rest are thinned starting at
/// threshold `now` with granularity 1.
pub open spec fn removal_spec(s: Seq<Entry>, now: int) -> Seq<Entry>
    recommends
        sorted_by_ts(s),
{
    thin(s.subrange(0, split_idx(s, now)), now, 1, 0)
}

proof fn lemma_unit_window_step(arr: Seq<Entry>, t: int, i: int, e: Entry)
    requires
        sorted_by_ts(arr),
        0 <= i <= 4,
        arr.contains(e),
        forall|j1: int, j2: int|
            0 <= j1 < j2 < arr.len() ==> !(arr[j1].ts == e.ts && arr[j2].ts == e.ts),
        t - (5 - i) <= e.ts <= t - 1,
    ensures
        !thin(arr, t, 1, i).contains(e),
    decreases 5 - i,
{
    lemma_split_idx_bounds(arr, t);
    let k = split_idx(arr, t);
    let popped = arr.subrange(k, arr.len() as int).reverse();
    let arr1 = arr.subrange(0, k);
    let idx = choose|idx: int| 0 <= idx < arr.len() && arr[idx] == e;
    assert(idx < k);
    assert(arr1[idx] == e);
    assert(arr1.len() > 0);
    let t1 = round_down(t - 1, 1);
    lemma_round_down(t - 1, 1);
    assert(t1 == t - 1);
    assert(forall|w: int| 0 <= w < popped.len() ==> popped[w] == arr[arr.len() - 1 - w]);
    assert(forall|w: int| 0 <= w < popped.len() ==> popped[w].ts >= t);
    let g1: int = if i == 4 { 2 } else { 1 };
    let i1: int = if i == 4 { 0 } else { i + 1 };
    let taken = arr1.last().ts >= t1;
    let arr2 = if taken { arr1.drop_last() } else { arr1 };
    assert(sorted_by_ts(arr2)) by {
        assert(forall|a: int, b: int|
            0 <= a <= b < arr2.len() ==> arr2[a] == arr[a] && arr2[b] == arr[b]);
    }
    if e.ts >= t1 {
        // e sits in the window just passed and is its newest entry: it is
        // the survivor.
        assert(arr1.last() == arr[k - 1]);
        assert(arr[k - 1].ts >= e.ts);
        assert(arr[k - 1].ts < t);
        assert(arr[k - 1].ts == e.ts);
        assert(idx == k - 1);
        assert(taken);
        assert(!arr2.contains(e)) by {
            if arr2.contains(e) {
                let w = choose|w: int| 0 <= w < arr2.len() && arr2[w] == e;
                assert(arr[w] == e);
                assert(w < k - 1 && arr[w].ts == e.ts && arr[k - 1].ts == e.ts);
            }
        }
        if thin(arr2, t1, g1, i1).contains(e) {
            lemma_thin_subset(arr2, t1, g1, i1, e);
        }
        assert forall|w: int| 0 <= w < thin(arr, t, 1, i).len()
            implies thin(arr, t, 1, i)[w] != e by {
            if w >= popped.len() {
                assert(thin(arr, t, 1, i)[w] == thin(arr2, t1, g1, i1)[w - popped.len()]);
            }
        }
    } else {
        // e lies below the new threshold; it stays in play and the claim
        // follows one window later.
        assert(i < 4);
        assert(arr2.contains(e)) by {
            if taken {
                assert(arr1[k - 1].ts >= t1);
                assert(idx != k - 1);
                assert(arr2[idx] == e);
            } else {
                assert(arr2[idx] == e);
            }
        }
        assert(forall|j1: int, j2: int|
            0 <= j1 < j2 < arr2.len() ==> !(arr2[j1].ts == e.ts && arr2[j2].ts == e.ts)) by {
            assert(forall|j: int| 0 <= j < arr2.len() ==> arr2[j] == arr[j]);
        }
        lemma_unit_window_step(arr2, t1, i + 1, e);
        assert forall|w: int| 0 <= w < thin(arr, t, 1, i).len()
            implies thin(arr, t, 1, i)[w] != e by {
            if w >= popped.len() {
                assert(thin(arr, t, 1, i)[w] == thin(arr2, t1, g1, i1)[w - popped.len()]);
                assert(g1 == 1 && i1 == i + 1);
            }
        }
    }
}

/// The most recent history is kept at full resolution: an entry within the
/// five one-second windows just below the reference time is never removed,
/// as long as no other entry shares its timestamp. (With a shared
/// timestamp only one of the equal entries survives as the window's
/// survivor.)
pub proof fn lemma_recent_entries_kept(s: Seq<Entry>, now: int, e: Entry)
    requires
        sorted_by_ts(s),
        s.contains(e),
        now - 5 <= e.ts < now,
        forall|j1: int, j2: int|
            0 <= j1 < j2 < s.len() ==> !(s[j1].ts == e.ts && s[j2].ts == e.ts),
    ensures
        !removal_spec(s, now).contains(e),
{
    lemma_split_idx_bounds(s, now);
    let k = split_idx(s, now);
    let below = s.subrange(0, k);
    let idx = choose|idx: int| 0 <= idx < s.len() && s[idx] == e;
    assert(idx < k);
    assert(below[idx] == e);
    assert(sorted_by_ts(below)) by {
        assert(forall|a: int, b: int|
            0 <= a <= b < below.len() ==> below[a] == s[a] && below[b] == s[b]);
    }
    assert(forall|j1: int, j2: int|
        0 <= j1 < j2 < below.len() ==> !(below[j1].ts == e.ts && below[j2].ts == e.ts)) by {
        assert(forall|j: int| 0 <= j < below.len() ==> below[j] == s[j]);
    }
    lemma_unit_window_step(below, now, 0, e);
}

/// What the thinning leaves in play below the threshold: the survivor of
/// each granularity window, oldest first. Entries at or past the first
/// threshold are outside this sequence (the caller sets them aside).
pub open spec fn surviving(arr: Seq<Entry>, t: int, g: int, i: int) -> Seq<Entry>
    decreases thin_measure(arr, t),
    when 1 <= g && 0 <= i <= 4 && sorted_by_ts(arr)
    via surviving_dec
{
    let k = split_idx(arr, t);
    let arr1 = arr.subrange(0, k);
    let t1 = round_down(t - 1, g);
    if arr1.len() == 0 {
        Seq::empty()
    } else {
        let taken = arr1.last().ts >= t1;
        let arr2 = if taken { arr1.drop_last() } else { arr1 };
        let g1 = if i == 4 { 2 * g } else { g };
        let i1 = if i == 4 { 0int } else { i + 1 };
        if taken {
            surviving(arr2, t1, g1, i1).push(arr1.last())
        } else {
            surviving(arr2, t1, g1, i1)
        }
    }
}

#[via_fn]
proof fn surviving_dec(arr: Seq<Entry>, t: int, g: int, i: int) {
    lemma_split_idx_bounds(arr, t);
    let k = split_idx(arr, t);
    let arr1 = arr.subrange(0, k);
    if arr1.len() > 0 {
        if t <= arr[0].ts {
            lemma_split_idx_zero(arr, t);
            assert(false);
        }
        let t1 = round_down(t - 1, g);
        lemma_round_down(t - 1, g);
        let arr2 = if arr1.last().ts >= t1 {
            arr1.drop_last()
        } else {
            arr1
        };
        assert(sorted_by_ts(arr2)) by {
            assert(forall|a: int, b: int|
                0 <= a <= b < arr2.len() ==> arr2[a] == arr[a] && arr2[b] == arr[b]);
        }
        if arr2.len() > 0 {
            assert(arr2[0] == arr[0]);
        }
    }
}

/// The survivors are sorted and all lie strictly below the threshold.
pub proof fn lemma_surviving_wf(arr: Seq<Entry>, t: int, g: int, i: int)
    requires
        1 <= g,
        0 <= i <= 4,
        sorted_by_ts(arr),
    ensures
        sorted_by_ts(surviving(arr, t, g, i)),
        forall|w: int| 0 <= w < surviving(arr, t, g, i).len()
            ==> #[trigger] surviving(arr, t, g, i)[w].ts < t,
    decreases thin_measure(arr, t),
{
    lemma_split_idx_bounds(arr, t);
    let k = split_idx(arr, t);
    let arr1 = arr.subrange(0, k);
    let t1 = round_down(t - 1, g);
    lemma_round_down(t - 1, g);
    if arr1.len() == 0 {
    } else {
        if t <= arr[0].ts {
            lemma_split_idx_zero(arr, t);
            assert(false);
        }
        let taken = arr1.last().ts >= t1;
        let arr2 = if taken { arr1.drop_last() } else { arr1 };
        assert(sorted_by_ts(arr2)) by {
            assert(forall|a: int, b: int|
                0 <= a <= b < arr2.len() ==> arr2[a] == arr[a] && arr2[b] == arr[b]);
        }
        let g1 = if i == 4 { 2 * g } else { g };
        let i1 = if i == 4 { 0int } else { i + 1 };
        if arr2.len() > 0 {
            assert(arr2[0] == arr[0]);
        }
        lemma_surviving_wf(arr2, t1, g1, i1);
        if taken {
            let sv = arr1.last();
            assert(sv.ts < t);
            let rest = surviving(arr2, t1, g1, i1);
            assert(forall|w: int| 0 <= w < rest.len() ==> #[trigger] rest[w].ts < t1);
            assert(sorted_by_ts(rest.push(sv))) by {
                assert(forall|w: int|
                    0 <= w < rest.len() ==> rest.push(sv)[w] == rest[w]);
            }
        }
    }
}

/// Thinning splits the entries in two: what it removes and what survives,
/// together exactly the input.
pub proof fn lemma_thin_partition(arr: Seq<Entry>, t: int, g: int, i: int)
    requires
        1 <= g,
        0 <= i <= 4,
        sorted_by_ts(arr),
    ensures
        surviving(arr, t, g, i).to_multiset().add(thin(arr, t, g, i).to_multiset())
            =~= arr.to_multiset(),
    decreases thin_measure(arr, t),
{
    broadcast use vstd::seq_lib::group_to_multiset_ensures;
    broadcast use vstd::multiset::group_multiset_axioms;

    lemma_split_idx_bounds(arr, t);
    let k = split_idx(arr, t);
    let region = arr.subrange(k, arr.len() as int);
    let popped = region.reverse();
    let arr1 = arr.subrange(0, k);
    let t1 = round_down(t - 1, g);
    lemma_round_down(t - 1, g);
    assert(arr =~= arr1 + region);
    vstd::seq_lib::lemma_multiset_commutative(arr1, region);
    region.lemma_reverse_to_multiset();
    if arr1.len() == 0 {
        assert(arr1.to_multiset().len() == 0);
        assert(surviving(arr, t, g, i).to_multiset().len() == 0);
        assert(thin(arr, t, g, i) == popped);
    } else {
        if t <= arr[0].ts {
            lemma_split_idx_zero(arr, t);
            assert(false);
        }
        let taken = arr1.last().ts >= t1;
        let arr2 = if taken { arr1.drop_last() } else { arr1 };
        assert(sorted_by_ts(arr2)) by {
            assert(forall|a: int, b: int|
                0 <= a <= b < arr2.len() ==> arr2[a] == arr[a] && arr2[b] == arr[b]);
        }
        let g1 = if i == 4 { 2 * g } else { g };
        let i1 = if i == 4 { 0int } else { i + 1 };
        if arr2.len() > 0 {
            assert(arr2[0] == arr[0]);
        }
        lemma_thin_partition(arr2, t1, g1, i1);
        let rest_s = surviving(arr2, t1, g1, i1);
        let rest_t = thin(arr2, t1, g1, i1);
        assert(thin(arr, t, g, i) == popped + rest_t);
        vstd::seq_lib::lemma_multiset_commutative(popped, rest_t);
        if taken {
            let sv = arr1.last();
            assert(arr1 =~= arr2.push(sv));
            assert(arr2.push(sv).to_multiset() =~= arr2.to_multiset().insert(sv));
            assert(surviving(arr, t, g, i) == rest_s.push(sv));
            assert(rest_s.push(sv).to_multiset() =~= rest_s.to_multiset().insert(sv));
        } else {
            assert(surviving(arr, t, g, i) == rest_s);
        }
    }
}

/// Running retention again over what it left behind removes nothing: the
/// removal set of `surviving ++ set-aside-future-entries` is empty.
pub proof fn lemma_idempotent(arr: Seq<Entry>, t: int, g: int, i: int)
    requires
        1 <= g,
        0 <= i <= 4,
        sorted_by_ts(arr),
    ensures
        thin(surviving(arr, t, g, i), t, g, i) =~= Seq::<Entry>::empty(),
    decreases thin_measure(arr, t),
{
    lemma_split_idx_bounds(arr, t);
    let k = split_idx(arr, t);
    let arr1 = arr.subrange(0, k);
    let t1 = round_down(t - 1, g);
    lemma_round_down(t - 1, g);
    let kept = surviving(arr, t, g, i);
    lemma_surviving_wf(arr, t, g, i);
    assert(kept.len() > 0 ==> kept[kept.len() - 1].ts < t);
    lemma_split_idx_is(kept, t, kept.len() as int);
    assert(kept.subrange(0, kept.len() as int) =~= kept);
    assert(kept.subrange(kept.len() as int, kept.len() as int).reverse()
        =~= Seq::<Entry>::empty());
    if arr1.len() == 0 {
        assert(kept =~= Seq::<Entry>::empty());
    } else {
        if t <= arr[0].ts {
            lemma_split_idx_zero(arr, t);
            assert(false);
        }
        let taken = arr1.last().ts >= t1;
        let arr2 = if taken { arr1.drop_last() } else { arr1 };
        assert(sorted_by_ts(arr2)) by {
            assert(forall|a: int, b: int|
                0 <= a <= b < arr2.len() ==> arr2[a] == arr[a] && arr2[b] == arr[b]);
        }
        let g1 = if i == 4 { 2 * g } else { g };
        let i1 = if i == 4 { 0int } else { i + 1 };
        if arr2.len() > 0 {
            assert(arr2[0] == arr[0]);
        }
        lemma_idempotent(arr2, t1, g1, i1);
        lemma_surviving_wf(arr2, t1, g1, i1);
        let rest_s = surviving(arr2, t1, g1, i1);
        if taken {
            let sv = arr1.last();
            assert(kept == rest_s.push(sv));
            assert(kept.last() == sv);
            assert(sv.ts >= t1);
            assert(kept.drop_last() =~= rest_s);
            assert(thin(kept, t, g, i) ==
                kept.subrange(kept.len() as int, kept.len() as int).reverse()
                + thin(rest_s, t1, g1, i1));
        } else {
            assert(kept == rest_s);
            if kept.len() == 0 {
            } else {
                assert(kept.last().ts < t1);
                assert(thin(kept, t, g, i) ==
                    kept.subrange(kept.len() as int, kept.len() as int).reverse()
                    + thin(rest_s, t1, g1, i1));
            }
        }
    }
}

/// What one retention run leaves under the destination, in timestamp
/// order: the window survivors followed by the entries at or past the
/// reference time, which retention sets aside untouched.
pub open spec fn remaining_spec(s: Seq<Entry>, now: int) -> Seq<Entry>
    recommends
        sorted_by_ts(s),
{
    surviving(s.subrange(0, split_idx(s, now)), now, 1, 0)
        + s.subrange(split_idx(s, now), s.len() as int)
}

/// Retention is idempotent: what it removes and what remains partition the
/// input, and running it again over the remainder, with the same reference
/// time, removes nothing.
pub proof fn lemma_retention_idempotent(s: Seq<Entry>, now: int)
    requires
        sorted_by_ts(s),
    ensures
        remaining_spec(s, now).to_multiset().add(removal_spec(s, now).to_multiset())
            =~= s.to_multiset(),
        removal_spec(remaining_spec(s, now), now) =~= Seq::<Entry>::empty(),
{
    broadcast use vstd::multiset::group_multiset_axioms;

    lemma_split_idx_bounds(s, now);
    let k = split_idx(s, now);
    let below = s.subrange(0, k);
    let future = s.subrange(k, s.len() as int);
    assert(sorted_by_ts(below)) by {
        assert(forall|a: int, b: int|
            0 <= a <= b < below.len() ==> below[a] == s[a] && below[b] == s[b]);
    }
    let kept = surviving(below, now, 1, 0);
    lemma_surviving_wf(below, now, 1, 0);
    let rem = kept + future;

    // Partition.
    lemma_thin_partition(below, now, 1, 0);
    assert(s =~= below + future);
    vstd::seq_lib::lemma_multiset_commutative(below, future);
    vstd::seq_lib::lemma_multiset_commutative(kept, future);

    // The second run splits the remainder at the same point.
    assert(forall|w: int| 0 <= w < future.len() ==> future[w].ts >= now);
    assert(rem.len() - kept.len() == future.len());
    assert(forall|w: int| kept.len() <= w < rem.len() ==> rem[w] == future[w - kept.len()]);
    lemma_split_idx_is(rem, now, kept.len() as int);
    assert(rem.subrange(0, kept.len() as int) =~= kept);
    assert(sorted_by_ts(rem)) by {
        assert(forall|w: int| 0 <= w < kept.len() ==> rem[w] == kept[w]);
        assert(forall|w: int| 0 <= w < kept.len() ==> rem[w].ts < now);
    }
    lemma_idempotent(below, now, 1, 0);
}

/// A timestamp-distinct multiset passes its distinctness to every
/// rearrangement.
pub proof fn lemma_distinct_ts_perm(s: Seq<Entry>, orig: Seq<Entry>)
    requires
        distinct_ts(orig),
        s.to_multiset() == orig.to_multiset(),
    ensures
        distinct_ts(s),
{
    broadcast use vstd::seq_lib::group_to_multiset_ensures;
    broadcast use vstd::multiset::group_multiset_axioms;

    s.to_multiset_ensures();
    orig.to_multiset_ensures();
    assert forall|j1: int, j2: int|
        0 <= j1 < j2 < s.len() implies s[j1].ts != s[j2].ts by {
        if s[j1].ts == s[j2].ts {
            let x = s[j1];
            let y = s[j2];
            if x == y {
                // The entry would occur twice, hence twice in orig.
                assert(s.remove(j2).to_multiset() =~= s.to_multiset().remove(x));
                assert(s.remove(j2)[j1] == x) by {
                    s.remove_ensures(j2);
                }
                assert(s.remove(j2).contains(x));
                s.remove(j2).to_multiset_ensures();
                assert(s.remove(j2).to_multiset().count(x) > 0);
                assert(s.to_multiset().count(x) >= 2);
                assert(orig.to_multiset().count(x) >= 2);
                assert(orig.contains(x));
                let w1 = choose|w1: int| 0 <= w1 < orig.len() && orig[w1] == x;
                assert(orig.remove(w1).to_multiset() =~= orig.to_multiset().remove(x));
                assert(orig.remove(w1).to_multiset().count(x) >= 1);
                assert(orig.remove(w1).contains(x));
                let w2 = choose|w2: int|
                    0 <= w2 < orig.remove(w1).len() && orig.remove(w1)[w2] == x;
                orig.remove_ensures(w1);
                if w2 < w1 {
                    assert(orig[w2] == x);
                } else {
                    assert(orig[w2 + 1] == x);
                }
                assert(false);
            } else {
                assert(s.contains(x) && s.contains(y));
                assert(s.to_multiset().count(x) > 0 && s.to_multiset().count(y) > 0);
                assert(orig.to_multiset().count(x) > 0 && orig.to_multiset().count(y) > 0);
                assert(orig.contains(x) && orig.contains(y));
                let w1 = choose|w1: int| 0 <= w1 < orig.len() && orig[w1] == x;
                let w2 = choose|w2: int| 0 <= w2 < orig.len() && orig[w2] == y;
                assert(w1 != w2);
                assert(false);
            }
        }
    }
}

/// Sorting by timestamp has one result when no two entries share a
/// timestamp: any two sorted rearrangements of the same entries coincide.
/// The sorted rearrangement in the retention contracts is then unique, and
/// the removal list is a function of the listing and the reference time.
pub proof fn lemma_sorted_perm_unique(s1: Seq<Entry>, s2: Seq<Entry>, orig: Seq<Entry>)
    requires
        distinct_ts(orig),
        sorted_perm_of(s1, orig),
        sorted_perm_of(s2, orig),
    ensures
        s1 == s2,
    decreases s1.len(),
{
    broadcast use vstd::seq_lib::group_to_multiset_ensures;
    broadcast use vstd::multiset::group_multiset_axioms;

    lemma_distinct_ts_perm(s1, orig);
    lemma_distinct_ts_perm(s2, orig);
    s1.to_multiset_ensures();
    s2.to_multiset_ensures();
    assert(s1.to_multiset().len() == s1.len());
    assert(s2.to_multiset().len() == s2.len());
    if s1.len() == 0 {
        assert(s2.len() == 0);
        assert(s1 =~= s2);
    } else {
        assert(s2.len() == s1.len());
        let x = s1.last();
        let y = s2.last();
        assert(s1.contains(x));
        assert(s2.to_multiset().count(x) > 0);
        assert(s2.contains(x));
        let jx = choose|jx: int| 0 <= jx < s2.len() && s2[jx] == x;
        assert(x.ts <= y.ts);
        assert(s2.contains(y));
        assert(s1.to_multiset().count(y) > 0);
        assert(s1.contains(y));
        let jy = choose|jy: int| 0 <= jy < s1.len() && s1[jy] == y;
        assert(y.ts <= x.ts);
        assert(x == y) by {
            if jx < s2.len() - 1 {
                assert(s2[jx].ts != s2[s2.len() - 1].ts);
            }
        }
        let s1d = s1.drop_last();
        let s2d = s2.drop_last();
        assert(s1d.push(x) =~= s1);
        assert(s2d.push(x) =~= s2);
        assert(s1d.push(x).to_multiset() =~= s1d.to_multiset().insert(x));
        assert(s2d.push(x).to_multiset() =~= s2d.to_multiset().insert(x));
        assert forall|z: Entry|
            s1d.to_multiset().count(z) == s2d.to_multiset().count(z) by {
            assert(s1d.to_multiset().insert(x).count(z)
                == s2d.to_multiset().insert(x).count(z));
        }
        assert(s1d.to_multiset() =~= s2d.to_multiset());
        assert(sorted_by_ts(s1d)) by {
            assert(forall|a: int, b: int|
                0 <= a <= b < s1d.len() ==> s1d[a] == s1[a] && s1d[b] == s1[b]);
        }
        assert(sorted_by_ts(s2d)) by {
            assert(forall|a: int, b: int|
                0 <= a <= b < s2d.len() ==> s2d[a] == s2[a] && s2d[b] == s2[b]);
        }
        assert(distinct_ts(s1d)) by {
            assert(forall|a: int| 0 <= a < s1d.len() ==> s1d[a] == s1[a]);
        }
        assert(sorted_perm_of(s1d, s1d));
        assert(sorted_perm_of(s2d, s1d));
        lemma_sorted_perm_unique(s1d, s2d, s1d);
        assert(s1 =~= s2);
    }
}

/// With pairwise distinct timestamps, retention is a function of the
/// entries and the reference time: whichever sorted rearrangement the
/// engine works on, the removal list is the same.
pub proof fn lemma_removal_deterministic(
    s1: Seq<Entry>,
    s2: Seq<Entry>,
    orig: Seq<Entry>,
    now: int,
)
    requires
        distinct_ts(orig),
        sorted_perm_of(s1, orig),
        sorted_perm_of(s2, orig),
    ensures
        removal_spec(s1, now) == removal_spec(s2, now),
{
    lemma_sorted_perm_unique(s1, s2, orig);
}

/// Retention never selects an entry whose timestamp is at or past the
/// reference time, and selects only entries that were present.
pub proof fn lemma_future_entries_kept(s: Seq<Entry>, now: int, e: Entry)
    requires
        sorted_by_ts(s),
        removal_spec(s, now).contains(e),
    ensures
        e.ts < now,
        s.contains(e),
{
    lemma_split_idx_bounds(s, now);
    let k = split_idx(s, now);
    let below = s.subrange(0, k);
    assert(sorted_by_ts(below)) by {
        assert(forall|x: int, y: int|
            0 <= x <= y < below.len() ==> below[x] == s[x] && below[y] == s[y]);
    }
    lemma_thin_subset(below, now, 1, 0, e);
    let w = choose|w: int| 0 <= w < below.len() && below[w] == e;
    assert(s[w] == e);
    assert(s[w].ts < now) by {
        assert(s[k - 1].ts < now);
    }
}

proof fn lemma_newest_step(arr: Seq<Entry>, t: int, g: int, i: int)
    requires
        1 <= g,
        0 <= i <= 4,
        sorted_by_ts(arr),
        arr.len() > 0,
        arr.last().ts < t,
        forall|j: int| 0 <= j < arr.len() - 1 ==> arr[j].ts != arr.last().ts,
    ensures
        !thin(arr, t, g, i).contains(arr.last()),
    decreases thin_measure(arr, t),
{
    let m = arr.last();
    lemma_split_idx_is(arr, t, arr.len() as int);
    let popped = arr.subrange(arr.len() as int, arr.len() as int).reverse();
    assert(popped.len() == 0);
    let arr1 = arr.subrange(0, arr.len() as int);
    assert(arr1 =~= arr);
    let t1 = round_down(t - 1, g);
    lemma_round_down(t - 1, g);
    let g1 = if i == 4 { 2 * g } else { g };
    let i1 = if i == 4 { 0int } else { i + 1 };
    if arr1.last().ts >= t1 {
        // The newest entry is this window's survivor: it leaves play
        // without ever being selected.
        let arr2 = arr1.drop_last();
        assert(sorted_by_ts(arr2)) by {
            assert(forall|a: int, b: int|
                0 <= a <= b < arr2.len() ==> arr2[a] == arr[a] && arr2[b] == arr[b]);
        }
        assert(!arr2.contains(m)) by {
            if arr2.contains(m) {
                let w = choose|w: int| 0 <= w < arr2.len() && arr2[w] == m;
                assert(arr[w] == m);
            }
        }
        if thin(arr2, t1, g1, i1).contains(m) {
            lemma_thin_subset(arr2, t1, g1, i1, m);
        }
        assert forall|w: int| 0 <= w < thin(arr, t, g, i).len()
            implies thin(arr, t, g, i)[w] != m by {
            assert(thin(arr, t, g, i)[w] == thin(arr2, t1, g1, i1)[w - popped.len()]);
        }
    } else {
        if t <= arr[0].ts {
            assert(arr[0].ts <= m.ts);
            assert(false);
        }
        lemma_newest_step(arr, t1, g1, i1);
        assert forall|w: int| 0 <= w < thin(arr, t, g, i).len()
            implies thin(arr, t, g, i)[w] != m by {
            assert(thin(arr, t, g, i)[w] == thin(arr1, t1, g1, i1)[w - popped.len()]);
        }
    }
}

/// Whatever its age, the newest entry below the reference time is never
/// removed, as long as no other entry below the reference time shares its
/// timestamp: when the falling threshold first passes it, it is its
/// window's survivor.
pub proof fn lemma_newest_entry_kept(s: Seq<Entry>, now: int, idx: int)
    requires
        sorted_by_ts(s),
        0 <= idx < s.len(),
        s[idx].ts < now,
        forall|j: int|
            0 <= j < s.len() && j != idx && s[j].ts < now ==> s[j].ts < s[idx].ts,
    ensures
        !removal_spec(s, now).contains(s[idx]),
{
    lemma_split_idx_bounds(s, now);
    let k = split_idx(s, now);
    let below = s.subrange(0, k);
    assert(idx < k);
    assert(sorted_by_ts(below)) by {
        assert(forall|a: int, b: int|
            0 <= a <= b < below.len() ==> below[a] == s[a] && below[b] == s[b]);
    }
    assert(idx == k - 1) by {
        if idx < k - 1 {
            assert(s[k - 1].ts < now);
            assert(s[k - 1].ts < s[idx].ts);
            assert(s[idx].ts <= s[k - 1].ts);
        }
    }
    assert(below.last() == s[idx]);
    assert(forall|j: int| 0 <= j < below.len() - 1 ==> below[j] == s[j]);
    lemma_newest_step(below, now, 1, 0);
}

/// No two entries share a timestamp.
pub open spec fn distinct_ts(s: Seq<Entry>) -> bool {
    forall|j1: int, j2: int| 0 <= j1 < j2 < s.len() ==> s[j1].ts != s[j2].ts
}

proof fn lemma_thin_monotone(a: Seq<Entry>, b: Seq<Entry>, t: int, g: int, i: int, e: Entry)
    requires
        1 <= g,
        0 <= i <= 4,
        sorted_by_ts(a),
        sorted_by_ts(b),
        distinct_ts(a),
        distinct_ts(b),
        forall|x: Entry| #[trigger] a.contains(x) ==> b.contains(x),
        thin(a, t, g, i).contains(e),
    ensures
        thin(b, t, g, i).contains(e),
    decreases thin_measure(b, t),
{
    lemma_split_idx_bounds(a, t);
    lemma_split_idx_bounds(b, t);
    let ka = split_idx(a, t);
    let kb = split_idx(b, t);
    let pa = a.subrange(ka, a.len() as int).reverse();
    let pb = b.subrange(kb, b.len() as int).reverse();
    let a1 = a.subrange(0, ka);
    let b1 = b.subrange(0, kb);
    assert forall|w: int| 0 <= w < ka implies a[w].ts < t by {
        assert(a[ka - 1].ts < t);
    }
    assert forall|w: int| 0 <= w < kb implies b[w].ts < t by {
        assert(b[kb - 1].ts < t);
    }
    let t1 = round_down(t - 1, g);
    lemma_round_down(t - 1, g);
    let g1 = if i == 4 { 2 * g } else { g };
    let i1 = if i == 4 { 0int } else { i + 1 };

    let w0 = choose|w0: int|
        0 <= w0 < thin(a, t, g, i).len() && thin(a, t, g, i)[w0] == e;
    if a1.len() == 0 || w0 < pa.len() {
        // e was selected at this threshold: it sits in a's tail at or above
        // t, so it sits in b's tail as well.
        assert(pa[w0] == e);
        assert(e == a[a.len() - 1 - w0]);
        assert(e.ts >= t);
        assert(a.contains(e));
        assert(b.contains(e));
        let jb = choose|jb: int| 0 <= jb < b.len() && b[jb] == e;
        assert(jb >= kb);
        assert(pb[b.len() - 1 - jb] == e);
        assert(0 <= b.len() - 1 - jb < pb.len());
        if b1.len() == 0 {
            assert(thin(b, t, g, i) == pb);
        } else {
            assert(thin(b, t, g, i)[b.len() - 1 - jb] == e);
        }
    } else {
        // e is selected in a later window; relate the two states after one
        // step and recurse.
        let taken_a = a1.last().ts >= t1;
        let a2 = if taken_a { a1.drop_last() } else { a1 };
        assert(thin(a, t, g, i) == pa + thin(a2, t1, g1, i1));
        assert(thin(a2, t1, g1, i1).contains(e)) by {
            assert(thin(a, t, g, i)[w0] == thin(a2, t1, g1, i1)[w0 - pa.len()]);
        }
        // b's prefix is nonempty: a's prefix head lives in it.
        assert(a1[0] == a[0]);
        assert(a.contains(a[0]));
        assert(b.contains(a[0]));
        let j0 = choose|j0: int| 0 <= j0 < b.len() && b[j0] == a[0];
        assert(j0 < kb);
        assert(b1.len() > 0);
        let taken_b = b1.last().ts >= t1;
        let b2 = if taken_b { b1.drop_last() } else { b1 };
        assert(thin(b, t, g, i) == pb + thin(b2, t1, g1, i1));
        // The newest entry of b's prefix is at least as new as a's.
        assert(a1.last().ts <= b1.last().ts) by {
            assert(a1.last() == a[ka - 1]);
            assert(a.contains(a[ka - 1]));
            assert(b.contains(a[ka - 1]));
            let jm = choose|jm: int| 0 <= jm < b.len() && b[jm] == a[ka - 1];
            assert(jm < kb);
            assert(b[jm].ts <= b[kb - 1].ts);
        }
        assert(!(taken_a && !taken_b));
        assert(sorted_by_ts(a2)) by {
            assert(forall|x: int, y: int|
                0 <= x <= y < a2.len() ==> a2[x] == a[x] && a2[y] == a[y]);
        }
        assert(sorted_by_ts(b2)) by {
            assert(forall|x: int, y: int|
                0 <= x <= y < b2.len() ==> b2[x] == b[x] && b2[y] == b[y]);
        }
        assert(distinct_ts(a2)) by {
            assert(forall|x: int| 0 <= x < a2.len() ==> a2[x] == a[x]);
        }
        assert(distinct_ts(b2)) by {
            assert(forall|x: int| 0 <= x < b2.len() ==> b2[x] == b[x]);
        }
        assert forall|x: Entry| #[trigger] a2.contains(x) implies b2.contains(x) by {
            let ja = choose|ja: int| 0 <= ja < a2.len() && a2[ja] == x;
            assert(a[ja] == x);
            assert(ja < ka);
            assert(x.ts < t);
            assert(a.contains(x));
            assert(b.contains(x));
            let jb = choose|jb: int| 0 <= jb < b.len() && b[jb] == x;
            assert(jb < kb);
            assert(b1[jb] == x);
            if taken_b {
                if jb == kb - 1 {
                    // x would be the newest entry of b's prefix; it then has
                    // a's newest timestamp too and could not have survived
                    // a's own survivor drop.
                    assert(x == b1.last());
                    assert(x.ts >= t1);
                    assert(x.ts <= a1.last().ts);
                    assert(a1.last().ts <= b1.last().ts);
                    assert(x.ts == a1.last().ts);
                    assert(taken_a);
                    assert(a2.len() == ka - 1);
                    assert(ja < ka - 1);
                    assert(a[ja].ts == a[ka - 1].ts);
                    assert(false);
                }
                assert(b2[jb] == x);
            } else {
                assert(b2[jb] == x);
            }
        }
        if t <= b[0].ts {
            lemma_split_idx_zero(b, t);
            assert(false);
        }
        if b2.len() > 0 {
            assert(b2[0] == b[0]);
        }
        lemma_thin_monotone(a2, b2, t1, g1, i1, e);
        let wb = choose|wb: int|
            0 <= wb < thin(b2, t1, g1, i1).len() && thin(b2, t1, g1, i1)[wb] == e;
        assert(thin(b, t, g, i)[pb.len() + wb] == e);
    }
}

/// Monotonic retention over sets with pairwise distinct timestamps: every
/// entry removed from a set of entries is also removed from any superset
/// judged at the same reference time. (The kept set is not monotone: a
/// window's survivor in the smaller set may lose that place to a newer
/// entry in the larger one, and with shared timestamps which of the equal
/// entries survives depends on the company it keeps.)
pub proof fn lemma_removal_monotone(a: Seq<Entry>, b: Seq<Entry>, now: int, e: Entry)
    requires
        sorted_by_ts(a),
        sorted_by_ts(b),
        distinct_ts(a),
        distinct_ts(b),
        forall|x: Entry| #[trigger] a.contains(x) ==> b.contains(x),
        removal_spec(a, now).contains(e),
    ensures
        removal_spec(b, now).contains(e),
{
    lemma_split_idx_bounds(a, now);
    lemma_split_idx_bounds(b, now);
    let ka = split_idx(a, now);
    let kb = split_idx(b, now);
    let below_a = a.subrange(0, ka);
    let below_b = b.subrange(0, kb);
    assert(sorted_by_ts(below_a)) by {
        assert(forall|x: int, y: int|
            0 <= x <= y < below_a.len() ==> below_a[x] == a[x] && below_a[y] == a[y]);
    }
    assert(sorted_by_ts(below_b)) by {
        assert(forall|x: int, y: int|
            0 <= x <= y < below_b.len() ==> below_b[x] == b[x] && below_b[y] == b[y]);
    }
    assert(distinct_ts(below_a)) by {
        assert(forall|x: int| 0 <= x < below_a.len() ==> below_a[x] == a[x]);
    }
    assert(distinct_ts(below_b)) by {
        assert(forall|x: int| 0 <= x < below_b.len() ==> below_b[x] == b[x]);
    }
    assert forall|w: int| 0 <= w < ka implies a[w].ts < now by {
        assert(a[ka - 1].ts < now);
    }
    assert forall|w: int| 0 <= w < kb implies b[w].ts < now by {
        assert(b[kb - 1].ts < now);
    }
    assert forall|x: Entry| #[trigger] below_a.contains(x) implies below_b.contains(x) by {
        let ja = choose|ja: int| 0 <= ja < below_a.len() && below_a[ja] == x;
        assert(a[ja] == x);
        assert(x.ts < now);
        assert(a.contains(x));
        assert(b.contains(x));
        let jb = choose|jb: int| 0 <= jb < b.len() && b[jb] == x;
        assert(jb < kb);
        assert(below_b[jb] == x);
    }
    lemma_thin_monotone(below_a, below_b, now, 1, 0, e);
}

/// A sorted rearrangement: same entries (as a multiset), ordered by
/// timestamp.
pub open spec fn sorted_perm_of(s: Seq<Entry>, orig: Seq<Entry>) -> bool {
    sorted_by_ts(s) && s.to_multiset() == orig.to_multiset()
}

/// Sort the entries by timestamp, oldest first.
fn sort_entries(mut v: Vec<Entry>) -> (out: Vec<Entry>)
    ensures
        sorted_perm_of(out@, v@),
{
    broadcast use vstd::seq_lib::group_to_multiset_ensures;
    broadcast use vstd::multiset::group_multiset_axioms;

    let ghost orig = v@;
    let mut out: Vec<Entry> = Vec::new();
    while v.len() > 0
        invariant
            sorted_by_ts(out@),
            out@.to_multiset().add(v@.to_multiset()) =~= orig.to_multiset(),
            forall|a: int, b: int|
                0 <= a < out@.len() && 0 <= b < v@.len() ==> out@[a].ts <= v@[b].ts,
        decreases v.len(),
    {
        let mut m: usize = 0;
        let mut j: usize = 1;
        while j < v.len()
            invariant
                0 <= m < j <= v@.len(),
                v@.len() > 0,
                forall|b: int| 0 <= b < j ==> v@[m as int].ts <= v@[b].ts,
            decreases v.len() - j,
        {
            if v[j].ts < v[m].ts {
                m = j;
            }
            j = j + 1;
        }
        let ghost v_before = v@;
        let ghost out_before = out@;
        let e = v.remove(m);
        out.push(e);
        proof {
            v_before.to_multiset_ensures();
            out_before.to_multiset_ensures();
            v_before.remove_ensures(m as int);
            assert(v_before.contains(v_before[m as int]));
            assert(v_before.to_multiset().count(v_before[m as int]) > 0);
            assert(v@ == v_before.remove(m as int));
            assert(v_before.remove(m as int).to_multiset() =~= v_before.to_multiset().remove(
                v_before[m as int]));
            assert(out_before.push(e).to_multiset() =~= out_before.to_multiset().insert(e));
            assert(out@.to_multiset().add(v@.to_multiset()) =~= orig.to_multiset());
            assert forall|b: int| 0 <= b < v@.len() implies e.ts <= v@[b].ts by {
                if b < m {
                    assert(v_before.remove(m as int)[b] == v_before[b]);
                } else {
                    assert(v_before.remove(m as int)[b] == v_before[b + 1]);
                }
            }
            assert(sorted_by_ts(out@)) by {
                assert(forall|a: int| 0 <= a < out_before.len() ==> out@[a] == out_before[a]);
            }
        }
    }
    proof {
        assert(out@.to_multiset() =~= orig.to_multiset()) by {
            assert(forall|x: Entry| !v@.contains(x));
        }
    }
    out
}

/// Decide which entries to delete. Entries with a timestamp at or past
/// `now` are never selected; the rest are thinned window by window, the
/// newest entry of each granularity window surviving. The result is
/// exactly the thinning of a sorted rearrangement of the input, and every
/// selected entry is an input entry strictly older than `now`.
pub fn select_for_removal(entries: Vec<Entry>, now: i64) -> (res: Vec<Entry>)
    ensures
        exists|s: Seq<Entry>|
            #[trigger] sorted_perm_of(s, entries@)
            && res@ == thin(s.subrange(0, split_idx(s, now as int)), now as int, 1, 0),
        forall|j: int| 0 <= j < res@.len() ==> res@[j].ts < now,
        forall|j: int| 0 <= j < res@.len() ==> entries@.to_multiset().contains(res@[j]),
{
    let ghost orig = entries@;
    let mut arr = sort_entries(entries);
    let ghost s0 = arr@;

    // Drop (keep) every trailing entry that is not strictly older than now.
    while arr.len() > 0 && arr[arr.len() - 1].ts >= now
        invariant
            arr@.len() <= s0.len(),
            arr@ == s0.subrange(0, arr@.len() as int),
            forall|j: int| arr@.len() <= j < s0.len() ==> s0[j].ts >= now,
        decreases arr.len(),
    {
        let ghost before = arr@;
        let _dropped = arr.pop();
        proof {
            assert forall|j: int| 0 <= j < arr@.len() implies arr@[j] == s0[j] by {
                assert(arr@[j] == before[j]);
                assert(before[j] == s0.subrange(0, before.len() as int)[j]);
            }
            assert(arr@ =~= s0.subrange(0, arr@.len() as int));
            assert(before[before.len() - 1] == s0[before.len() - 1]);
        }
    }
    proof {
        lemma_split_idx_is(s0, now as int, arr@.len() as int);
        assert(sorted_by_ts(arr@)) by {
            assert(forall|a: int, b: int|
                0 <= a <= b < arr@.len() ==> arr@[a] == s0[a] && arr@[b] == s0[b]);
        }
    }
    let ghost goal = thin(s0.subrange(0, split_idx(s0, now as int)), now as int, 1, 0);

    let mut res: Vec<Entry> = Vec::new();
    let mut t: i128 = now as i128;
    let mut g: i128 = 1;
    let mut i: usize = 0;
    loop
        invariant_except_break
            arr@.len() == 0 ==> t >= -0x8000_0000_0000_0000i128 + 1 - 2 * g,
        invariant
            1 <= g,
            0 <= i <= 4,
            sorted_by_ts(arr@),
            res@ + thin(arr@, t as int, g as int, i as int) =~= goal,
            i == 0 ==> t <= now - 4 * (g - 1),
            i >= 1 ==> t <= now - 4 * (g - 1) - 1 - (i - 1) * g && (t as int) % (g as int) == 0,
            arr@.len() > 0 ==> t >= arr@[0].ts + 1 - g,
        ensures
            arr@.len() == 0,
        decreases thin_measure(arr@, t as int),
    {
        let ghost arr_snap = arr@;
        let ghost res_snap = res@;
        let ghost t_snap = t as int;
        // Select every trailing entry still at or above the threshold.
        while arr.len() > 0 && (arr[arr.len() - 1].ts as i128) >= t
            invariant
                arr@.len() <= arr_snap.len(),
                arr@ == arr_snap.subrange(0, arr@.len() as int),
                res@ =~= res_snap + arr_snap.subrange(arr@.len() as int, arr_snap.len() as int).reverse(),
                forall|j: int| arr@.len() <= j < arr_snap.len() ==> arr_snap[j].ts >= t_snap,
                t == t_snap,
            decreases arr.len(),
        {
            let ghost before = arr@;
            let ghost res_before = res@;
            let e = arr.pop().unwrap();
            res.push(e);
            proof {
                let bl = before.len() as int;
                let sl = arr_snap.len() as int;
                let rl = res_snap.len() as int;
                assert forall|j: int| 0 <= j < arr@.len() implies arr@[j] == arr_snap[j] by {
                    assert(arr@[j] == before[j]);
                    assert(before[j] == arr_snap.subrange(0, bl)[j]);
                }
                assert(arr@ =~= arr_snap.subrange(0, arr@.len() as int));
                assert(e == before[bl - 1]);
                assert(e == arr_snap[bl - 1]);
                let tail = arr_snap.subrange(bl - 1, sl).reverse();
                assert forall|j: int| 0 <= j < res@.len() implies
                    res@[j] == (res_snap + tail)[j] by {
                    let old_tail = arr_snap.subrange(bl, sl).reverse();
                    if j < rl {
                        assert(res@[j] == res_before[j]);
                        assert(res_before[j] == res_snap[j]);
                    } else if j < res_before.len() {
                        assert(res@[j] == res_before[j]);
                        assert(res_before[j] == old_tail[j - rl]);
                        assert(old_tail[j - rl] == arr_snap[sl - 1 - (j - rl)]);
                        assert(tail[j - rl] == arr_snap[sl - 1 - (j - rl)]);
                    } else {
                        assert(res@[j] == e);
                        assert(j - rl == sl - bl);
                        assert(tail[j - rl] == arr_snap[sl - 1 - (sl - bl)]);
                    }
                }
                assert(res@ =~= res_snap + arr_snap.subrange(arr@.len() as int, arr_snap.len() as int).reverse());
            }
        }
        proof {
            lemma_split_idx_is(arr_snap, t as int, arr@.len() as int);
            assert(sorted_by_ts(arr@)) by {
                assert(forall|a: int, b: int|
                    0 <= a <= b < arr@.len() ==> arr@[a] == arr_snap[a] && arr@[b] == arr_snap[b]);
            }
            if arr@.len() > 0 && t as int <= arr@[0].ts {
                lemma_split_idx_zero(arr@, t as int);
                assert(arr_snap[0] == arr@[0]);
                lemma_split_idx_zero(arr_snap, t as int);
                assert(false);
            }
        }
        proof {
            lemma_round_down(t as int - 1, g as int);
            // Range bounds for the rounding step: the granularity has grown
            // by at most a quarter of the distance already descended, which
            // keeps every quantity far inside the i128 range.
            if i >= 1 {
                assert((i as int - 1) * (g as int) >= 0) by (nonlinear_arith)
                    requires i as int >= 1 && g as int >= 1;
            }
            assert(4 * (g as int) <= now as int - t as int + 4);
            if arr@.len() > 0 {
                assert(t as int >= arr@[0].ts + 1 - g as int);
            }
        }
        let t1 = round_down_exec(t - 1, g);
        proof {
            if i >= 1 {
                // t is a multiple of g, so the threshold drops by exactly g.
                let gi = g as int;
                let r = round_down(t as int - 1, gi);
                assert((t as int - gi) % gi == 0) by {
                    lemma_mod_multiples_vanish(-1, t as int, gi);
                }
                assert((r - (t as int - gi)) % gi == 0) by {
                    lemma_sub_mod_noop(r, t as int - gi, gi);
                    assert(r % gi == 0);
                    lemma_small_mod(0nat, gi as nat);
                }
                assert(0 <= r - (t as int - gi) < gi);
                lemma_small_mod((r - (t as int - gi)) as nat, gi as nat);
                assert(t1 as int == t as int - gi);
            }
        }
        let ghost m_snap = thin_measure(arr_snap, t_snap);
        proof {
            // Unfold one step of the thinning model.
            assert(thin(arr_snap, t_snap, g as int, i as int) ==
                arr_snap.subrange(split_idx(arr_snap, t_snap), arr_snap.len() as int).reverse()
                + (if arr@.len() == 0 {
                    Seq::<Entry>::empty()
                } else if arr@.last().ts >= t1 as int {
                    thin(arr@.drop_last(), t1 as int,
                        if i == 4 { 2 * g as int } else { g as int },
                        if i == 4 { 0int } else { i as int + 1 })
                } else {
                    thin(arr@, t1 as int,
                        if i == 4 { 2 * g as int } else { g as int },
                        if i == 4 { 0int } else { i as int + 1 })
                })) by {
                reveal_with_fuel(thin, 1);
                assert(arr_snap.subrange(0, split_idx(arr_snap, t_snap)) =~= arr@);
                if arr@.len() == 0 {
                    assert(thin(arr_snap, t_snap, g as int, i as int) =~=
                        arr_snap.subrange(split_idx(arr_snap, t_snap), arr_snap.len() as int).reverse());
                }
            }
        }
        t = t1;
        if arr.len() == 0 {
            proof {
                assert(thin(arr@, t as int, g as int, i as int) =~= Seq::<Entry>::empty()) by {
                    lemma_split_idx_bounds(arr@, t as int);
                    assert(split_idx(arr@, t as int) == 0);
                }
                assert(res@ =~= res_snap
                    + arr_snap.subrange(0, arr_snap.len() as int).reverse());
                assert(res@ + thin(arr@, t as int, g as int, i as int) =~= goal);
            }
            break;
        }
        let n = arr.len();
        if (arr[n - 1].ts as i128) >= t {
            let ghost before = arr@;
            let _survivor = arr.pop();
            assert(arr@ =~= before.drop_last());
        }
        proof {
            assert(sorted_by_ts(arr@)) by {
                assert(forall|a: int, b: int|
                    0 <= a <= b < arr@.len() ==> arr@[a] == arr_snap[a] && arr@[b] == arr_snap[b]);
            }
        }
        let ghost g_old = g as int;
        let ghost i_old = i as int;
        if i == 4 {
            i = 0;
            g = 2 * g;
        } else {
            i = i + 1;
        }
        proof {
            // The stepping bound carries over to the new round position.
            if i_old == 0 {
                assert((1int - 1) * g_old == 0) by (nonlinear_arith);
            } else if i_old < 4 {
                assert((i_old - 1) * g_old + g_old == i_old * g_old) by (nonlinear_arith);
            } else {
                assert((i_old - 1) * g_old == 3 * g_old) by (nonlinear_arith)
                    requires i_old == 4;
                assert(4 * (2 * g_old - 1) <= 4 * (g_old - 1) + 1 + 3 * g_old + g_old)
                    by (nonlinear_arith);
            }
            if arr@.len() > 0 {
                assert(arr@[0] == arr_snap[0]);
            }
            assert(thin_measure(arr@, t as int) < m_snap);
        }
    }
    proof {
        assert(thin(arr@, t as int, g as int, i as int) =~= Seq::<Entry>::empty()) by {
            lemma_split_idx_bounds(arr@, t as int);
            assert(split_idx(arr@, t as int) == 0);
        }
        assert(res@ =~= goal);
        let below = s0.subrange(0, split_idx(s0, now as int));
        assert forall|j: int| 0 <= j < res@.len() implies res@[j].ts < now
            && entries@.to_multiset().contains(res@[j]) by {
            lemma_split_idx_bounds(s0, now as int);
            assert(sorted_by_ts(below)) by {
                assert(forall|a: int, b: int|
                    0 <= a <= b < below.len() ==> below[a] == s0[a] && below[b] == s0[b]);
            }
            assert(thin(below, now as int, 1, 0).contains(res@[j])) by {
                assert(goal[j] == res@[j]);
            }
            lemma_thin_subset(below, now as int, 1, 0, res@[j]);
            let w = choose|w: int| 0 <= w < below.len() && below[w] == res@[j];
            assert(below[w] == s0[w]);
            assert(s0[w].ts < now) by {
                if split_idx(s0, now as int) > 0 {
                    assert(s0[split_idx(s0, now as int) - 1].ts < now);
                }
            }
            assert(s0.contains(res@[j]));
            s0.to_multiset_ensures();
            assert(s0.to_multiset().count(res@[j]) > 0);
        }
        assert(exists|s: Seq<Entry>|
            #[trigger] sorted_perm_of(s, orig)
            && res@ == thin(s.subrange(0, split_idx(s, now as int)), now as int, 1, 0)) by {
            assert(sorted_perm_of(s0, orig)
                && res@ == thin(s0.subrange(0, split_idx(s0, now as int)), now as int, 1, 0));
        }
    }
    res
}

} // verus!
