//! Patch drift: how the tags of `pano` variants and `perso` fields are laid out.
//!
//! A pinned entry (`@N`) keeps its tag. The tags nobody pinned are handed out to the
//! unpinned entries in an order that a patch seed shuffles, the way an update renumbers
//! a game's internals.

use vstd::prelude::*;
use rand::rngs::StdRng;
use rand::seq::SliceRandom;
use rand::SeedableRng;
use crate::text::{decimal, digits_of, int_text, nat_text, owned, push_text};

verus! {

/// The order in which a seeded shuffle leaves a list of tags.
pub uninterp spec fn seeded_shuffle(items: Seq<i64>, seed: u64) -> Seq<i64>;

/// Shuffles `items` in place with `rand`'s `SliceRandom::shuffle`, driven by
/// `StdRng::seed_from_u64(seed)`. The contract claims that the outcome depends on the
/// list and the seed alone, and that it is a rearrangement of the same items (the
/// shuffle only swaps entries).
#[verifier::external_body]
fn shuffle_seeded(items: &mut Vec<i64>, seed: u64)
    ensures
        final(items)@ == seeded_shuffle(old(items)@, seed),
        final(items)@.to_multiset() == old(items)@.to_multiset(),
{
    items.shuffle(&mut StdRng::seed_from_u64(seed));
}

// ------------------------------------------------------------------ model

/// Some entry before index `k` is pinned to tag `t`.
pub open spec fn pinned_in(pins: Seq<Option<i64>>, k: int, t: int) -> bool {
    exists|j: int| 0 <= j < k && j < pins.len() && #[trigger] pins[j] == Some(t as i64) && (t as i64) == t
}

/// Message for a pinned tag outside `0..n`.
pub open spec fn out_of_range_text(tag: i64, n: nat, index: nat) -> Seq<char> {
    "tag épinglé @"@ + decimal(tag as int) + " hors plage 0.."@ + digits_of(n) + " (variant #"@
        + digits_of(index) + ")"@
}

/// Message for a tag pinned twice.
pub open spec fn duplicate_text(tag: i64) -> Seq<char> {
    "tag épinglé @"@ + decimal(tag as int) + " en double"@
}

/// The first problem among the pins from index `i` on, entries before `i` being fine:
/// a tag outside `0..n`, or a tag pinned by an earlier entry.
pub open spec fn pin_error(pins: Seq<Option<i64>>, i: nat) -> Option<Seq<char>>
    decreases pins.len() - i,
{
    if i >= pins.len() {
        None
    } else {
        match pins[i as int] {
            Some(t) => {
                if t < 0 || t >= pins.len() {
                    Some(out_of_range_text(t, pins.len(), i))
                } else if pinned_in(pins, i as int, t as int) {
                    Some(duplicate_text(t))
                } else {
                    pin_error(pins, i + 1)
                }
            },
            None => pin_error(pins, i + 1),
        }
    }
}

/// Every pinned tag in the first `k` entries lies in `0..n` and is pinned once.
pub open spec fn pins_valid_upto(pins: Seq<Option<i64>>, k: int) -> bool {
    forall|j: int|
        0 <= j < k && j < pins.len() && #[trigger] pins[j] is Some ==> {
            let t = pins[j]->0;
            0 <= t < pins.len() && !pinned_in(pins, j, t as int)
        }
}

/// Number of unpinned entries in a list of pins.
pub open spec fn count_free(pins: Seq<Option<i64>>) -> nat
    decreases pins.len(),
{
    if pins.len() == 0 {
        0
    } else {
        count_free(pins.drop_last()) + if pins.last() is None { 1nat } else { 0nat }
    }
}

/// The tags below `k` that no entry pins, in increasing order.
pub open spec fn free_below(pins: Seq<Option<i64>>, k: nat) -> Seq<i64>
    decreases k,
{
    if k == 0 {
        Seq::empty()
    } else {
        let rest = free_below(pins, (k - 1) as nat);
        if pinned_in(pins, pins.len() as int, k - 1) {
            rest
        } else {
            rest.push((k - 1) as i64)
        }
    }
}

/// The tags of `0..n` that no entry pins, in increasing order.
pub open spec fn free_tags(pins: Seq<Option<i64>>) -> Seq<i64> {
    free_below(pins, pins.len())
}

/// Tags given the order in which the free tags are handed out: a pinned entry keeps its
/// tag, the k-th unpinned entry takes `order[k]`.
pub open spec fn fill_tags(pins: Seq<Option<i64>>, order: Seq<i64>) -> Seq<i64> {
    Seq::new(
        pins.len(),
        |i: int|
            match pins[i] {
                Some(t) => t,
                None => order[count_free(pins.take(i)) as int],
            },
    )
}

/// The tags `layout` hands out for these pins and this seed.
pub open spec fn layout_tags(pins: Seq<Option<i64>>, seed: u64) -> Seq<i64> {
    fill_tags(pins, seeded_shuffle(free_tags(pins), seed))
}

// ------------------------------------------------------------------ lemmas

proof fn lemma_pin_error_none(pins: Seq<Option<i64>>, i: nat)
    requires
        i <= pins.len(),
        pins_valid_upto(pins, i as int),
    ensures
        pin_error(pins, i) is None <==> pins_valid_upto(pins, pins.len() as int),
    decreases pins.len() - i,
{
    if i < pins.len() {
        match pins[i as int] {
            Some(t) => {
                if t < 0 || t >= pins.len() || pinned_in(pins, i as int, t as int) {
                    assert(!pins_valid_upto(pins, pins.len() as int)) by {
                        assert(pins[i as int] is Some);
                    }
                } else {
                    assert(pins_valid_upto(pins, (i + 1) as int));
                    lemma_pin_error_none(pins, i + 1);
                }
            },
            None => {
                assert(pins_valid_upto(pins, (i + 1) as int));
                lemma_pin_error_none(pins, i + 1);
            },
        }
    }
}

proof fn lemma_take_step(pins: Seq<Option<i64>>, k: int)
    requires
        0 <= k < pins.len(),
    ensures
        pins.take(k + 1).drop_last() == pins.take(k),
        pins.take(k + 1).last() == pins[k],
        count_free(pins.take(k + 1)) == count_free(pins.take(k)) + if pins[k] is None { 1nat } else { 0nat },
{
    assert(pins.take(k + 1).drop_last() =~= pins.take(k));
}

proof fn lemma_count_free_monotone(pins: Seq<Option<i64>>, a: int, b: int)
    requires
        0 <= a <= b <= pins.len(),
    ensures
        count_free(pins.take(a)) <= count_free(pins.take(b)),
        a < b && pins[a] is None ==> count_free(pins.take(a)) < count_free(pins.take(b)),
    decreases b - a,
{
    if a < b {
        lemma_take_step(pins, b - 1);
        lemma_count_free_monotone(pins, a, b - 1);
    }
}

/// The set of tags pinned among the first `k` entries.
spec fn pinned_set(pins: Seq<Option<i64>>, k: int) -> Set<int> {
    Set::new(|t: int| pinned_in(pins, k, t))
}

proof fn lemma_pinned_count(pins: Seq<Option<i64>>, k: int)
    requires
        0 <= k <= pins.len(),
        pins_valid_upto(pins, k),
    ensures
        pinned_set(pins, k).finite(),
        pinned_set(pins, k).len() + count_free(pins.take(k)) == k,
        forall|t: int| #[trigger] pinned_set(pins, k).contains(t) ==> 0 <= t < pins.len(),
    decreases k,
{
    if k == 0 {
        assert(pinned_set(pins, 0) =~= Set::<int>::empty());
        assert(pins.take(0) =~= Seq::<Option<i64>>::empty());
    } else {
        lemma_pinned_count(pins, k - 1);
        lemma_take_step(pins, k - 1);
        match pins[k - 1] {
            Some(t) => {
                assert(pins[k - 1] is Some);
                assert(pinned_set(pins, k) =~= pinned_set(pins, k - 1).insert(t as int)) by {
                    assert forall|x: int| pinned_set(pins, k).contains(x) implies
                        pinned_set(pins, k - 1).insert(t as int).contains(x) by {
                        let j = choose|j: int| 0 <= j < k && j < pins.len() && #[trigger] pins[j] == Some(x as i64) && (x as i64) == x;
                        if j < k - 1 {
                            assert(pinned_in(pins, k - 1, x));
                        }
                    }
                    assert forall|x: int| pinned_set(pins, k - 1).insert(t as int).contains(x) implies
                        pinned_set(pins, k).contains(x) by {
                        if x == t as int {
                            assert(pins[k - 1] == Some(x as i64));
                        } else {
                            let j = choose|j: int| 0 <= j < k - 1 && j < pins.len() && #[trigger] pins[j] == Some(x as i64) && (x as i64) == x;
                            assert(pinned_in(pins, k, x));
                        }
                    }
                }
                assert(!pinned_set(pins, k - 1).contains(t as int));
            },
            None => {
                assert(pinned_set(pins, k) =~= pinned_set(pins, k - 1)) by {
                    assert forall|x: int| pinned_set(pins, k).contains(x) implies
                        pinned_set(pins, k - 1).contains(x) by {
                        let j = choose|j: int| 0 <= j < k && j < pins.len() && #[trigger] pins[j] == Some(x as i64) && (x as i64) == x;
                        assert(j != k - 1);
                        assert(pinned_in(pins, k - 1, x));
                    }
                    assert forall|x: int| pinned_set(pins, k - 1).contains(x) implies
                        pinned_set(pins, k).contains(x) by {
                        let j = choose|j: int| 0 <= j < k - 1 && j < pins.len() && #[trigger] pins[j] == Some(x as i64) && (x as i64) == x;
                        assert(pinned_in(pins, k, x));
                    }
                }
            },
        }
    }
}

proof fn lemma_free_below(pins: Seq<Option<i64>>, k: nat)
    requires
        k <= pins.len(),
        pins.len() <= i64::MAX,
        pins_valid_upto(pins, pins.len() as int),
    ensures
        pinned_set(pins, pins.len() as int).filter(|t: int| t < k).finite(),
        free_below(pins, k).len() + pinned_set(pins, pins.len() as int).filter(|t: int| t < k).len() == k,
        forall|a: int, b: int| 0 <= a < b < free_below(pins, k).len()
            ==> free_below(pins, k)[a] < free_below(pins, k)[b],
        forall|a: int| 0 <= a < free_below(pins, k).len() ==> {
            let v = #[trigger] free_below(pins, k)[a];
            &&& 0 <= v < k
            &&& !pinned_in(pins, pins.len() as int, v as int)
        },
    decreases k,
{
    let n = pins.len() as int;
    lemma_pinned_count(pins, n);
    let full = pinned_set(pins, n);
    if k == 0 {
        assert(full.filter(|t: int| t < 0) =~= Set::<int>::empty());
    } else {
        lemma_free_below(pins, (k - 1) as nat);
        let below = full.filter(|t: int| t < k - 1);
        let here = full.filter(|t: int| t < k);
        if pinned_in(pins, n, k - 1) {
            assert(here =~= below.insert(k - 1));
            assert(!below.contains(k - 1));
        } else {
            assert(here =~= below);
        }
    }
}

/// A pinned entry keeps its pinned tag whatever the patch seed: pinned code survives every
/// rebuild.
pub proof fn lemma_pinned_tag_stable(pins: Seq<Option<i64>>, s1: u64, s2: u64, i: int)
    requires
        0 <= i < pins.len(),
        pins[i] is Some,
    ensures
        layout_tags(pins, s1)[i] == pins[i]->0,
        layout_tags(pins, s1)[i] == layout_tags(pins, s2)[i],
{
}

/// `0..n` as a list of tags.
pub open spec fn all_tags(n: nat) -> Seq<i64> {
    Seq::new(n, |k: int| k as i64)
}

/// `n` distinct tags, all in `0..n`, are `0..n` rearranged: the same tags, each once.
pub proof fn lemma_distinct_tags_are_a_permutation(t: Seq<i64>)
    requires
        t.len() <= i64::MAX,
        forall|i: int| 0 <= i < t.len() ==> 0 <= #[trigger] t[i] < t.len(),
        forall|i: int, j: int| 0 <= i < j < t.len() ==> #[trigger] t[i] != #[trigger] t[j],
    ensures
        t.to_multiset() == all_tags(t.len()).to_multiset(),
{
    broadcast use vstd::seq_lib::group_to_multiset_ensures;
    broadcast use vstd::seq_lib::seq_to_set_is_finite;
    broadcast use vstd::set::group_set_axioms;
    let n = t.len();
    let r = all_tags(n);
    assert(t.no_duplicates()) by {
        assert forall|i: int, j: int| 0 <= i < t.len() && 0 <= j < t.len() && i != j implies t[i] != t[j] by {
            if i < j {
                assert(t[i] != t[j]);
            } else {
                assert(t[j] != t[i]);
            }
        }
    }
    assert(r.no_duplicates());
    t.unique_seq_to_set();
    r.unique_seq_to_set();
    assert(t.to_set().subset_of(r.to_set())) by {
        assert forall|x: i64| t.to_set().contains(x) implies r.to_set().contains(x) by {
            let i = choose|i: int| 0 <= i < t.len() && t[i] == x;
            assert(r[t[i] as int] == x);
        }
    }
    assert forall|k: int| 0 <= k < n implies t.contains(#[trigger] r[k]) by {
        if !t.contains(r[k]) {
            assert(r.to_set().contains(r[k]));
            assert(!t.to_set().contains(r[k]));
            t.to_set().lemma_subset_not_in_lt(r.to_set(), r[k]);
        }
    }
    t.lemma_multiset_has_no_duplicates();
    r.lemma_multiset_has_no_duplicates();
    assert forall|x: i64| t.to_multiset().count(x) == r.to_multiset().count(x) by {
        if t.contains(x) {
            let i = choose|i: int| 0 <= i < t.len() && t[i] == x;
            assert(r[x as int] == x);
            assert(r.contains(x));
        } else if r.contains(x) {
            let k = choose|k: int| 0 <= k < r.len() && r[k] == x;
            assert(t.contains(r[k]));
        }
    }
    assert(t.to_multiset() =~= r.to_multiset());
}

/// `layout` refuses the pins exactly when one of them lies outside `0..n`, or two entries
/// pin the same tag.
pub proof fn lemma_layout_refusal(pins: Seq<Option<i64>>)
    ensures
        pin_error(pins, 0) is Some <==> (
            (exists|i: int| 0 <= i < pins.len() && #[trigger] pins[i] is Some
                && (pins[i]->0 < 0 || pins[i]->0 >= pins.len()))
            || (exists|i: int, j: int| 0 <= i < j < pins.len() && #[trigger] pins[i] is Some
                && #[trigger] pins[j] == pins[i])),
{
    lemma_pin_error_none(pins, 0);
    let bad_range = exists|i: int| 0 <= i < pins.len() && #[trigger] pins[i] is Some
        && (pins[i]->0 < 0 || pins[i]->0 >= pins.len());
    let bad_twice = exists|i: int, j: int| 0 <= i < j < pins.len() && #[trigger] pins[i] is Some
        && #[trigger] pins[j] == pins[i];
    if pins_valid_upto(pins, pins.len() as int) {
        if bad_range {
            let i = choose|i: int| 0 <= i < pins.len() && #[trigger] pins[i] is Some
                && (pins[i]->0 < 0 || pins[i]->0 >= pins.len());
            assert(pins[i] is Some);
        }
        if bad_twice {
            let (i, j) = choose|i: int, j: int| 0 <= i < j < pins.len() && #[trigger] pins[i] is Some
                && #[trigger] pins[j] == pins[i];
            assert(pins[j] is Some);
            let t = pins[j]->0;
            assert(pins[i] == Some(t as int as i64));
            assert(pinned_in(pins, j, t as int));
        }
    } else {
        let j = choose|j: int| !(0 <= j < pins.len() && j < pins.len() && #[trigger] pins[j] is Some ==> {
            let t = pins[j]->0;
            0 <= t < pins.len() && !pinned_in(pins, j, t as int)
        });
        let t = pins[j]->0;
        if !(0 <= t < pins.len()) {
            assert(bad_range);
        } else {
            assert(pinned_in(pins, j, t as int));
            let i = choose|i: int| 0 <= i < j && i < pins.len() && #[trigger] pins[i] == Some(t as i64) && (t as i64) == t;
            assert(pins[i] is Some && pins[j] == pins[i]);
            assert(bad_twice);
        }
    }
}

/// Filling the free slots with any rearrangement of the free tags gives every entry a
/// distinct tag in `0..n`, and the pinned entries their pinned tag.
pub proof fn lemma_fill_is_permutation(pins: Seq<Option<i64>>, order: Seq<i64>)
    requires
        pin_error(pins, 0) is None,
        pins.len() <= i64::MAX,
        order.to_multiset() == free_tags(pins).to_multiset(),
    ensures
        fill_tags(pins, order).len() == pins.len(),
        forall|i: int| 0 <= i < pins.len() && #[trigger] pins[i] is Some
            ==> fill_tags(pins, order)[i] == pins[i]->0,
        forall|i: int| 0 <= i < pins.len()
            ==> 0 <= #[trigger] fill_tags(pins, order)[i] < pins.len(),
        forall|i: int, j: int| 0 <= i < j < pins.len()
            ==> #[trigger] fill_tags(pins, order)[i] != #[trigger] fill_tags(pins, order)[j],
{
    let n = pins.len() as int;
    let free = free_tags(pins);
    let tags = fill_tags(pins, order);
    lemma_pin_error_none(pins, 0);
    lemma_pinned_count(pins, n);
    lemma_free_below(pins, pins.len());
    assert(pins.take(n) =~= pins);
    let full = pinned_set(pins, n);
    assert(full.filter(|t: int| t < n) =~= full);
    assert(free.len() == count_free(pins));
    broadcast use vstd::seq_lib::group_to_multiset_ensures;
    assert(order.len() == free.len()) by {
        assert(order.to_multiset().len() == free.to_multiset().len());
    }
    assert(free.no_duplicates());
    free.lemma_multiset_has_no_duplicates();
    order.lemma_multiset_has_no_duplicates_conv();
    assert forall|a: int| 0 <= a < order.len() implies {
        let v = #[trigger] order[a];
        0 <= v < n && !pinned_in(pins, n, v as int)
    } by {
        let v = order[a];
        assert(order.contains(v));
        assert(free.to_multiset().count(v) > 0);
        assert(free.contains(v));
        let b = choose|b: int| 0 <= b < free.len() && free[b] == v;
        assert(free[b] == v);
    }
    assert forall|i: int| 0 <= i < n && pins[i] is None implies
        0 <= #[trigger] count_free(pins.take(i)) < order.len() by {
        lemma_count_free_monotone(pins, i, n);
    }
    assert forall|i: int| 0 <= i < n implies 0 <= #[trigger] tags[i] < n by {
        if pins[i] is Some {
            assert(pins[i] is Some);
        } else {
            assert(0 <= count_free(pins.take(i)) < order.len());
            assert(tags[i] == order[count_free(pins.take(i)) as int]);
        }
    }
    assert forall|i: int, j: int| 0 <= i < j < n implies #[trigger] tags[i] != #[trigger] tags[j] by {
        match (pins[i], pins[j]) {
            (Some(a), Some(b)) => {
                assert(pins[j] is Some);
                assert(!pinned_in(pins, j, b as int));
                if a == b {
                    assert(pins[i] == Some((b as int) as i64));
                    assert(pinned_in(pins, j, b as int));
                }
            },
            (Some(a), None) => {
                let v = order[count_free(pins.take(j)) as int];
                assert(0 <= count_free(pins.take(j)) < order.len());
                assert(!pinned_in(pins, n, v as int));
                if a == v {
                    assert(pins[i] == Some((v as int) as i64));
                }
            },
            (None, Some(b)) => {
                let v = order[count_free(pins.take(i)) as int];
                assert(0 <= count_free(pins.take(i)) < order.len());
                assert(!pinned_in(pins, n, v as int));
                if b == v {
                    assert(pins[j] == Some((v as int) as i64));
                }
            },
            (None, None) => {
                lemma_count_free_monotone(pins, i, j);
                lemma_count_free_monotone(pins, j, n);
                let ci = count_free(pins.take(i)) as int;
                let cj = count_free(pins.take(j)) as int;
                assert(ci < cj < order.len());
                assert(order.no_duplicates());
            },
        }
    }
}

// ------------------------------------------------------------------ code

/// Marks the pinned tags, or reports the first bad pin.
fn mark_pins(pins: &[Option<i64>]) -> (r: Result<Vec<bool>, String>)
    ensures
        match r {
            Ok(used) => {
                &&& pin_error(pins@, 0) is None
                &&& used@.len() == pins@.len()
                &&& forall|t: int| 0 <= t < used@.len() ==> #[trigger] used@[t] == pinned_in(pins@, pins@.len() as int, t)
            },
            Err(msg) => pin_error(pins@, 0) == Some(msg@),
        },
{
    let n = pins.len();
    let mut used: Vec<bool> = Vec::new();
    while used.len() < n
        invariant
            used@.len() <= n,
            forall|t: int| 0 <= t < used@.len() ==> !#[trigger] used@[t],
        decreases n - used.len(),
    {
        used.push(false);
    }
    let mut i: usize = 0;
    while i < n
        invariant
            n == pins@.len(),
            i <= n,
            used@.len() == n,
            pins_valid_upto(pins@, i as int),
            forall|t: int| 0 <= t < n ==> #[trigger] used@[t] == pinned_in(pins@, i as int, t),
        decreases n - i,
    {
        match pins[i] {
            Some(tag) => {
                if tag < 0 || (tag as u64) >= (n as u64) {
                    let mut s = owned("tag épinglé @");
                    let a = int_text(tag);
                    push_text(&mut s, a.as_str());
                    push_text(&mut s, " hors plage 0..");
                    let b = nat_text(n as u64);
                    push_text(&mut s, b.as_str());
                    push_text(&mut s, " (variant #");
                    let c = nat_text(i as u64);
                    push_text(&mut s, c.as_str());
                    push_text(&mut s, ")");
                    proof {
                        lemma_pin_error_none(pins@, i as nat);
                        lemma_error_at(pins@, i as nat);
                    }
                    return Err(s);
                }
                let t = tag as usize;
                if used[t] {
                    let mut s = owned("tag épinglé @");
                    let a = int_text(tag);
                    push_text(&mut s, a.as_str());
                    push_text(&mut s, " en double");
                    proof {
                        lemma_error_at(pins@, i as nat);
                    }
                    return Err(s);
                }
                used.set(t, true);
                proof {
                    assert forall|x: int| 0 <= x < n implies #[trigger] used@[x] == pinned_in(pins@, i + 1, x) by {
                        if x == t as int {
                            assert(pins@[i as int] == Some(x as i64));
                        } else if pinned_in(pins@, i + 1, x) {
                            let j = choose|j: int| 0 <= j < i + 1 && j < pins@.len() && #[trigger] pins@[j] == Some(x as i64) && (x as i64) == x;
                            assert(j != i);
                            assert(pinned_in(pins@, i as int, x));
                        } else {
                            assert(!pinned_in(pins@, i as int, x));
                        }
                    }
                    assert(pins_valid_upto(pins@, i + 1));
                }
            },
            None => {
                proof {
                    assert forall|x: int| 0 <= x < n implies #[trigger] used@[x] == pinned_in(pins@, i + 1, x) by {
                        if pinned_in(pins@, i + 1, x) {
                            let j = choose|j: int| 0 <= j < i + 1 && j < pins@.len() && #[trigger] pins@[j] == Some(x as i64) && (x as i64) == x;
                            assert(j != i);
                            assert(pinned_in(pins@, i as int, x));
                        } else {
                            assert(!pinned_in(pins@, i as int, x));
                        }
                    }
                    assert(pins_valid_upto(pins@, i + 1));
                }
            },
        }
        i += 1;
    }
    proof {
        lemma_pin_error_none(pins@, 0);
    }
    Ok(used)
}

/// With every entry before `i` valid, the first problem is the one at `i`, if any.
proof fn lemma_error_at(pins: Seq<Option<i64>>, i: nat)
    requires
        i < pins.len(),
        pins_valid_upto(pins, i as int),
    ensures
        pin_error(pins, 0) == pin_error(pins, i),
    decreases i,
{
    if i > 0 {
        let k = (i - 1) as nat;
        assert(pins_valid_upto(pins, k as int));
        lemma_error_at(pins, k);
        match pins[k as int] {
            Some(t) => {
                assert(pins[k as int] is Some);
            },
            None => {},
        }
    }
}

/// Checks the pins of a `pano` or `perso`: `None` when every pinned tag lies in `0..n`
/// and is pinned once, else the message of the first problem.
pub fn pin_conflict(pins: &[Option<i64>]) -> (r: Option<String>)
    ensures
        match r {
            None => pin_error(pins@, 0) is None,
            Some(msg) => pin_error(pins@, 0) == Some(msg@),
        },
{
    match mark_pins(pins) {
        Ok(_) => None,
        Err(e) => Some(e),
    }
}

/// Puts free tags in the unpinned slots in the given order: a pinned entry keeps its tag,
/// the k-th unpinned entry takes `order[k]`.
pub fn fill_in(pins: &[Option<i64>], order: &[i64]) -> (tags: Vec<i64>)
    requires
        count_free(pins@) <= order@.len(),
    ensures
        tags@ == fill_tags(pins@, order@),
{
    let n = pins.len();
    let mut tags: Vec<i64> = Vec::new();
    let mut next: usize = 0;
    let mut i: usize = 0;
    while i < n
        invariant
            n == pins@.len(),
            i <= n,
            count_free(pins@) <= order@.len(),
            next == count_free(pins@.take(i as int)),
            tags@.len() == i,
            forall|j: int| 0 <= j < i ==> #[trigger] tags@[j] == fill_tags(pins@, order@)[j],
        decreases n - i,
    {
        proof {
            lemma_take_step(pins@, i as int);
            lemma_count_free_monotone(pins@, i as int, n as int);
            assert(pins@.take(n as int) =~= pins@);
        }
        match pins[i] {
            Some(t) => {
                tags.push(t);
            },
            None => {
                tags.push(order[next]);
                next += 1;
            },
        }
        i += 1;
    }
    proof {
        assert(tags@ =~= fill_tags(pins@, order@));
    }
    tags
}

/// Tag of each entry from its pins and the patch seed.
///
/// `pins[i]` is `Some(n)` when entry `i` is pinned `@n`. The unpinned entries receive
/// the free tags (`0..n` minus the pinned ones), in an order the seed shuffles. Fails
/// when a pinned tag lies outside `0..n` or is pinned twice.
pub fn layout(pins: &[Option<i64>], seed: u64) -> (r: Result<Vec<i64>, String>)
    requires
        pins@.len() <= i64::MAX,
    ensures
        match r {
            Ok(tags) => {
                &&& pin_error(pins@, 0) is None
                &&& tags@ == layout_tags(pins@, seed)
                &&& tags@.len() == pins@.len()
                &&& forall|i: int| 0 <= i < pins@.len() && #[trigger] pins@[i] is Some
                    ==> tags@[i] == pins@[i]->0
                &&& forall|i: int| 0 <= i < pins@.len() ==> 0 <= #[trigger] tags@[i] < pins@.len()
                &&& forall|i: int, j: int| 0 <= i < j < pins@.len()
                    ==> #[trigger] tags@[i] != #[trigger] tags@[j]
                &&& tags@.to_multiset() == all_tags(pins@.len()).to_multiset()
            },
            Err(msg) => pin_error(pins@, 0) == Some(msg@),
        },
{
    let used = match mark_pins(pins) {
        Ok(u) => u,
        Err(e) => return Err(e),
    };
    let n = pins.len();
    let mut free: Vec<i64> = Vec::new();
    let mut t: usize = 0;
    while t < n
        invariant
            n == pins@.len(),
            n <= i64::MAX,
            t <= n,
            used@.len() == n,
            forall|x: int| 0 <= x < n ==> #[trigger] used@[x] == pinned_in(pins@, n as int, x),
            free@ == free_below(pins@, t as nat),
        decreases n - t,
    {
        if !used[t] {
            free.push(t as i64);
        }
        t += 1;
    }
    let ghost sorted = free@;
    shuffle_seeded(&mut free, seed);
    proof {
        lemma_pin_error_none(pins@, 0);
        lemma_pinned_count(pins@, n as int);
        lemma_free_below(pins@, n as nat);
        assert(pins@.take(n as int) =~= pins@);
        let full = pinned_set(pins@, n as int);
        assert(full.filter(|x: int| x < n) =~= full);
        broadcast use vstd::seq_lib::group_to_multiset_ensures;
        assert(free@.len() == sorted.len()) by {
            assert(free@.to_multiset().len() == sorted.to_multiset().len());
        }
        lemma_fill_is_permutation(pins@, free@);
    }
    let tags = fill_in(pins, free.as_slice());
    proof {
        lemma_distinct_tags_are_a_permutation(tags@);
    }
    Ok(tags)
}

} // verus!
