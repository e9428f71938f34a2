//! Ordering: how texts are ordered, and a stable sort.

use crate::text::{chars_of, views};
use vstd::prelude::*;

verus! {

// ---------------------------------------------------------------- texts
/// Whether `a` comes before `b` in the order of their characters' codes, the first
/// difference deciding.
pub open spec fn text_before(a: Seq<char>, b: Seq<char>) -> bool
    decreases a.len(),
{
    if b.len() == 0 {
        false
    } else if a.len() == 0 {
        true
    } else if a[0] == b[0] {
        text_before(a.skip(1), b.skip(1))
    } else {
        a[0] < b[0]
    }
}

/// Of two different texts exactly one comes before the other, and none comes before
/// itself.
pub proof fn lemma_text_total(a: Seq<char>, b: Seq<char>)
    ensures
        !text_before(a, a),
        !(text_before(a, b) && text_before(b, a)),
        a != b ==> text_before(a, b) || text_before(b, a),
    decreases a.len(),
{
    if a.len() > 0 {
        lemma_text_total(a.skip(1), a.skip(1));
        if b.len() > 0 {
            lemma_text_total(a.skip(1), b.skip(1));
            if a[0] == b[0] && a.skip(1) == b.skip(1) {
                assert(a == seq![a[0]] + a.skip(1));
                assert(b == seq![b[0]] + b.skip(1));
            }
        }
    } else if b.len() == 0 {
        assert(a == b);
    }
}

/// The order of texts is transitive.
pub proof fn lemma_text_transitive(a: Seq<char>, b: Seq<char>, c: Seq<char>)
    requires
        text_before(a, b),
        text_before(b, c),
    ensures
        text_before(a, c),
    decreases a.len(),
{
    if a.len() > 0 && a[0] == b[0] && b[0] == c[0] {
        lemma_text_transitive(a.skip(1), b.skip(1), c.skip(1));
    }
}

/// Whether `a` comes before `b`.
pub fn precedes(a: &str, b: &str) -> (yes: bool)
    ensures
        yes == text_before(a@, b@),
{
    let x = chars_of(a);
    let y = chars_of(b);
    let mut i: usize = 0;
    assert(x@.skip(0) == x@);
    assert(y@.skip(0) == y@);
    while i < x.len() && i < y.len() && x[i] == y[i]
        invariant
            i <= x@.len(),
            i <= y@.len(),
            x@ == a@,
            y@ == b@,
            text_before(a@, b@) == text_before(x@.skip(i as int), y@.skip(i as int)),
        decreases x@.len() - i,
    {
        assert(x@.skip(i as int).skip(1) == x@.skip(i + 1));
        assert(y@.skip(i as int).skip(1) == y@.skip(i + 1));
        i += 1;
    }
    if i == y.len() {
        false
    } else if i == x.len() {
        true
    } else {
        x[i] < y[i]
    }
}

// ---------------------------------------------------------------- sorting
/// A type whose values have an order for lists to be sorted by.
pub trait Ranked: View + Sized {
    /// Whether `a` has to stand before `b`.
    spec fn ranks_before(a: Self::V, b: Self::V) -> bool;

    fn goes_before(&self, other: &Self) -> (yes: bool)
        ensures
            yes == Self::ranks_before(self@, other@),
    ;
}

/// `items` with `x` put in behind everything that need not stand after it.
pub open spec fn inserted<V>(items: Seq<V>, x: V, before: spec_fn(V, V) -> bool) -> Seq<V>
    decreases items.len(),
{
    if items.len() > 0 && before(x, items.last()) {
        inserted(items.drop_last(), x, before).push(items.last())
    } else {
        items.push(x)
    }
}

/// `items` in order. Items of which neither has to stand before the other stay as
/// they were.
pub open spec fn sorted<V>(items: Seq<V>, before: spec_fn(V, V) -> bool) -> Seq<V>
    decreases items.len(),
{
    if items.len() == 0 {
        items
    } else {
        inserted(sorted(items.drop_last(), before), items.last(), before)
    }
}

/// Whether no item stands after one that it has to stand before.
pub open spec fn in_order<V>(items: Seq<V>, before: spec_fn(V, V) -> bool) -> bool {
    forall|i: int, j: int| 0 <= i < j < items.len() ==> !before(#[trigger] items[j], #[trigger] items[i])
}

/// Whether `before` can order a list: nothing comes before itself, and not coming
/// before is transitive.
pub open spec fn is_ranking<V>(before: spec_fn(V, V) -> bool) -> bool {
    &&& forall|a: V, b: V| #[trigger] before(a, b) ==> !before(b, a)
    &&& forall|a: V, b: V, c: V|
        #![trigger before(b, a), before(c, b)]
        !before(b, a) && !before(c, b) ==> !before(c, a)
}

proof fn lemma_inserted<V>(items: Seq<V>, x: V, before: spec_fn(V, V) -> bool)
    ensures
        inserted(items, x, before).len() == items.len() + 1,
        inserted(items, x, before).to_multiset() == items.to_multiset().insert(x),
    decreases items.len(),
{
    broadcast use vstd::seq_lib::group_to_multiset_ensures;

    if items.len() > 0 && before(x, items.last()) {
        lemma_inserted(items.drop_last(), x, before);
        assert(items == items.drop_last().push(items.last()));
        assert(inserted(items, x, before).to_multiset() =~= items.to_multiset().insert(x));
    }
}

/// Sorting keeps every item, as often as it occurs.
pub proof fn lemma_sorted_keeps_items<V>(items: Seq<V>, before: spec_fn(V, V) -> bool)
    ensures
        sorted(items, before).len() == items.len(),
        sorted(items, before).to_multiset() == items.to_multiset(),
    decreases items.len(),
{
    broadcast use vstd::seq_lib::group_to_multiset_ensures;

    if items.len() > 0 {
        lemma_sorted_keeps_items(items.drop_last(), before);
        lemma_inserted(sorted(items.drop_last(), before), items.last(), before);
        assert(items == items.drop_last().push(items.last()));
    }
}

proof fn lemma_inserted_in_order<V>(items: Seq<V>, x: V, before: spec_fn(V, V) -> bool)
    requires
        is_ranking(before),
        in_order(items, before),
    ensures
        in_order(inserted(items, x, before), before),
        forall|k: int|
            0 <= k < inserted(items, x, before).len() ==> #[trigger] inserted(items, x, before)[k]
                == x || items.contains(inserted(items, x, before)[k]),
    decreases items.len(),
{
    let out = inserted(items, x, before);
    if items.len() > 0 && before(x, items.last()) {
        let rest = items.drop_last();
        assert(in_order(rest, before)) by {
            assert forall|i: int, j: int| 0 <= i < j < rest.len() implies !before(
                #[trigger] rest[j],
                #[trigger] rest[i],
            ) by {
                assert(!before(items[j], items[i]));
            }
        }
        lemma_inserted_in_order(rest, x, before);
        lemma_inserted(rest, x, before);
        let head = inserted(rest, x, before);
        assert(out == head.push(items.last()));
        assert forall|k: int| 0 <= k < out.len() implies #[trigger] out[k] == x || items.contains(
            out[k],
        ) by {
            if k < head.len() {
                assert(out[k] == head[k]);
                if head[k] != x {
                    let m = choose|m: int| 0 <= m < rest.len() && rest[m] == head[k];
                    assert(items[m] == head[k]);
                }
            } else {
                assert(items[items.len() - 1] == out[k]);
            }
        }
        assert forall|i: int, j: int| 0 <= i < j < out.len() implies !before(
            #[trigger] out[j],
            #[trigger] out[i],
        ) by {
            if j < head.len() {
                assert(out[i] == head[i] && out[j] == head[j]);
            } else {
                assert(out[i] == head[i]);
                if head[i] != x {
                    let m = choose|m: int| 0 <= m < rest.len() && rest[m] == head[i];
                    assert(!before(items[items.len() - 1], items[m]));
                } else {
                    assert(before(x, items.last()));
                }
            }
        }
    } else {
        assert(out == items.push(x));
        assert forall|k: int| 0 <= k < out.len() implies #[trigger] out[k] == x || items.contains(
            out[k],
        ) by {
            if k < items.len() {
                assert(items[k] == out[k]);
            }
        }
        assert forall|i: int, j: int| 0 <= i < j < out.len() implies !before(
            #[trigger] out[j],
            #[trigger] out[i],
        ) by {
            if j < items.len() {
                assert(!before(items[j], items[i]));
            } else {
                // out[j] is x, which need not stand before the last item.
                let last = items[items.len() - 1];
                assert(out[i] == items[i] && out[j] == x);
                if i < items.len() - 1 {
                    assert(!before(last, items[i]));
                    assert(!before(x, last));
                }
            }
        }
    }
}

/// A sorted list is in order.
pub proof fn lemma_sorted_in_order<V>(items: Seq<V>, before: spec_fn(V, V) -> bool)
    requires
        is_ranking(before),
    ensures
        in_order(sorted(items, before), before),
    decreases items.len(),
{
    if items.len() > 0 {
        lemma_sorted_in_order(items.drop_last(), before);
        lemma_inserted_in_order(sorted(items.drop_last(), before), items.last(), before);
    }
}

proof fn lemma_inserted_behind<V>(
    items: Seq<V>,
    x: V,
    before: spec_fn(V, V) -> bool,
    at: int,
    end: int,
)
    requires
        0 <= at <= end <= items.len(),
        at == 0 || !before(x, items[at - 1]),
        forall|k: int| at <= k < end ==> before(x, #[trigger] items[k]),
    ensures
        inserted(items.take(end), x, before) == items.take(end).insert(at, x),
    decreases end,
{
    let part = items.take(end);
    if end > at {
        assert(part.last() == items[end - 1]);
        assert(part.drop_last() == items.take(end - 1));
        lemma_inserted_behind(items, x, before, at, end - 1);
        assert(part.insert(at, x) =~= items.take(end - 1).insert(at, x).push(items[end - 1]));
    } else {
        assert(part.insert(at, x) =~= part.push(x));
        if end > 0 {
            assert(part.last() == items[end - 1]);
        }
    }
}

/// Sorts `items`; items of which neither has to stand before the other keep their order.
pub fn sort<T: Ranked>(items: &mut Vec<T>)
    ensures
        views(final(items)@) == sorted(views(old(items)@), |a: T::V, b: T::V| T::ranks_before(a, b)),
{
    let ghost all = items@;
    let ghost before = |a: T::V, b: T::V| T::ranks_before(a, b);
    let n: usize = items.len();
    let mut i: usize = 0;
    assert(views(items@).take(0) == views(all).take(0));
    while i < n
        invariant
            i <= n,
            n == items@.len(),
            n == all.len(),
            before == (|a: T::V, b: T::V| T::ranks_before(a, b)),
            views(items@).take(i as int) == sorted(views(all).take(i as int), before),
            forall|k: int| i <= k < n ==> items@[k] == all[k],
        decreases n - i,
    {
        let ghost start = items@;
        let x = items.remove(i);
        let ghost left = items@;
        let mut at: usize = i;
        while at > 0 && x.goes_before(&items[at - 1])
            invariant
                at <= i,
                i < n,
                items@ == left,
                left.len() == n - 1,
                before == (|a: T::V, b: T::V| T::ranks_before(a, b)),
                forall|k: int| at <= k < i ==> before(x@, #[trigger] views(left)[k]),
            decreases at,
        {
            at -= 1;
            assert(views(left)[at as int] == left[at as int]@);
        }
        proof {
            if at > 0 {
                assert(views(left)[at - 1] == left[at - 1]@);
            }
            assert(start[i as int] == all[i as int]);
            lemma_inserted_behind(views(left), x@, before, at as int, i as int);
            assert(views(left).take(i as int) == views(start).take(i as int));
            assert(views(all).take(i + 1).drop_last() == views(all).take(i as int));
            assert(views(all).take(i + 1).last() == x@);
        }
        let ghost sorted_now = views(left).take(i as int).insert(at as int, x@);
        let ghost moved = x;
        items.insert(at, x);
        proof {
            assert(items@ == left.insert(at as int, moved));
            assert(views(items@).take(i + 1) =~= sorted_now);
        }
        i += 1;
    }
    assert(views(items@).take(n as int) == views(items@));
    assert(views(all).take(n as int) == views(all));
}

// ---------------------------------------------------------------- lists without repeats
/// A type of which two different values never rank the same.
pub trait Total: Ranked {
    proof fn lemma_total(a: Self::V, b: Self::V)
        ensures
            a != b <==> Self::ranks_before(a, b) || Self::ranks_before(b, a),
    ;
}

/// `items` without each one that repeats the one before it.
pub open spec fn deduped<V>(items: Seq<V>) -> Seq<V>
    decreases items.len(),
{
    if items.len() == 0 {
        items
    } else {
        let others = deduped(items.drop_last());
        if others.len() > 0 && others.last() == items.last() {
            others
        } else {
            others.push(items.last())
        }
    }
}

/// `items` in order, each of them once.
pub open spec fn sorted_once<V>(items: Seq<V>, before: spec_fn(V, V) -> bool) -> Seq<V> {
    deduped(sorted(items, before))
}

proof fn lemma_deduped<V>(items: Seq<V>)
    ensures
        items.len() > 0 ==> deduped(items).len() > 0 && deduped(items).last() == items.last(),
        forall|x: V| #[trigger] deduped(items).contains(x) <==> items.contains(x),
    decreases items.len(),
{
    if items.len() > 0 {
        let rest = items.drop_last();
        lemma_deduped(rest);
        let others = deduped(rest);
        let out = deduped(items);
        assert forall|x: V| #[trigger] out.contains(x) <==> items.contains(x) by {
            if items.contains(x) {
                let i = choose|i: int| 0 <= i < items.len() && items[i] == x;
                if i < rest.len() {
                    assert(rest[i] == x);
                    assert(rest.contains(x));
                    assert(others.contains(x));
                    let k = choose|k: int| 0 <= k < others.len() && others[k] == x;
                    assert(out[k] == x);
                } else {
                    assert(out[out.len() - 1] == x);
                }
            }
            if out.contains(x) {
                let k = choose|k: int| 0 <= k < out.len() && out[k] == x;
                if k < others.len() {
                    assert(others[k] == x);
                    assert(others.contains(x));
                    assert(rest.contains(x));
                    let i = choose|i: int| 0 <= i < rest.len() && rest[i] == x;
                    assert(items[i] == x);
                } else {
                    assert(items[items.len() - 1] == x);
                }
            }
        }
    }
}

proof fn lemma_deduped_ascending<V>(items: Seq<V>, before: spec_fn(V, V) -> bool)
    requires
        is_ranking(before),
        forall|a: V, b: V| #![trigger before(a, b)] a != b ==> before(a, b) || before(b, a),
        in_order(items, before),
    ensures
        forall|i: int, j: int|
            0 <= i < j < deduped(items).len() ==> before(
                #[trigger] deduped(items)[i],
                #[trigger] deduped(items)[j],
            ),
    decreases items.len(),
{
    if items.len() > 0 {
        let rest = items.drop_last();
        assert(in_order(rest, before)) by {
            assert forall|i: int, j: int| 0 <= i < j < rest.len() implies !before(
                #[trigger] rest[j],
                #[trigger] rest[i],
            ) by {
                assert(!before(items[j], items[i]));
            }
        }
        lemma_deduped_ascending(rest, before);
        lemma_deduped(rest);
        let others = deduped(rest);
        let out = deduped(items);
        assert forall|i: int, j: int| 0 <= i < j < out.len() implies before(
            #[trigger] out[i],
            #[trigger] out[j],
        ) by {
            if j < others.len() {
                assert(out[i] == others[i] && out[j] == others[j]);
            } else {
                let x = items.last();
                let y = others.last();
                assert(out[j] == x && out[i] == others[i]);
                assert(others.contains(y)) by {
                    assert(others[others.len() - 1] == y);
                }
                assert(y == items[rest.len() - 1]);
                assert(!before(items[items.len() - 1], items[rest.len() - 1]));
                assert(before(y, x)) by {
                    assert(before(x, y) || before(y, x));
                }
                if i < others.len() - 1 {
                    assert(before(others[i], y));
                    assert(!before(y, others[i]));
                    assert(!before(x, y));
                    assert(!before(x, others[i]));
                    if others[i] == x {
                        assert(before(x, y));
                    }
                    assert(before(others[i], x) || before(x, others[i]));
                }
            }
        }
    }
}

/// Sorted and freed from repeats, a list is strictly ascending and holds what it
/// held before.
pub proof fn lemma_sorted_once<T: Total>(items: Seq<T::V>)
    requires
        is_ranking(|a: T::V, b: T::V| T::ranks_before(a, b)),
    ensures
        ({
            let out = sorted_once(items, |a: T::V, b: T::V| T::ranks_before(a, b));
            &&& forall|i: int, j: int|
                0 <= i < j < out.len() ==> T::ranks_before(#[trigger] out[i], #[trigger] out[j])
            &&& forall|x: T::V| #[trigger] out.contains(x) <==> items.contains(x)
        }),
{
    let before = |a: T::V, b: T::V| T::ranks_before(a, b);
    lemma_sorted_in_order(items, before);
    lemma_sorted_keeps_items(items, before);
    let ordered = sorted(items, before);
    assert forall|a: T::V, b: T::V| #![trigger before(a, b)] a != b implies before(a, b) || before(
        b,
        a,
    ) by {
        T::lemma_total(a, b);
    }
    lemma_deduped_ascending(ordered, before);
    lemma_deduped(ordered);
    let out = sorted_once(items, before);
    assert forall|i: int, j: int| 0 <= i < j < out.len() implies T::ranks_before(
        #[trigger] out[i],
        #[trigger] out[j],
    ) by {
        assert(before(out[i], out[j]));
    }
    assert forall|x: T::V| #[trigger] out.contains(x) <==> items.contains(x) by {
        vstd::seq_lib::to_multiset_contains(items, x);
        vstd::seq_lib::to_multiset_contains(ordered, x);
        assert(deduped(ordered).contains(x) <==> ordered.contains(x));
    }
}

/// Sorts `items` and keeps one of each.
pub fn sort_once<T: Total>(items: &mut Vec<T>)
    ensures
        views(final(items)@) == sorted_once(
            views(old(items)@),
            |a: T::V, b: T::V| T::ranks_before(a, b),
        ),
{
    sort(items);
    let ghost all = views(items@);
    let mut i: usize = 0;
    let ghost mut taken: int = 0;
    assert(views(items@).take(0) == all.take(0));
    while i < items.len()
        invariant
            0 <= i <= items@.len(),
            0 <= taken <= all.len(),
            items@.len() - i == all.len() - taken,
            views(items@).take(i as int) == deduped(all.take(taken)),
            views(items@).skip(i as int) == all.skip(taken),
        decreases items@.len() - i,
    {
        let ghost start = items@;
        proof {
            assert(all.skip(taken)[0] == views(items@).skip(i as int)[0]);
            assert(all[taken] == items@[i as int]@);
            assert(all.take(taken + 1).drop_last() == all.take(taken));
            assert(all.take(taken + 1).last() == all[taken]);
            assert(all.skip(taken + 1) == all.skip(taken).skip(1));
            assert(i > 0 ==> deduped(all.take(taken)).last() == items@[i - 1]@);
            if i > 0 {
                T::lemma_total(items@[i - 1]@, items@[i as int]@);
            }
        }
        if i > 0 && !items[i - 1].goes_before(&items[i]) && !items[i].goes_before(&items[i - 1]) {
            items.remove(i);
            assert(views(items@).take(i as int) == views(start).take(i as int));
            assert(views(items@).skip(i as int) == views(start).skip(i as int).skip(1));
        } else {
            assert(views(items@).take(i + 1) == views(items@).take(i as int).push(
                items@[i as int]@,
            ));
            assert(views(items@).skip(i + 1) == views(start).skip(i as int).skip(1));
            i += 1;
        }
        proof {
            taken = taken + 1;
        }
    }
    assert(all.take(taken) == all);
    assert(views(items@).take(i as int) == views(items@));
}

impl Ranked for String {
    open spec fn ranks_before(a: Seq<char>, b: Seq<char>) -> bool {
        text_before(a, b)
    }

    fn goes_before(&self, other: &String) -> (yes: bool) {
        precedes(self.as_str(), other.as_str())
    }
}

impl Total for String {
    proof fn lemma_total(a: Seq<char>, b: Seq<char>) {
        lemma_text_total(a, b);
    }
}

/// Texts can be ordered.
pub proof fn lemma_texts_are_ranked()
    ensures
        is_ranking(|a: Seq<char>, b: Seq<char>| <String as Ranked>::ranks_before(a, b)),
{
    let before = |a: Seq<char>, b: Seq<char>| <String as Ranked>::ranks_before(a, b);
    assert forall|a: Seq<char>, b: Seq<char>| #[trigger] before(a, b) implies !before(b, a) by {
        lemma_text_total(a, b);
    }
    assert forall|a: Seq<char>, b: Seq<char>, c: Seq<char>|
        #![trigger before(b, a), before(c, b)]
        !before(b, a) && !before(c, b) implies !before(c, a) by {
        lemma_text_total(a, b);
        lemma_text_total(b, c);
        lemma_text_total(a, c);
        if text_before(a, b) && text_before(b, c) {
            lemma_text_transitive(a, b, c);
        }
    }
}

} // verus!
