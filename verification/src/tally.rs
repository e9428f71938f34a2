//! Adding figures up by label, largest first.

use crate::order::{
    is_ranking, lemma_sorted_in_order, lemma_sorted_keeps_items, lemma_text_total,
    lemma_text_transitive, precedes, sort, sorted, text_before, Ranked,
};
use crate::text::views;
use vstd::hash_map::StringHashMap;
use vstd::prelude::*;

verus! {

/// `items` without the later ones of items that are the same.
pub open spec fn distinct<T>(items: Seq<T>) -> Seq<T>
    decreases items.len(),
{
    if items.len() == 0 {
        items
    } else {
        let others = distinct(items.drop_last());
        if others.contains(items.last()) {
            others
        } else {
            others.push(items.last())
        }
    }
}

/// [`distinct`] keeps exactly one of each item.
pub proof fn lemma_distinct<T>(items: Seq<T>)
    ensures
        distinct(items).no_duplicates(),
        forall|x: T| #[trigger] distinct(items).contains(x) <==> items.contains(x),
        distinct(items).len() <= items.len(),
    decreases items.len(),
{
    if items.len() > 0 {
        let rest = items.drop_last();
        lemma_distinct(rest);
        let others = distinct(rest);
        assert forall|x: T| #[trigger] distinct(items).contains(x) <==> items.contains(x) by {
            if items.contains(x) {
                let i = choose|i: int| 0 <= i < items.len() && items[i] == x;
                if i < rest.len() {
                    assert(rest[i] == x);
                    assert(rest.contains(x));
                    assert(others.contains(x));
                    let k = choose|k: int| 0 <= k < others.len() && others[k] == x;
                    assert(distinct(items)[k] == x);
                } else if !others.contains(x) {
                    assert(distinct(items)[others.len() as int] == x);
                }
            }
            if distinct(items).contains(x) {
                let k = choose|k: int| 0 <= k < distinct(items).len() && distinct(items)[k] == x;
                if k < others.len() {
                    assert(others[k] == x);
                    assert(others.contains(x));
                    let i = choose|i: int| 0 <= i < rest.len() && rest[i] == x;
                    assert(items[i] == x);
                } else {
                    assert(items[items.len() - 1] == x);
                }
            }
        }
    }
}

/// The labels of `items`.
pub open spec fn labels(items: Seq<(Seq<char>, u64)>) -> Seq<Seq<char>> {
    items.map_values(|item: (Seq<char>, u64)| item.0)
}

/// The sum of the figures under `label`.
pub open spec fn sum_of(items: Seq<(Seq<char>, u64)>, label: Seq<char>) -> nat
    decreases items.len(),
{
    if items.len() == 0 {
        0
    } else {
        sum_of(items.drop_last(), label) + if items.last().0 == label {
            items.last().1 as nat
        } else {
            0
        }
    }
}

/// Whether the sum under every label is a figure again.
pub open spec fn sums_fit(items: Seq<(Seq<char>, u64)>) -> bool {
    forall|label: Seq<char>| #[trigger] sum_of(items, label) <= u64::MAX
}

/// Whether the row `a` stands before `b`: the larger figure first, equal ones by label.
pub open spec fn larger_first(a: (Seq<char>, u64), b: (Seq<char>, u64)) -> bool {
    a.1 > b.1 || (a.1 == b.1 && text_before(a.0, b.0))
}

/// One row for each label with the sum of its figures, as first seen.
pub open spec fn sums(items: Seq<(Seq<char>, u64)>) -> Seq<(Seq<char>, u64)> {
    distinct(labels(items)).map_values(|label: Seq<char>| (label, sum_of(items, label) as u64))
}

/// One row for each label with the sum of its figures, the largest first.
pub open spec fn grouped(items: Seq<(Seq<char>, u64)>) -> Seq<(Seq<char>, u64)> {
    sorted(
        sums(items),
        |a: (Seq<char>, u64), b: (Seq<char>, u64)|
            <(String, u64) as Ranked>::ranks_before(a, b),
    )
}

impl Ranked for (String, u64) {
    open spec fn ranks_before(a: (Seq<char>, u64), b: (Seq<char>, u64)) -> bool {
        larger_first(a, b)
    }

    fn goes_before(&self, other: &(String, u64)) -> (yes: bool) {
        self.1 > other.1 || (self.1 == other.1 && precedes(self.0.as_str(), other.0.as_str()))
    }
}

// ---------------------------------------------------------------- laws
/// Rows can be ordered by figure and label.
pub proof fn lemma_larger_first_is_ranking()
    ensures
        is_ranking(
            |a: (Seq<char>, u64), b: (Seq<char>, u64)|
                <(String, u64) as Ranked>::ranks_before(a, b),
        ),
{
    let before = |a: (Seq<char>, u64), b: (Seq<char>, u64)|
        <(String, u64) as Ranked>::ranks_before(a, b);
    assert forall|a: (Seq<char>, u64), b: (Seq<char>, u64)| #[trigger]
        before(a, b) implies !before(b, a) by {
        lemma_text_total(a.0, b.0);
    }
    assert forall|a: (Seq<char>, u64), b: (Seq<char>, u64), c: (Seq<char>, u64)|
        #![trigger before(b, a), before(c, b)]
        !before(b, a) && !before(c, b) implies !before(c, a) by {
        lemma_text_total(a.0, b.0);
        lemma_text_total(b.0, c.0);
        lemma_text_total(a.0, c.0);
        if text_before(a.0, b.0) && text_before(b.0, c.0) {
            lemma_text_transitive(a.0, b.0, c.0);
        }
    }
}

/// The rows of a grouping: the larger figure stands before the smaller, and equal figures
/// stand in order of label; each label that occurs has exactly one row, which holds the
/// sum of its figures.
pub proof fn lemma_grouped(items: Seq<(Seq<char>, u64)>)
    requires
        sums_fit(items),
    ensures
        forall|i: int, j: int|
            0 <= i < j < grouped(items).len() ==> larger_first(
                #[trigger] grouped(items)[i],
                #[trigger] grouped(items)[j],
            ),
        forall|label: Seq<char>, n: u64| #[trigger]
            grouped(items).contains((label, n)) <==> labels(items).contains(label) && n == sum_of(
                items,
                label,
            ),
        grouped(items).len() == distinct(labels(items)).len(),
{
    let before = |a: (Seq<char>, u64), b: (Seq<char>, u64)|
        <(String, u64) as Ranked>::ranks_before(a, b);
    lemma_larger_first_is_ranking();
    lemma_sorted_in_order(sums(items), before);
    lemma_sorted_keeps_items(sums(items), before);
    lemma_distinct(labels(items));
    let rows = grouped(items);
    assert forall|label: Seq<char>, n: u64| #[trigger]
        rows.contains((label, n)) <==> labels(items).contains(label) && n == sum_of(items, label) by {
        let names = distinct(labels(items));
        vstd::seq_lib::to_multiset_contains(rows, (label, n));
        vstd::seq_lib::to_multiset_contains(sums(items), (label, n));
        assert(rows.contains((label, n)) <==> sums(items).contains((label, n)));
        if sums(items).contains((label, n)) {
            let k = choose|k: int| 0 <= k < sums(items).len() && sums(items)[k] == (label, n);
            assert(names[k] == label);
            assert(names.contains(label));
        }
        if labels(items).contains(label) && n == sum_of(items, label) {
            assert(names.contains(label));
            let k = choose|k: int| 0 <= k < names.len() && names[k] == label;
            assert(sums(items)[k] == (label, n));
        }
    }
    let names = distinct(labels(items));
    assert forall|i: int, j: int|
        0 <= i < sums(items).len() && 0 <= j < sums(items).len() && i != j implies sums(items)[i]
        != sums(items)[j] by {
        assert(names[i] != names[j]);
    }
    sums(items).lemma_multiset_has_no_duplicates();
    rows.lemma_multiset_has_no_duplicates_conv();
    assert forall|i: int, j: int| 0 <= i < j < rows.len() implies larger_first(
        #[trigger] rows[i],
        #[trigger] rows[j],
    ) by {
        assert(!before(rows[j], rows[i]));
        assert(rows[i] != rows[j]);
        assert(rows.contains((rows[i].0, rows[i].1)));
        assert(rows.contains((rows[j].0, rows[j].1)));
        lemma_text_total(rows[i].0, rows[j].0);
    }
}

/// The sum of all figures.
pub open spec fn total(items: Seq<(Seq<char>, u64)>) -> nat
    decreases items.len(),
{
    if items.len() == 0 {
        0
    } else {
        total(items.drop_last()) + items.last().1 as nat
    }
}

/// The sum over the labels `names` of the sums of `items`.
pub open spec fn sum_over(items: Seq<(Seq<char>, u64)>, names: Seq<Seq<char>>) -> nat
    decreases names.len(),
{
    if names.len() == 0 {
        0
    } else {
        sum_over(items, names.drop_last()) + sum_of(items, names.last())
    }
}

proof fn lemma_sum_over_step(
    items: Seq<(Seq<char>, u64)>,
    names: Seq<Seq<char>>,
)
    requires
        items.len() > 0,
        names.no_duplicates(),
    ensures
        sum_over(items, names) == sum_over(items.drop_last(), names) + if names.contains(
            items.last().0,
        ) {
            items.last().1 as nat
        } else {
            0
        },
    decreases names.len(),
{
    if names.len() > 0 {
        let rest = names.drop_last();
        lemma_sum_over_step(items, rest);
        let label = items.last().0;
        if names.contains(label) {
            let k = choose|k: int| 0 <= k < names.len() && names[k] == label;
            if k < rest.len() {
                assert(rest[k] == label);
                assert(names[k] != names[names.len() - 1]);
            } else if rest.contains(label) {
                let m = choose|m: int| 0 <= m < rest.len() && rest[m] == label;
                assert(names[m] == names[names.len() - 1]);
            }
        } else {
            assert(!rest.contains(label)) by {
                if rest.contains(label) {
                    let m = choose|m: int| 0 <= m < rest.len() && rest[m] == label;
                    assert(names[m] == label);
                }
            }
            assert(names[names.len() - 1] != label);
        }
    }
}

proof fn lemma_sum_over_all(items: Seq<(Seq<char>, u64)>, names: Seq<Seq<char>>)
    requires
        names.no_duplicates(),
        forall|i: int| 0 <= i < items.len() ==> names.contains((#[trigger] items[i]).0),
    ensures
        sum_over(items, names) == total(items),
    decreases items.len(),
{
    if items.len() > 0 {
        let rest = items.drop_last();
        assert forall|i: int| 0 <= i < rest.len() implies names.contains((#[trigger] rest[i]).0) by {
            assert(rest[i] == items[i]);
        }
        lemma_sum_over_all(rest, names);
        lemma_sum_over_step(items, names);
        assert(names.contains(items[items.len() - 1].0));
    } else {
        lemma_sum_over_nothing(items, names);
    }
}

proof fn lemma_sum_over_nothing(items: Seq<(Seq<char>, u64)>, names: Seq<Seq<char>>)
    requires
        items.len() == 0,
    ensures
        sum_over(items, names) == 0,
    decreases names.len(),
{
    if names.len() > 0 {
        lemma_sum_over_nothing(items, names.drop_last());
    }
}

proof fn lemma_total_of_multiset(a: Seq<(Seq<char>, u64)>, b: Seq<(Seq<char>, u64)>)
    requires
        a.to_multiset() == b.to_multiset(),
    ensures
        total(a) == total(b),
    decreases a.len(),
{
    broadcast use vstd::seq_lib::group_to_multiset_ensures;

    vstd::seq_lib::to_multiset_len(a);
    vstd::seq_lib::to_multiset_len(b);
    if a.len() > 0 {
        let x = a.last();
        assert(a.contains(x)) by {
            assert(a[a.len() - 1] == x);
        }
        vstd::seq_lib::to_multiset_contains(a, x);
        vstd::seq_lib::to_multiset_contains(b, x);
        let k = choose|k: int| 0 <= k < b.len() && b[k] == x;
        let rest = b.remove(k);
        assert(a.drop_last().push(x) == a);
        assert(a.drop_last().to_multiset() =~= a.to_multiset().remove(x)) by {
            assert(a.to_multiset() =~= a.drop_last().to_multiset().insert(x));
        }
        assert(rest.to_multiset() =~= b.to_multiset().remove(x));
        lemma_total_of_multiset(a.drop_last(), rest);
        lemma_total_without(b, k);
    }
}

proof fn lemma_total_without(items: Seq<(Seq<char>, u64)>, k: int)
    requires
        0 <= k < items.len(),
    ensures
        total(items) == total(items.remove(k)) + items[k].1,
    decreases items.len(),
{
    let rest = items.remove(k);
    if k < items.len() - 1 {
        lemma_total_without(items.drop_last(), k);
        assert(rest.drop_last() == items.drop_last().remove(k));
        assert(rest.last() == items.last());
    } else {
        assert(rest == items.drop_last());
    }
}

proof fn lemma_total_of_sums(items: Seq<(Seq<char>, u64)>, names: Seq<Seq<char>>)
    requires
        sums_fit(items),
    ensures
        total(names.map_values(|label: Seq<char>| (label, sum_of(items, label) as u64)))
            == sum_over(items, names),
    decreases names.len(),
{
    let rows = names.map_values(|label: Seq<char>| (label, sum_of(items, label) as u64));
    if names.len() > 0 {
        lemma_total_of_sums(items, names.drop_last());
        assert(rows.drop_last() == names.drop_last().map_values(
            |label: Seq<char>| (label, sum_of(items, label) as u64),
        ));
        assert(rows.last() == (names.last(), sum_of(items, names.last()) as u64));
        assert(sum_of(items, names.last()) <= u64::MAX);
    }
}

/// What any different labels hold is no more than there is.
pub proof fn lemma_sum_over_at_most(items: Seq<(Seq<char>, u64)>, names: Seq<Seq<char>>)
    requires
        names.no_duplicates(),
    ensures
        sum_over(items, names) <= total(items),
    decreases items.len(),
{
    if items.len() > 0 {
        lemma_sum_over_at_most(items.drop_last(), names);
        lemma_sum_over_step(items, names);
    } else {
        lemma_sum_over_nothing(items, names);
    }
}

/// Grouping loses nothing: the rows add up to what the items add up to.
pub proof fn lemma_grouped_total(items: Seq<(Seq<char>, u64)>)
    requires
        sums_fit(items),
    ensures
        total(grouped(items)) == total(items),
{
    let before = |a: (Seq<char>, u64), b: (Seq<char>, u64)|
        <(String, u64) as Ranked>::ranks_before(a, b);
    let names = distinct(labels(items));
    lemma_distinct(labels(items));
    assert forall|i: int| 0 <= i < items.len() implies names.contains((#[trigger] items[i]).0) by {
        assert(labels(items)[i] == items[i].0);
        assert(labels(items).contains(items[i].0));
    }
    lemma_sum_over_all(items, names);
    lemma_total_of_sums(items, names);
    lemma_sorted_keeps_items(sums(items), before);
    lemma_total_of_multiset(grouped(items), sums(items));
}

// ---------------------------------------------------------------- grouping
/// A sum of some of the items is at most the sum of all.
proof fn lemma_sum_of_grows(items: Seq<(Seq<char>, u64)>, label: Seq<char>, n: int)
    requires
        0 <= n <= items.len(),
    ensures
        sum_of(items.take(n), label) <= sum_of(items, label),
    decreases items.len() - n,
{
    if n < items.len() {
        lemma_sum_of_grows(items, label, n + 1);
        assert(items.take(n + 1).drop_last() == items.take(n));
    } else {
        assert(items.take(n) == items);
    }
}

/// A label without items has the sum zero.
pub proof fn lemma_sum_of_absent(items: Seq<(Seq<char>, u64)>, label: Seq<char>)
    requires
        !labels(items).contains(label),
    ensures
        sum_of(items, label) == 0,
    decreases items.len(),
{
    if items.len() > 0 {
        assert(labels(items)[items.len() - 1] == items.last().0);
        assert(!labels(items.drop_last()).contains(label)) by {
            if labels(items.drop_last()).contains(label) {
                let k = choose|k: int|
                    0 <= k < items.len() - 1 && labels(items.drop_last())[k] == label;
                assert(labels(items)[k] == label);
            }
        }
        lemma_sum_of_absent(items.drop_last(), label);
    }
}

/// Adds the figures up by label: one row for each label, the largest sum first.
pub fn group(items: &[(String, u64)]) -> (rows: Vec<(String, u64)>)
    requires
        sums_fit(views(items@)),
    ensures
        views(rows@) == grouped(views(items@)),
{
    let ghost all = views(items@);
    let mut index: StringHashMap<usize> = StringHashMap::new();
    let mut names: Vec<String> = Vec::new();
    let mut found: Vec<u64> = Vec::new();
    let mut i: usize = 0;
    assert(labels(all.take(0)) == Seq::<Seq<char>>::empty());
    while i < items.len()
        invariant
            i <= items@.len(),
            all == views(items@),
            sums_fit(all),
            names@.len() == found@.len(),
            names@.len() <= i,
            views(names@) == distinct(labels(all.take(i as int))),
            forall|k: int|
                0 <= k < names@.len() ==> #[trigger] found@[k] == sum_of(
                    all.take(i as int),
                    names@[k]@,
                ),
            forall|label: Seq<char>| #[trigger]
                index@.contains_key(label) ==> index@[label] < names@.len() && names@[index@[label] as int]@ == label,
            forall|k: int| 0 <= k < names@.len() ==> index@.contains_key(#[trigger] names@[k]@),
        decreases items@.len() - i,
    {
        let ghost old_names = names@;
        let ghost old_found = found@;
        let ghost old_index = index@;
        let ghost label = items@[i as int].0@;
        let ghost now = all.take(i as int);
        let ghost next = all.take(i + 1);
        proof {
            assert(all[i as int] == (label, items@[i as int].1));
            assert(next.drop_last() == now);
            assert(next.last() == all[i as int]);
            assert(labels(next).drop_last() == labels(now));
            assert(labels(next).last() == label);
            lemma_sum_of_grows(all, label, i + 1);
            lemma_distinct(labels(now));
            assert(forall|k: int| 0 <= k < names@.len() ==> views(names@)[k] == names@[k]@);
        }
        match index.get(items[i].0.as_str()) {
            Some(at) => {
                let k: usize = *at;
                assert(names@[k as int]@ == label);
                assert(found@[k as int] == sum_of(now, label));
                let sum: u64 = found[k] + items[i].1;
                found.set(k, sum);
                proof {
                    assert(views(names@)[k as int] == label);
                    assert(distinct(labels(now)).contains(label));
                    assert forall|m: int| 0 <= m < names@.len() implies #[trigger] found@[m]
                        == sum_of(next, names@[m]@) by {
                        if m != k {
                            assert(found@[m] == old_found[m]);
                            assert(views(names@)[m] != views(names@)[k as int]);
                        }
                    }
                }
            },
            None => {
                proof {
                    assert(!distinct(labels(now)).contains(label)) by {
                        if views(names@).contains(label) {
                            let m = choose|m: int|
                                0 <= m < names@.len() && views(names@)[m] == label;
                            assert(index@.contains_key(names@[m]@));
                        }
                    }
                    lemma_sum_of_absent(now, label);
                }
                let name = items[i].0.clone();
                index.insert(name.clone(), names.len());
                names.push(name);
                found.push(items[i].1);
                proof {
                    assert(views(names@) == views(old_names).push(label));
                    assert forall|m: int| 0 <= m < names@.len() implies #[trigger] found@[m]
                        == sum_of(next, names@[m]@) by {
                        if m < old_names.len() {
                            assert(found@[m] == old_found[m]);
                            assert(names@[m] == old_names[m]);
                            assert(views(old_names)[m] == old_names[m]@);
                            assert(views(old_names).contains(old_names[m]@));
                        }
                    }
                    assert forall|l: Seq<char>| #[trigger] index@.contains_key(l) implies index@[l]
                        < names@.len() && names@[index@[l] as int]@ == l by {
                        if l != label {
                            assert(old_index.contains_key(l));
                            assert(names@[index@[l] as int] == old_names[index@[l] as int]);
                        }
                    }
                    assert forall|m: int| 0 <= m < names@.len() implies index@.contains_key(
                        #[trigger] names@[m]@,
                    ) by {
                        if m < old_names.len() {
                            assert(names@[m] == old_names[m]);
                            assert(old_index.contains_key(old_names[m]@));
                        }
                    }
                }
            },
        }
        i += 1;
    }
    assert(all.take(i as int) == all);
    let mut rows: Vec<(String, u64)> = Vec::new();
    let mut k: usize = 0;
    while k < names.len()
        invariant
            k <= names@.len(),
            names@.len() == found@.len(),
            sums_fit(all),
            views(names@) == distinct(labels(all)),
            forall|m: int|
                0 <= m < names@.len() ==> #[trigger] found@[m] == sum_of(all, names@[m]@),
            views(rows@) == sums(all).take(k as int),
        decreases names@.len() - k,
    {
        let ghost before = rows@;
        let name = names[k].clone();
        rows.push((name, found[k]));
        proof {
            assert(views(names@)[k as int] == names@[k as int]@);
            assert(found@[k as int] == sum_of(all, names@[k as int]@));
            assert(sums(all)[k as int] == (names@[k as int]@, found@[k as int]));
            assert(views(rows@) == views(before).push((names@[k as int]@, found@[k as int])));
            assert(sums(all).take(k + 1) == sums(all).take(k as int).push(sums(all)[k as int]));
        }
        k += 1;
    }
    assert(sums(all).take(k as int) == sums(all));
    sort(&mut rows);
    rows
}

} // verus!
