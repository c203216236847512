//! The figures of a run over many solutions: a summary of the guess
//! counts and their histogram.

use std::collections::HashMap;
use vstd::prelude::*;

verus! {

/// The widest bar of a histogram, in characters.
pub const BAR_WIDTH: usize = 60;

/// How often `value` occurs among `counts`.
pub open spec fn occurrences(counts: Seq<usize>, value: usize) -> nat
    decreases counts.len(),
{
    if counts.len() == 0 {
        0
    } else {
        occurrences(counts.drop_last(), value) + if counts.last() == value {
            1nat
        } else {
            0nat
        }
    }
}

/// The sum of `counts`.
pub open spec fn total(counts: Seq<usize>) -> nat
    decreases counts.len(),
{
    if counts.len() == 0 {
        0
    } else {
        total(counts.drop_last()) + counts.last() as nat
    }
}

/// The order by which counts are sorted.
pub open spec fn at_most() -> spec_fn(usize, usize) -> bool {
    |a: usize, b: usize| a <= b
}

/// `counts` rearranged in ascending order.
pub open spec fn ascending(counts: Seq<usize>) -> Seq<usize> {
    counts.sort_by(at_most())
}

/// `m` is the number of times that the most frequent value of `counts` occurs.
pub open spec fn is_max_frequency(counts: Seq<usize>, m: nat) -> bool {
    &&& exists|v: usize| occurrences(counts, v) == m
    &&& forall|v: usize| occurrences(counts, v) <= m
}

/// The number of times that the most frequent value of `counts` occurs.
pub open spec fn max_frequency(counts: Seq<usize>) -> nat {
    choose|m: nat| is_max_frequency(counts, m)
}

/// The width of the bar for a value that occurs `frequency` times where the
/// most frequent value occurs `max_frequency` times: `frequency * 60 /
/// max_frequency`, rounded to the nearest whole number, a half rounded up.
pub open spec fn bar_width(frequency: int, max_frequency: int) -> int
    recommends
        0 <= frequency <= max_frequency,
        0 < max_frequency,
{
    (2 * BAR_WIDTH * frequency + max_frequency) / (2 * max_frequency)
}

/// The figures of a run: how many counts there are, the least, the greatest
/// and the middle one, and their sum (from which the mean is had).
#[derive(Clone, Copy, PartialEq, Eq, Debug, Structural)]
pub struct Summary {
    pub total: usize,
    pub min: usize,
    pub max: usize,
    pub median: usize,
    pub sum: u128,
}

/// One row of the histogram: a number of guesses, how many counts have that
/// number, and the width of its bar.
#[derive(Clone, Copy, PartialEq, Eq, Debug, Structural)]
pub struct Bar {
    pub guesses: usize,
    pub frequency: usize,
    pub width: usize,
}

/// `sort` of std on a slice of integers: afterwards the elements are in
/// ascending order, and they are the elements that were there before.
#[verifier::external_body]
fn sort_ascending(v: &mut Vec<usize>)
    ensures
        final(v)@.to_multiset() == old(v)@.to_multiset(),
        forall|i: int, j: int| 0 <= i <= j < final(v)@.len() ==> final(v)@[i] <= final(v)@[j],
{
    v.sort();
}

proof fn lemma_at_most_is_total()
    ensures
        vstd::relations::total_ordering(at_most()),
{
}

/// The ascending rearrangement is sorted, has the same elements as `counts`,
/// each as often, and is the only such sequence.
pub proof fn lemma_ascending(counts: Seq<usize>, sorted: Seq<usize>)
    ensures
        ascending(counts).len() == counts.len(),
        ascending(counts).to_multiset() == counts.to_multiset(),
        forall|i: int, j: int|
            0 <= i <= j < counts.len() ==> ascending(counts)[i] <= ascending(counts)[j],
        sorted.to_multiset() == counts.to_multiset() && (forall|i: int, j: int|
            0 <= i <= j < sorted.len() ==> sorted[i] <= sorted[j]) ==> sorted == ascending(counts),
{
    lemma_at_most_is_total();
    counts.lemma_sort_by_ensures(at_most());
    let a = ascending(counts);
    a.to_multiset_ensures();
    counts.to_multiset_ensures();
    assert(vstd::relations::sorted_by(a, at_most()));
    assert forall|i: int, j: int| 0 <= i <= j < counts.len() implies a[i] <= a[j] by {
        if i < j {
            assert(at_most()(a[i], a[j]));
        }
    }
    if sorted.to_multiset() == counts.to_multiset() && (forall|i: int, j: int|
        0 <= i <= j < sorted.len() ==> sorted[i] <= sorted[j]) {
        assert(vstd::relations::sorted_by(sorted, at_most()));
        vstd::seq_lib::lemma_sorted_unique(sorted, a, at_most());
    }
}

proof fn lemma_total_bound(counts: Seq<usize>)
    ensures
        total(counts) <= counts.len() * usize::MAX,
    decreases counts.len(),
{
    if counts.len() > 0 {
        lemma_total_bound(counts.drop_last());
        assert((counts.len() - 1) * usize::MAX + usize::MAX == counts.len() * usize::MAX)
            by (nonlinear_arith);
    }
}

fn sum_of(counts: &Vec<usize>) -> (r: u128)
    ensures
        r == total(counts@),
{
    let mut sum: u128 = 0;
    let mut i: usize = 0;
    while i < counts.len()
        invariant
            i <= counts.len(),
            sum == total(counts@.take(i as int)),
        decreases counts.len() - i,
    {
        proof {
            let next = counts@.take(i + 1);
            assert(next.drop_last() =~= counts@.take(i as int));
            lemma_total_bound(next);
            assert(next.len() * usize::MAX <= usize::MAX * usize::MAX) by (nonlinear_arith)
                requires
                    next.len() <= usize::MAX,
            ;
            assert(usize::MAX * usize::MAX <= 0xffff_ffff_ffff_ffff * 0xffff_ffff_ffff_ffff)
                by (nonlinear_arith)
                requires
                    usize::MAX <= 0xffff_ffff_ffff_ffff,
            ;
        }
        sum = sum + counts[i] as u128;
        i += 1;
    }
    assert(counts@.take(counts.len() as int) =~= counts@);
    sum
}

/// The figures of `counts`: `None` where there are none, otherwise their
/// number, the least, the greatest, the one in the middle of their ascending
/// order (the upper of the two middle ones where the number is even), and
/// their sum.
pub fn summarize(counts: &Vec<usize>) -> (r: Option<Summary>)
    ensures
        r is None <==> counts@.len() == 0,
        r matches Some(s) ==> {
            &&& s.total == counts@.len()
            &&& s.min == ascending(counts@)[0]
            &&& s.max == ascending(counts@)[counts@.len() - 1]
            &&& s.median == ascending(counts@)[counts@.len() as int / 2]
            &&& s.sum == total(counts@)
            &&& counts@.contains(s.min) && counts@.contains(s.max) && counts@.contains(s.median)
            &&& forall|i: int|
                0 <= i < counts@.len() ==> s.min <= #[trigger] counts@[i] && counts@[i] <= s.max
        },
{
    let n = counts.len();
    if n == 0 {
        return None;
    }
    let mut sorted = counts.clone();
    assert(sorted@ == counts@);
    sort_ascending(&mut sorted);
    proof {
        lemma_ascending(counts@, sorted@);
        sorted@.to_multiset_ensures();
        counts@.to_multiset_ensures();
        assert forall|j: int| 0 <= j < n implies counts@.contains(#[trigger] sorted@[j]) by {
            assert(sorted@.contains(sorted@[j]));
            assert(sorted@.to_multiset().count(sorted@[j]) > 0);
            assert(counts@.to_multiset().count(sorted@[j]) > 0);
        }
        assert forall|i: int| 0 <= i < counts@.len() implies sorted@[0] <= #[trigger] counts@[i]
            && counts@[i] <= sorted@[n - 1] by {
            assert(counts@.contains(counts@[i]));
            assert(counts@.to_multiset().count(counts@[i]) > 0);
            assert(sorted@.to_multiset().count(counts@[i]) > 0);
            assert(sorted@.contains(counts@[i]));
            let j = choose|j: int| 0 <= j < sorted@.len() && sorted@[j] == counts@[i];
            assert(sorted@[0] <= sorted@[j] <= sorted@[n - 1]);
        }
    }
    Some(
        Summary {
            total: n,
            min: sorted[0],
            max: sorted[n - 1],
            median: sorted[n / 2],
            sum: sum_of(counts),
        },
    )
}

proof fn lemma_occurrences_bound(counts: Seq<usize>, value: usize)
    ensures
        occurrences(counts, value) <= counts.len(),
        occurrences(counts, value) > 0 ==> counts.contains(value),
    decreases counts.len(),
{
    if counts.len() > 0 {
        lemma_occurrences_bound(counts.drop_last(), value);
        if counts.last() != value {
            let i = choose|i: int| 0 <= i < counts.len() - 1 && counts.drop_last()[i] == value;
            assert(occurrences(counts, value) > 0 ==> counts[i] == value);
        }
    }
}

/// There is one greatest frequency, so `max_frequency` is it.
pub proof fn lemma_max_frequency(counts: Seq<usize>, m: nat)
    requires
        is_max_frequency(counts, m),
    ensures
        max_frequency(counts) == m,
{
    let c = max_frequency(counts);
    assert(is_max_frequency(counts, c));
    let v = choose|v: usize| occurrences(counts, v) == m;
    let w = choose|w: usize| occurrences(counts, w) == c;
    assert(occurrences(counts, v) <= c);
    assert(occurrences(counts, w) <= m);
}

/// The bar of a value is the nearest whole number to its share of sixty
/// characters, and never wider than sixty.
pub proof fn lemma_bar_width(frequency: int, max_frequency: int)
    requires
        0 <= frequency <= max_frequency,
        0 < max_frequency,
    ensures
        0 <= bar_width(frequency, max_frequency) <= 60,
        2 * max_frequency * bar_width(frequency, max_frequency) <= 120 * frequency
            + max_frequency < 2 * max_frequency * (bar_width(frequency, max_frequency) + 1),
        bar_width(max_frequency, max_frequency) == 60,
        bar_width(0, max_frequency) == 0,
{
    let d = 2 * max_frequency;
    let x = 120 * frequency + max_frequency;
    let w = bar_width(frequency, max_frequency);
    assert(w == x / d);
    vstd::arithmetic::div_mod::lemma_fundamental_div_mod(x, d);
    vstd::arithmetic::div_mod::lemma_mod_bound(x, d);
    assert(d * w <= x < d * (w + 1)) by (nonlinear_arith)
        requires
            x == d * w + x % d,
            0 <= x % d < d,
    ;
    assert(0 <= w <= 60) by (nonlinear_arith)
        requires
            d * w <= x < d * (w + 1),
            x <= 121 * max_frequency,
            d == 2 * max_frequency,
            0 <= x,
            0 < max_frequency,
    ;
    let top = bar_width(max_frequency, max_frequency);
    assert(top == 60) by (nonlinear_arith)
        requires
            top == (121 * max_frequency) / (2 * max_frequency),
            0 < max_frequency,
    ;
    let bottom = bar_width(0, max_frequency);
    assert(bottom == 0) by (nonlinear_arith)
        requires
            bottom == max_frequency / (2 * max_frequency),
            0 < max_frequency,
    ;
}

fn width_of(frequency: usize, max_frequency: usize) -> (r: usize)
    requires
        frequency <= max_frequency,
        0 < max_frequency,
    ensures
        r == bar_width(frequency as int, max_frequency as int),
{
    proof {
        lemma_bar_width(frequency as int, max_frequency as int);
    }
    let x: u128 = 2 * (BAR_WIDTH as u128) * (frequency as u128) + max_frequency as u128;
    let d: u128 = 2 * (max_frequency as u128);
    (x / d) as usize
}

/// The histogram of `counts`: one row for each number of guesses from one to
/// the greatest count, with how many counts have that number and a bar whose
/// width is that frequency's share of sixty characters, the most frequent
/// value of all taking the sixty.
pub fn histogram(counts: &Vec<usize>) -> (r: Vec<Bar>)
    ensures
        counts@.len() == 0 ==> r@.len() == 0,
        counts@.len() > 0 ==> r@.len() == ascending(counts@)[counts@.len() - 1],
        forall|i: int|
            0 <= i < r@.len() ==> {
                &&& (#[trigger] r@[i]).guesses == i + 1
                &&& r@[i].frequency == occurrences(counts@, (i + 1) as usize)
                &&& r@[i].width == bar_width(
                    r@[i].frequency as int,
                    max_frequency(counts@) as int,
                )
            },
{
    broadcast use vstd::std_specs::hash::group_hash_axioms;

    let mut rows: Vec<Bar> = Vec::new();
    let summary = match summarize(counts) {
        Some(s) => s,
        None => {
            return rows;
        },
    };
    let mut seen: HashMap<usize, usize> = HashMap::new();
    let mut most: usize = 0;
    let mut i: usize = 0;
    while i < counts.len()
        invariant
            i <= counts.len(),
            forall|v: usize|
                seen@.contains_key(v) ==> #[trigger] seen@[v] == occurrences(
                    counts@.take(i as int),
                    v,
                ),
            forall|v: usize|
                !seen@.contains_key(v) ==> #[trigger] occurrences(counts@.take(i as int), v) == 0,
            forall|v: usize| #[trigger] occurrences(counts@.take(i as int), v) <= most,
            i > 0 ==> exists|v: usize| occurrences(counts@.take(i as int), v) == most,
            i == 0 ==> most == 0,
            i > 0 ==> most > 0,
            most <= i,
        decreases counts.len() - i,
    {
        let value = counts[i];
        let ghost before = counts@.take(i as int);
        let ghost after = counts@.take(i + 1);
        proof {
            assert(after.drop_last() =~= before);
            lemma_occurrences_bound(before, value);
        }
        let so_far: usize = match seen.get(&value) {
            Some(n) => *n,
            None => 0,
        };
        assert(so_far == occurrences(before, value));
        let now: usize = so_far + 1;
        seen.insert(value, now);
        let ghost witness = if i > 0 {
            choose|v: usize| occurrences(before, v) == most
        } else {
            value
        };
        if now > most {
            most = now;
            assert(occurrences(after, value) == most);
        } else {
            assert(occurrences(after, witness) == most);
        }
        assert forall|v: usize| seen@.contains_key(v) implies #[trigger] seen@[v] == occurrences(
            after,
            v,
        ) by {}
        assert forall|v: usize| !seen@.contains_key(v) implies #[trigger] occurrences(after, v)
            == 0 by {
            assert(occurrences(after, v) == occurrences(before, v));
        }
        assert forall|v: usize| #[trigger] occurrences(after, v) <= most by {
            assert(occurrences(after, v) <= occurrences(before, v) + 1);
            assert(v != value ==> occurrences(after, v) == occurrences(before, v));
        }
        i += 1;
    }
    proof {
        assert(counts@.take(counts.len() as int) =~= counts@);
        assert(is_max_frequency(counts@, most as nat));
        lemma_max_frequency(counts@, most as nat);
    }
    let mut k: usize = 0;
    while k < summary.max
        invariant
            k <= summary.max,
            rows@.len() == k,
            most == max_frequency(counts@),
            most > 0,
            forall|v: usize| seen@.contains_key(v) ==> #[trigger] seen@[v] == occurrences(counts@, v),
            forall|v: usize| !seen@.contains_key(v) ==> #[trigger] occurrences(counts@, v) == 0,
            forall|v: usize| #[trigger] occurrences(counts@, v) <= most,
            forall|j: int|
                0 <= j < k ==> {
                    &&& (#[trigger] rows@[j]).guesses == j + 1
                    &&& rows@[j].frequency == occurrences(counts@, (j + 1) as usize)
                    &&& rows@[j].width == bar_width(rows@[j].frequency as int, most as int)
                },
        decreases summary.max - k,
    {
        let guesses: usize = k + 1;
        let frequency: usize = match seen.get(&guesses) {
            Some(n) => *n,
            None => 0,
        };
        assert(frequency == occurrences(counts@, guesses));
        let width = width_of(frequency, most);
        rows.push(Bar { guesses, frequency, width });
        k += 1;
    }
    rows
}

} // verus!
