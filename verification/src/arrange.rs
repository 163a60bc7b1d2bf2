//! The order in which matches are labelled.
use vstd::prelude::*;

use crate::index::{Match, Point};

verus! {

/// `arranged` has the matches of `found` in the order of their starts. Of all matches which start in
/// the same cell, the longest one is kept.
pub open spec fn is_arrangement(found: Seq<Match>, arranged: Seq<Match>) -> bool {
    &&& forall|i: int, j: int|
        0 <= i < j < arranged.len() ==> (#[trigger] arranged[i]).start.precedes(
            (#[trigger] arranged[j]).start,
        )
    &&& forall|i: int| 0 <= i < arranged.len() ==> #[trigger] found.contains(arranged[i])
    &&& forall|k: int| 0 <= k < found.len() ==> #[trigger] is_represented(found[k], arranged)
}

/// One of the matches in `arranged` starts where `bounds` does, and does not end before it.
pub open spec fn is_represented(bounds: Match, arranged: Seq<Match>) -> bool {
    exists|i: int|
        0 <= i < arranged.len() && (#[trigger] arranged[i]).start == bounds.start
            && bounds.end.at_most(arranged[i].end)
}

/// The arrangement of `found`.
pub open spec fn arrangement(found: Seq<Match>) -> Seq<Match> {
    choose|arranged: Seq<Match>| is_arrangement(found, arranged)
}

/// Matches can be arranged in one way only.
pub proof fn arrangement_is_unique(found: Seq<Match>, a: Seq<Match>, b: Seq<Match>)
    requires
        is_arrangement(found, a),
        is_arrangement(found, b),
    ensures
        a == b,
{
    if a.len() < b.len() {
        lemma_same_prefix(found, a, b, a.len() as int);
        let k = lemma_member(found, b, a, a.len() as int);
        assert(b[k].start.precedes(b[a.len() as int].start));
    } else if b.len() < a.len() {
        lemma_same_prefix(found, a, b, b.len() as int);
        let k = lemma_member(found, a, b, b.len() as int);
        assert(a[k].start.precedes(a[b.len() as int].start));
    } else {
        lemma_same_prefix(found, a, b, a.len() as int);
        assert(a =~= b);
    }
}

/// A match of one arrangement is in the other, too.
proof fn lemma_member(found: Seq<Match>, a: Seq<Match>, b: Seq<Match>, i: int) -> (k: int)
    requires
        is_arrangement(found, a),
        is_arrangement(found, b),
        0 <= i < a.len(),
    ensures
        0 <= k < b.len(),
        b[k] == a[i],
{
    assert(found.contains(a[i]));
    let x = choose|x: int| 0 <= x < found.len() && found[x] == a[i];
    assert(is_represented(found[x], b));
    let k = choose|k: int|
        0 <= k < b.len() && (#[trigger] b[k]).start == a[i].start && a[i].end.at_most(b[k].end);
    assert(found.contains(b[k]));
    let y = choose|y: int| 0 <= y < found.len() && found[y] == b[k];
    assert(is_represented(found[y], a));
    let m = choose|m: int|
        0 <= m < a.len() && (#[trigger] a[m]).start == b[k].start && b[k].end.at_most(a[m].end);
    if m < i {
        assert(a[m].start.precedes(a[i].start));
    } else if i < m {
        assert(a[i].start.precedes(a[m].start));
    }
    k
}

/// Two arrangements are the same up to any place which both have.
proof fn lemma_same_prefix(found: Seq<Match>, a: Seq<Match>, b: Seq<Match>, n: int)
    requires
        is_arrangement(found, a),
        is_arrangement(found, b),
        0 <= n <= a.len(),
        n <= b.len(),
    ensures
        forall|i: int| #![trigger a[i]] #![trigger b[i]] 0 <= i < n ==> a[i] == b[i],
    decreases n,
{
    if n > 0 {
        let last = n - 1;
        lemma_same_prefix(found, a, b, last);
        let k = lemma_member(found, a, b, last);
        let m = lemma_member(found, b, a, last);
        if k < last {
            assert(a[k] == b[k]);
            assert(a[k].start.precedes(a[last].start));
        } else if m < last {
            assert(a[m] == b[m]);
            assert(b[m].start.precedes(b[last].start));
        } else if k > last {
            assert(b[last].start.precedes(b[k].start));
            if m > last {
                assert(a[last].start.precedes(a[m].start));
            }
        }
    }
}

/// The number of matches which start before `point`, among the first `n` of `arranged`.
spec fn place(arranged: Seq<Match>, point: Point, n: int) -> int
    decreases n,
{
    if n <= 0 || arranged[n - 1].start.precedes(point) {
        n
    } else {
        place(arranged, point, n - 1)
    }
}

/// `arranged` with another match, where `i` matches start before it.
spec fn with_match(arranged: Seq<Match>, bounds: Match, i: int) -> Seq<Match> {
    if i < arranged.len() && arranged[i].start == bounds.start {
        if arranged[i].end.precedes(bounds.end) {
            arranged.update(i, bounds)
        } else {
            arranged
        }
    } else {
        arranged.insert(i, bounds)
    }
}

proof fn lemma_with_match(found: Seq<Match>, before: Seq<Match>, bounds: Match, i: int)
    requires
        is_arrangement(found, before),
        0 <= i <= before.len(),
        i > 0 ==> before[i - 1].start.precedes(bounds.start),
        forall|j: int|
            i <= j < before.len() ==> !(#[trigger] before[j]).start.precedes(bounds.start),
    ensures
        is_arrangement(found.push(bounds), with_match(before, bounds, i)),
{
    let longer = found.push(bounds);
    let after = with_match(before, bounds, i);
    assert(longer[found.len() as int] == bounds);
    assert forall|k: int| 0 <= k < found.len() implies longer.contains(#[trigger] found[k]) by {
        assert(longer[k] == found[k]);
    }
    assert forall|j: int| 0 <= j < i implies (#[trigger] before[j]).start.precedes(
        bounds.start,
    ) by {
        if j < i - 1 {
            assert(before[j].start.precedes(before[i - 1].start));
        }
    }
    if i < before.len() && before[i].start == bounds.start {
        assert forall|k: int| 0 <= k < longer.len() implies is_represented(
            #[trigger] longer[k],
            after,
        ) by {
            if k < found.len() {
                assert(is_represented(found[k], before));
                let x = choose|x: int|
                    0 <= x < before.len() && (#[trigger] before[x]).start == found[k].start
                        && found[k].end.at_most(before[x].end);
                assert(after[x].start == found[k].start);
            } else {
                assert(after[i].start == bounds.start);
            }
        }
        assert forall|j: int| 0 <= j < after.len() implies longer.contains(#[trigger] after[j]) by {
            if after[j] != bounds {
                assert(found.contains(before[j]));
                let k = choose|k: int| 0 <= k < found.len() && found[k] == before[j];
                assert(longer[k] == after[j]);
            }
        }
    } else {
        assert forall|j: int| i <= j < before.len() implies bounds.start.precedes(
            (#[trigger] before[j]).start,
        ) by {
            if j > i {
                assert(before[i].start.precedes(before[j].start));
            }
        }
        assert forall|j: int| 0 <= j < before.len() implies after[if j < i {
            j
        } else {
            j + 1
        }] == #[trigger] before[j] by {}
        assert(after[i] == bounds);
        assert forall|k: int| 0 <= k < longer.len() implies is_represented(
            #[trigger] longer[k],
            after,
        ) by {
            if k < found.len() {
                assert(is_represented(found[k], before));
                let x = choose|x: int|
                    0 <= x < before.len() && (#[trigger] before[x]).start == found[k].start
                        && found[k].end.at_most(before[x].end);
                let y = if x < i {
                    x
                } else {
                    x + 1
                };
                assert(after[y] == before[x]);
            }
        }
        assert forall|j: int| 0 <= j < after.len() implies longer.contains(#[trigger] after[j]) by {
            if j != i {
                let x = if j < i {
                    j
                } else {
                    j - 1
                };
                assert(before[x] == after[j]);
                assert(found.contains(before[x]));
                let k = choose|k: int| 0 <= k < found.len() && found[k] == before[x];
                assert(longer[k] == after[j]);
            }
        }
        assert forall|x: int, y: int| 0 <= x < y < after.len() implies (
        #[trigger] after[x]).start.precedes((#[trigger] after[y]).start) by {
            let u = if x < i {
                x
            } else {
                x - 1
            };
            let v = if y < i {
                y
            } else {
                y - 1
            };
            if x != i && y != i {
                assert(before[u].start.precedes(before[v].start));
            } else if x == i {
                assert(bounds.start.precedes(before[v].start));
            } else {
                assert(before[u].start.precedes(bounds.start));
            }
        }
    }
}

proof fn lemma_place(arranged: Seq<Match>, point: Point, n: int)
    requires
        0 <= n <= arranged.len(),
    ensures
        ({
            let i = place(arranged, point, n);
            &&& 0 <= i <= n
            &&& i > 0 ==> arranged[i - 1].start.precedes(point)
            &&& forall|j: int| i <= j < n ==> !(#[trigger] arranged[j]).start.precedes(point)
        }),
    decreases n,
{
    if n > 0 && !arranged[n - 1].start.precedes(point) {
        lemma_place(arranged, point, n - 1);
    }
}

/// A way to arrange matches: one after another is put into its place.
spec fn placed_all(found: Seq<Match>) -> Seq<Match>
    decreases found.len(),
{
    if found.len() == 0 {
        Seq::empty()
    } else {
        let before = placed_all(found.drop_last());
        let i = place(before, found.last().start, before.len() as int);
        with_match(before, found.last(), i)
    }
}

proof fn lemma_placed_all(found: Seq<Match>)
    ensures
        is_arrangement(found, placed_all(found)),
    decreases found.len(),
{
    if found.len() > 0 {
        let before = placed_all(found.drop_last());
        lemma_placed_all(found.drop_last());
        lemma_place(before, found.last().start, before.len() as int);
        let i = place(before, found.last().start, before.len() as int);
        lemma_with_match(found.drop_last(), before, found.last(), i);
        assert(found.drop_last().push(found.last()) =~= found);
    }
}

/// All matches can be arranged. There is nothing in the arrangement which was not found, and it is
/// empty only if nothing was found.
pub proof fn arrangement_exists(found: Seq<Match>)
    ensures
        is_arrangement(found, arrangement(found)),
        forall|i: int|
            0 <= i < arrangement(found).len() ==> found.contains(#[trigger] arrangement(found)[i]),
        arrangement(found).len() == 0 <==> found.len() == 0,
{
    lemma_placed_all(found);
    let arranged = arrangement(found);
    if found.len() > 0 {
        assert(is_represented(found[0], arranged));
    }
    if arranged.len() > 0 {
        assert(found.contains(arranged[0]));
    }
}

/// Add a match to matches which are arranged.
fn add_match(arranged: &mut Vec<Match>, bounds: Match, Ghost(found): Ghost<Seq<Match>>)
    requires
        is_arrangement(found, old(arranged)@),
    ensures
        is_arrangement(found.push(bounds), final(arranged)@),
{
    let ghost before = arranged@;
    let mut i: usize = arranged.len();
    while i > 0 && !arranged[i - 1].start.is_before(&bounds.start)
        invariant
            arranged@ == before,
            i <= before.len(),
            forall|j: int|
                i <= j < before.len() ==> !(#[trigger] before[j]).start.precedes(bounds.start),
        decreases i,
    {
        i = i - 1;
    }
    proof {
        lemma_with_match(found, before, bounds, i as int);
    }
    if i < arranged.len() && arranged[i].start == bounds.start {
        if arranged[i].end.is_before(&bounds.end) {
            arranged.set(i, bounds);
        }
    } else {
        arranged.insert(i, bounds);
    }
}

/// Sort and dedup ranges. Overlapping ranges which do not start in the same cell are kept.
pub fn arrange(found: &Vec<Match>) -> (arranged: Vec<Match>)
    ensures
        is_arrangement(found@, arranged@),
        arranged@ == arrangement(found@),
{
    let mut arranged: Vec<Match> = Vec::new();
    let mut i: usize = 0;
    while i < found.len()
        invariant
            i <= found@.len(),
            is_arrangement(found@.take(i as int), arranged@),
        decreases found@.len() - i,
    {
        assert(found@.take(i + 1) =~= found@.take(i as int).push(found@[i as int]));
        add_match(&mut arranged, found[i], Ghost(found@.take(i as int)));
        i = i + 1;
    }
    assert(found@.take(i as int) =~= found@);
    proof {
        arrangement_is_unique(found@, arranged@, arrangement(found@));
    }
    arranged
}

/// The arrangement goes down the screen and from left to right in every line.
pub proof fn matches_are_arranged_in_reading_order(found: Seq<Match>, i: int, j: int)
    requires
        0 <= i < j < arrangement(found).len(),
    ensures
        ({
            let first = arrangement(found)[i].start;
            let second = arrangement(found)[j].start;
            first.line < second.line || (first.line == second.line && first.column < second.column)
        }),
{
    arrangement_exists(found);
    assert(arrangement(found)[i].start.precedes(arrangement(found)[j].start));
}

/// A match is part of the arrangement exactly if it was found and no match which was found starts in
/// the same cell and ends later.
pub proof fn the_longest_matches_are_kept(found: Seq<Match>, bounds: Match)
    ensures
        arrangement(found).contains(bounds) <==> {
            &&& found.contains(bounds)
            &&& forall|k: int|
                0 <= k < found.len() && (#[trigger] found[k]).start == bounds.start ==> {
                    ||| found[k].end.line < bounds.end.line
                    ||| found[k].end.line == bounds.end.line && found[k].end.column
                        <= bounds.end.column
                }
        },
{
    let arranged = arrangement(found);
    arrangement_exists(found);
    if arranged.contains(bounds) {
        let i = choose|i: int| 0 <= i < arranged.len() && arranged[i] == bounds;
        assert(found.contains(arranged[i]));
        assert forall|k: int|
            0 <= k < found.len() && (#[trigger] found[k]).start == bounds.start implies {
            ||| found[k].end.line < bounds.end.line
            ||| found[k].end.line == bounds.end.line && found[k].end.column <= bounds.end.column
        } by {
            assert(is_represented(found[k], arranged));
            let m = choose|m: int|
                0 <= m < arranged.len() && (#[trigger] arranged[m]).start == found[k].start
                    && found[k].end.at_most(arranged[m].end);
            if m < i {
                assert(arranged[m].start.precedes(arranged[i].start));
            } else if i < m {
                assert(arranged[i].start.precedes(arranged[m].start));
            }
        }
    }
    if found.contains(bounds) && (forall|k: int|
        0 <= k < found.len() && (#[trigger] found[k]).start == bounds.start ==> {
            ||| found[k].end.line < bounds.end.line
            ||| found[k].end.line == bounds.end.line && found[k].end.column <= bounds.end.column
        }) {
        let x = choose|x: int| 0 <= x < found.len() && found[x] == bounds;
        assert(is_represented(found[x], arranged));
        let m = choose|m: int|
            0 <= m < arranged.len() && (#[trigger] arranged[m]).start == bounds.start
                && bounds.end.at_most(arranged[m].end);
        assert(found.contains(arranged[m]));
        let y = choose|y: int| 0 <= y < found.len() && found[y] == arranged[m];
        assert(found[y].start == bounds.start);
        assert(arranged[m] == bounds);
    }
}

} // verus!
