//! Positions in the terminal, and ranges between them.
use vstd::prelude::*;

verus! {

/// A cell of the terminal.
///
/// Line zero is the topmost line of the screen, lines of the scrollback are negative.
#[derive(Clone, Copy, Debug, PartialEq, Eq, Structural)]
pub struct Point {
    pub line: i32,
    pub column: usize,
}

impl Point {
    pub fn new(line: i32, column: usize) -> (point: Point)
        ensures
            point == (Point { line, column }),
    {
        Point { line, column }
    }

    /// `self` comes before `other` when the terminal is read line by line.
    pub open spec fn precedes(self, other: Point) -> bool {
        self.line < other.line || (self.line == other.line && self.column < other.column)
    }

    /// `self` is `other`, or comes before it.
    pub open spec fn at_most(self, other: Point) -> bool {
        self == other || self.precedes(other)
    }

    pub fn is_before(&self, other: &Point) -> (before: bool)
        ensures
            before == self.precedes(*other),
    {
        self.line < other.line || (self.line == other.line && self.column < other.column)
    }
}

/// A range of cells, which includes both of its ends.
#[derive(Clone, Copy, Debug, PartialEq, Eq, Structural)]
pub struct Match {
    pub start: Point,
    pub end: Point,
}

impl Match {
    pub fn new(start: Point, end: Point) -> (bounds: Match)
        ensures
            bounds == (Match { start, end }),
    {
        Match { start, end }
    }

    /// `point` is one of the cells in the range.
    pub open spec fn covers(self, point: Point) -> bool {
        self.start.at_most(point) && point.at_most(self.end)
    }

    pub fn contains(&self, point: &Point) -> (inside: bool)
        ensures
            inside == self.covers(*point),
    {
        !point.is_before(&self.start) && !self.end.is_before(point)
    }
}

/// The first of `matches` which covers `point`.
pub open spec fn first_covering(matches: Seq<Match>, point: Point) -> Option<Match>
    decreases matches.len(),
{
    if matches.len() == 0 {
        None
    } else if matches[0].covers(point) {
        Some(matches[0])
    } else {
        first_covering(matches.drop_first(), point)
    }
}

/// The first match which covers a point is one of the matches.
pub proof fn lemma_first_covering(matches: Seq<Match>, point: Point)
    ensures
        first_covering(matches, point) matches Some(bounds) ==> bounds.covers(point)
            && matches.contains(bounds),
        first_covering(matches, point) is None ==> forall|i: int|
            0 <= i < matches.len() ==> !(#[trigger] matches[i]).covers(point),
    decreases matches.len(),
{
    if matches.len() > 0 && !matches[0].covers(point) {
        let rest = matches.drop_first();
        lemma_first_covering(rest, point);
        match first_covering(rest, point) {
            Some(bounds) => {
                let i = choose|i: int| 0 <= i < rest.len() && rest[i] == bounds;
                assert(matches[i + 1] == bounds);
            },
            None => {
                assert forall|i: int| 0 <= i < matches.len() implies !(#[trigger] matches[i]).covers(
                    point,
                ) by {
                    if i > 0 {
                        assert(matches[i] == rest[i - 1]);
                    }
                }
            },
        }
    }
}

/// Every match ends before the next one starts.
pub open spec fn are_apart(matches: Seq<Match>) -> bool {
    forall|i: int, j: int|
        0 <= i < j < matches.len() ==> (#[trigger] matches[i]).end.precedes(
            (#[trigger] matches[j]).start,
        )
}

/// If matches are apart, the first one which covers a point is also the first one which covers any
/// other cell of it.
pub proof fn lemma_same_covering(matches: Seq<Match>, point: Point, other: Point)
    requires
        are_apart(matches),
        first_covering(matches, point) matches Some(bounds) && bounds.covers(other),
    ensures
        first_covering(matches, other) == first_covering(matches, point),
    decreases matches.len(),
{
    if !matches[0].covers(point) {
        let rest = matches.drop_first();
        assert(are_apart(rest)) by {
            assert forall|i: int, j: int| 0 <= i < j < rest.len() implies (
            #[trigger] rest[i]).end.precedes((#[trigger] rest[j]).start) by {
                assert(matches[i + 1].end.precedes(matches[j + 1].start));
            }
        }
        lemma_first_covering(rest, point);
        let bounds = first_covering(rest, point).unwrap();
        let k = choose|k: int| 0 <= k < rest.len() && rest[k] == bounds;
        assert(matches[0].end.precedes(matches[k + 1].start));
        lemma_same_covering(rest, point, other);
    }
}

/// Cells come in the order in which the terminal is read: line by line, and from left to right. A
/// range covers what is neither before its start nor behind its end.
pub proof fn cells_are_read_line_by_line(start: Point, end: Point, point: Point, columns: int)
    requires
        start.column < columns,
        end.column < columns,
        point.column < columns,
    ensures
        start.precedes(end) <==> start.line * columns + start.column < end.line * columns
            + end.column,
        start.at_most(end) <==> start.line * columns + start.column <= end.line * columns
            + end.column,
        (Match { start, end }).covers(point) <==> start.line * columns + start.column <= point.line
            * columns + point.column <= end.line * columns + end.column,
{
    lemma_read_order(start, end, columns);
    lemma_read_order(end, start, columns);
    lemma_read_order(start, point, columns);
    lemma_read_order(point, start, columns);
    lemma_read_order(point, end, columns);
    lemma_read_order(end, point, columns);
}

proof fn lemma_read_order(a: Point, b: Point, columns: int)
    requires
        a.column < columns,
        b.column < columns,
    ensures
        a.precedes(b) <==> a.line * columns + a.column < b.line * columns + b.column,
{
    let (l, m) = (a.line as int, b.line as int);
    let (x, y) = (a.column as int, b.column as int);
    assert(l * columns + x < m * columns + y <==> l < m || (l == m && x < y)) by (nonlinear_arith)
        requires
            0 <= x < columns,
            0 <= y < columns,
    ;
}

/// The first match which covers a point is one which covers it, and no match in front of it does.
pub proof fn no_earlier_match_covers(matches: Seq<Match>, point: Point, i: int)
    requires
        0 <= i < matches.len(),
        matches[i].covers(point),
        forall|j: int| 0 <= j < i ==> !(#[trigger] matches[j]).covers(point),
    ensures
        first_covering(matches, point) == Some(matches[i]),
    decreases i,
{
    if i > 0 {
        let rest = matches.drop_first();
        assert forall|j: int| 0 <= j < i - 1 implies !(#[trigger] rest[j]).covers(point) by {
            assert(rest[j] == matches[j + 1]);
        }
        no_earlier_match_covers(rest, point, i - 1);
    }
}

} // verus!
