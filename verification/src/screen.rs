//! What the cells of a terminal hold, and how they are addressed.
use vstd::prelude::*;

use crate::index::{Match, Point};

verus! {

/// Identity and target of a hyperlink.
pub struct Link {
    pub id: Seq<char>,
    pub uri: Seq<char>,
}

/// What a cell shows.
pub struct Glyph {
    /// Character of the cell.
    pub c: char,
    /// Characters without a width of their own, which are added to `c`.
    pub zerowidth: Seq<char>,
    /// The line goes on in the next one behind this cell.
    pub wrapline: bool,
    /// The character takes up the next cell, too.
    pub wide: bool,
    /// The cell is the second half of a wide character.
    pub wide_spacer: bool,
    /// The cell was left empty since the wide character behind it did not fit in the line.
    pub leading_spacer: bool,
}

/// A cell of the terminal.
pub struct CellView {
    pub glyph: Glyph,
    pub hyperlink: Option<Link>,
}

/// A glyph which shows nothing.
pub open spec fn blank_glyph() -> Glyph {
    Glyph {
        c: ' ',
        zerowidth: Seq::empty(),
        wrapline: false,
        wide: false,
        wide_spacer: false,
        leading_spacer: false,
    }
}

/// The contents of a terminal.
pub struct Screen {
    /// All lines of the terminal, the oldest line of the scrollback first.
    pub rows: Seq<Seq<CellView>>,
    /// Number of lines in the scrollback.
    pub history: nat,
    /// Number of lines the display is scrolled up by.
    pub display_offset: nat,
    /// For every column, if there is a tab stop.
    pub tabs: Seq<bool>,
}

impl Screen {
    /// Number of cells in a line.
    pub open spec fn columns(self) -> int {
        self.rows[0].len() as int
    }

    /// Number of lines which are displayed.
    pub open spec fn screen_lines(self) -> int {
        self.rows.len() - self.history
    }

    /// Number of all cells.
    pub open spec fn size(self) -> int {
        self.rows.len() * self.columns()
    }

    /// Every line has the same number of cells, the displayed lines are part of the terminal, and
    /// all cells can be addressed.
    pub open spec fn wf(self) -> bool {
        &&& self.history < self.rows.len() <= i32::MAX - 100
        &&& self.columns() > 0
        &&& forall|l: int| 0 <= l < self.rows.len() ==> #[trigger] self.rows[l].len() == self.columns()
        &&& self.size() <= usize::MAX
        &&& self.display_offset <= self.history
        &&& self.tabs.len() == self.columns()
    }

    pub open spec fn topmost_line(self) -> int {
        -self.history
    }

    pub open spec fn bottommost_line(self) -> int {
        self.screen_lines() - 1
    }

    pub open spec fn last_column(self) -> int {
        self.columns() - 1
    }

    /// Topmost line of the viewport.
    pub open spec fn viewport_start(self) -> int {
        -self.display_offset
    }

    /// Bottommost line of the viewport.
    pub open spec fn viewport_end(self) -> int {
        self.viewport_start() + self.bottommost_line()
    }

    /// `point` is a cell of the terminal.
    pub open spec fn has(self, point: Point) -> bool {
        &&& self.topmost_line() <= point.line <= self.bottommost_line()
        &&& point.column < self.columns()
    }

    pub open spec fn cell(self, point: Point) -> CellView {
        self.rows[point.line + self.history][point.column as int]
    }

    /// Number of cells which come before `point`.
    pub open spec fn index(self, point: Point) -> int {
        (point.line + self.history) * self.columns() + point.column
    }

    /// The cell which has `index` cells before it.
    pub open spec fn point(self, index: int) -> Point {
        Point {
            line: (index / self.columns() - self.history) as i32,
            column: (index % self.columns()) as usize,
        }
    }

    /// All cells, in reading order.
    pub open spec fn cells(self) -> Seq<CellView> {
        Seq::new(self.size() as nat, |i: int| self.cell(self.point(i)))
    }

    /// What all cells show.
    pub open spec fn glyphs(self) -> Seq<Seq<Glyph>> {
        Seq::new(
            self.rows.len(),
            |l: int| Seq::new(self.rows[l].len(), |c: int| self.rows[l][c].glyph),
        )
    }

    /// Line `line` goes on in the next one.
    pub open spec fn wraps(self, line: int) -> bool {
        self.rows[line + self.history][self.last_column()].glyph.wrapline
    }

    /// The cell is the last one of the terminal.
    pub open spec fn is_last(self, point: Point) -> bool {
        point.line == self.bottommost_line() && point.column == self.last_column()
    }

    /// The cell is the first one of the terminal.
    pub open spec fn is_first(self, point: Point) -> bool {
        point.line == self.topmost_line() && point.column == 0
    }

    /// A search steps over `point` without noticing it.
    pub open spec fn is_stepped_over(self, point: Point) -> bool {
        crate::engine::is_stepped_over(self.glyphs(), self.history, point)
    }

    /// A search which goes back steps over `point` without noticing it.
    pub open spec fn is_stepped_back_over(self, point: Point) -> bool {
        crate::engine::is_stepped_back_over(self.glyphs(), self.history, point)
    }

    /// The last cell up to cell number `index` which a search notices.
    pub open spec fn noticed(self, index: int) -> int
        decreases index,
    {
        if index > 0 && self.is_stepped_over(self.point(index)) {
            self.noticed(index - 1)
        } else {
            index
        }
    }

    /// The last cell up to cell number `index` which a search notices on its way back.
    pub open spec fn noticed_back(self, index: int) -> int
        decreases index,
    {
        if index > 0 && self.is_stepped_back_over(self.point(index)) {
            self.noticed_back(index - 1)
        } else {
            index
        }
    }

    /// Where a search from `start` starts. The start of a match is searched for backwards up to there,
    /// and this need not come to an end if the cell goes unnoticed: with a wide character which did
    /// not fit in the line above, the search starts in its placeholder.
    pub open spec fn searched_from(self, start: Point) -> Point {
        self.point(self.noticed_back(self.index(start)))
    }

    /// Where a search up to `end` ends, which has to be a cell that does not go unnoticed.
    pub open spec fn searched_to(self, end: Point) -> Point {
        self.point(self.noticed(self.index(end)))
    }

    /// The next match of `pattern` from `start` on, up to `end`.
    pub open spec fn search_right(
        self,
        pattern: Seq<char>,
        start: Point,
        end: Point,
    ) -> Option<Match> {
        crate::engine::search_right(
            self.glyphs(),
            self.history,
            pattern,
            self.searched_from(start),
            self.searched_to(end),
        )
    }

    /// Where the search goes on behind a match which ends in `point`: the second half of a wide
    /// character is passed over, and the first cell comes behind the last one.
    pub open spec fn search_resumed(self, point: Point) -> Point {
        let glyph = self.cell(point).glyph;
        let end = if glyph.leading_spacer {
            (point.line + self.history + 1) * self.columns() + 1
        } else if glyph.wide && point.column < self.last_column() {
            self.index(point) + 1
        } else {
            self.index(point)
        };
        self.point((end + 1) % self.size())
    }

    /// The matches of `pattern` from `start` on, up to `end`, but no more than `limit` of them.
    pub open spec fn search_all(
        self,
        pattern: Seq<char>,
        start: Point,
        end: Point,
        limit: nat,
    ) -> Seq<Match>
        decreases limit,
    {
        if limit == 0 {
            Seq::empty()
        } else {
            match self.search_right(pattern, start, end) {
                Some(found) => seq![found] + if start == end || found.end == end {
                    Seq::empty()
                } else {
                    self.search_all(
                        pattern,
                        self.search_resumed(found.end),
                        end,
                        (limit - 1) as nat,
                    )
                },
                None => Seq::empty(),
            }
        }
    }

    /// The text of the cells in `bounds`, if all of it is part of the terminal.
    pub open spec fn text(self, bounds: Match) -> Option<Seq<char>> {
        if crate::engine::reads_outside(self.glyphs(), self.history, bounds.start, bounds.end) {
            None
        } else {
            Some(
                crate::engine::text_between(
                    self.glyphs(),
                    self.history,
                    self.tabs,
                    bounds.start,
                    bounds.end,
                ),
            )
        }
    }

    /// Both ends of `bounds` are cells of the terminal.
    pub open spec fn has_match(self, bounds: Match) -> bool {
        self.has(bounds.start) && self.has(bounds.end)
    }

    /// A cell and its number of cells before it determine each other.
    pub proof fn lemma_index(self, point: Point)
        requires
            self.wf(),
            self.has(point),
        ensures
            0 <= self.index(point) < self.size(),
            self.point(self.index(point)) == point,
            self.cells()[self.index(point)] == self.cell(point),
    {
        let row = point.line + self.history;
        let columns = self.columns();
        vstd::arithmetic::div_mod::lemma_fundamental_div_mod_converse(
            self.index(point),
            columns,
            row,
            point.column as int,
        );
        assert(0 <= row * columns && row * columns + columns <= self.rows.len() * columns)
            by (nonlinear_arith)
            requires
                0 <= row < self.rows.len(),
                columns > 0,
        ;
    }

    /// Every number of cells below the size belongs to a cell.
    pub proof fn lemma_point(self, index: int)
        requires
            self.wf(),
            0 <= index < self.size(),
        ensures
            self.has(self.point(index)),
            self.index(self.point(index)) == index,
            self.cells()[index] == self.cell(self.point(index)),
    {
        let columns = self.columns();
        vstd::arithmetic::div_mod::lemma_fundamental_div_mod(index, columns);
        assert(0 <= index / columns < self.rows.len()) by (nonlinear_arith)
            requires
                0 <= index < self.rows.len() * columns,
                columns > 0,
        ;
        assert(0 <= index % columns < columns) by (nonlinear_arith)
            requires
                columns > 0,
        ;
        assert(columns <= self.size()) by (nonlinear_arith)
            requires
                self.size() == self.rows.len() * columns,
                self.rows.len() >= 1,
                columns > 0,
        ;
        assert((index / columns) * columns == columns * (index / columns)) by (nonlinear_arith);
    }

    /// Cells come in the order of the number of cells before them.
    pub proof fn lemma_order(self, a: Point, b: Point)
        requires
            self.wf(),
            self.has(a),
            self.has(b),
        ensures
            a.precedes(b) <==> self.index(a) < self.index(b),
            a == b <==> self.index(a) == self.index(b),
    {
        let columns = self.columns();
        let row_a = a.line + self.history;
        let row_b = b.line + self.history;
        if row_a < row_b {
            assert(row_a * columns + columns <= row_b * columns) by (nonlinear_arith)
                requires
                    row_a < row_b,
                    columns > 0,
            ;
        } else if row_b < row_a {
            assert(row_b * columns + columns <= row_a * columns) by (nonlinear_arith)
                requires
                    row_b < row_a,
                    columns > 0,
            ;
        }
    }

    /// The number of cells before the first cell of a line, and before the first one of the next.
    pub proof fn lemma_line(self, line: int)
        ensures
            (line + 1 + self.history) * self.columns() == (line + self.history) * self.columns()
                + self.columns(),
    {
        let columns = self.columns();
        let row = line + self.history;
        assert((row + 1) * columns == row * columns + columns) by (nonlinear_arith);
    }

    /// The first cell is the one without a cell before it, the last one has all others before it.
    pub proof fn lemma_ends(self, point: Point)
        requires
            self.wf(),
            self.has(point),
        ensures
            self.is_first(point) <==> self.index(point) == 0,
            self.is_last(point) <==> self.index(point) == self.size() - 1,
    {
        let first = Point { line: self.topmost_line() as i32, column: 0 };
        let last = Point {
            line: self.bottommost_line() as i32,
            column: self.last_column() as usize,
        };
        self.lemma_line(self.bottommost_line());
        assert(self.columns() <= self.size()) by (nonlinear_arith)
            requires
                self.size() == self.rows.len() * self.columns(),
                self.rows.len() >= 1,
                self.columns() > 0,
        ;
        assert(self.index(first) == 0) by (nonlinear_arith)
            requires
                self.index(first) == (-self.history + self.history) * self.columns() + 0,
        ;
        self.lemma_order(first, point);
        self.lemma_order(last, point);
    }
}

/// Matches are found one behind the other: the first one from the start on, and every other one from
/// where the search goes on behind the one before. The search ends with a match which ends in the
/// last cell, with one which is searched for from the last cell on, when nothing is found any more,
/// or when there are as many as are asked for.
pub proof fn searches_go_on_behind_a_match(
    screen: Screen,
    pattern: Seq<char>,
    start: Point,
    end: Point,
    limit: nat,
    k: int,
)
    requires
        0 <= k < screen.search_all(pattern, start, end, limit).len(),
    ensures
        ({
            let found = screen.search_all(pattern, start, end, limit);
            let from = if k == 0 {
                start
            } else {
                screen.search_resumed(found[k - 1].end)
            };
            let ends = from == end || found[k].end == end;
            &&& found.len() <= limit
            &&& screen.search_right(pattern, from, end) == Some(found[k])
            &&& k + 1 < found.len() ==> !ends
            &&& k + 1 == found.len() ==> {
                ||| ends
                ||| found.len() == limit
                ||| screen.search_right(pattern, screen.search_resumed(found[k].end), end) is None
            }
        }),
    decreases limit,
{
    let found = screen.search_all(pattern, start, end, limit);
    let next = screen.search_resumed(found[0].end);
    if start != end && found[0].end != end {
        let rest = screen.search_all(pattern, next, end, (limit - 1) as nat);
        assert(found =~= seq![found[0]] + rest);
        if k > 0 {
            assert(found[k] == rest[k - 1]);
            searches_go_on_behind_a_match(screen, pattern, next, end, (limit - 1) as nat, k - 1);
            if k > 1 {
                assert(found[k - 1] == rest[k - 2]);
            }
        } else if rest.len() > 0 {
            searches_go_on_behind_a_match(screen, pattern, next, end, (limit - 1) as nat, 0);
        }
    } else {
        assert(found =~= seq![found[0]]);
    }
}

/// There is nothing to be found if the first search finds nothing.
pub proof fn searches_find_what_is_there(
    screen: Screen,
    pattern: Seq<char>,
    start: Point,
    end: Point,
    limit: nat,
)
    ensures
        screen.search_all(pattern, start, end, limit).len() == 0 <==> limit == 0
            || screen.search_right(pattern, start, end) is None,
{
}

/// The search goes on in the next cell, which is the first one of the next line at the end of a line,
/// and the first one of all behind the last one. It goes on one cell later behind a wide character
/// with a second half, and in the third cell of the next line behind the placeholder of a wide
/// character which did not fit.
pub proof fn searches_go_on_in_the_next_cell(screen: Screen, point: Point)
    requires
        screen.wf(),
        screen.has(point),
    ensures
        ({
            let glyph = screen.cell(point).glyph;
            let next = screen.search_resumed(point);
            let last = screen.rows[0].len() - 1;
            let bottom = screen.rows.len() - screen.history - 1;
            &&& screen.has(next)
            &&& !glyph.leading_spacer && !glyph.wide ==> {
                &&& point.column < last ==> next.line == point.line && next.column == point.column
                    + 1
                &&& point.column == last && point.line < bottom ==> next.line == point.line + 1
                    && next.column == 0
                &&& point.column == last && point.line == bottom ==> next.line == -screen.history
                    && next.column == 0
            }
            &&& !glyph.leading_spacer && glyph.wide ==> {
                &&& point.column + 1 < last ==> next.line == point.line && next.column
                    == point.column + 2
                &&& point.column + 1 == last && point.line < bottom ==> next.line == point.line + 1
                    && next.column == 0
                &&& point.column + 1 == last && point.line == bottom ==> next.line
                    == -screen.history && next.column == 0
                &&& point.column == last && point.line < bottom ==> next.line == point.line + 1
                    && next.column == 0
                &&& point.column == last && point.line == bottom ==> next.line == -screen.history
                    && next.column == 0
            }
            &&& glyph.leading_spacer && last >= 2 && point.line < bottom ==> next.line == point.line
                + 1 && next.column == 2
        }),
{
    let glyph = screen.cell(point).glyph;
    let next = screen.search_resumed(point);
    let columns = screen.columns();
    let size = screen.size();
    let last = columns - 1;
    let bottom = screen.bottommost_line();
    screen.lemma_index(point);
    screen.lemma_line(point.line as int);
    assert(size >= columns) by (nonlinear_arith)
        requires
            size == screen.rows.len() * columns,
            screen.rows.len() > 0,
            columns > 0,
    ;
    let end = if glyph.leading_spacer {
        (point.line + screen.history + 1) * columns + 1
    } else if glyph.wide && point.column < last {
        screen.index(point) + 1
    } else {
        screen.index(point)
    };
    let i = (end + 1) % size;
    assert(end >= 0) by (nonlinear_arith)
        requires
            columns > 0,
            point.line + screen.history >= 0,
            end == (point.line + screen.history + 1) * columns + 1 || end >= screen.index(point),
            screen.index(point) >= 0,
    ;
    assert(0 <= i < size) by (nonlinear_arith)
        requires
            i == (end + 1) % size,
            size > 0,
    ;
    screen.lemma_point(i);
    if end + 1 < size {
        vstd::arithmetic::div_mod::lemma_small_mod((end + 1) as nat, size as nat);
    }
    if end + 1 == size {
        assert((end + 1) % size == 0) by (nonlinear_arith)
            requires
                end + 1 == size,
                size > 0,
        ;
        let first = Point { line: -screen.history as i32, column: 0 };
        screen.lemma_ends(next);
    }
    screen.lemma_ends(point);
    let expected_here = Point {
        line: point.line,
        column: (point.column + (end + 1 - screen.index(point))) as usize,
    };
    if point.line < bottom {
        let below = Point { line: (point.line + 1) as i32, column: 0 };
        screen.lemma_index(below);
        assert(end + 1 == screen.index(below) ==> next == below);
        if glyph.leading_spacer && last >= 2 {
            let third = Point { line: (point.line + 1) as i32, column: 2 };
            screen.lemma_index(third);
            assert(end + 1 == screen.index(third));
        }
    }
    if !glyph.leading_spacer && point.column + (end + 1 - screen.index(point)) <= last {
        screen.lemma_index(expected_here);
        assert(screen.index(expected_here) == end + 1);
    }
    let corner = Point { line: bottom as i32, column: last as usize };
    screen.lemma_index(corner);
    screen.lemma_ends(corner);
}

proof fn lemma_noticed(screen: Screen, index: int)
    requires
        0 <= index,
    ensures
        0 <= screen.noticed(index) <= index,
        screen.noticed(index) > 0 ==> !screen.is_stepped_over(
            screen.point(screen.noticed(index)),
        ),
        forall|i: int|
            screen.noticed(index) < i <= index ==> screen.is_stepped_over(
                #[trigger] screen.point(i),
            ),
    decreases index,
{
    if index > 0 && screen.is_stepped_over(screen.point(index)) {
        lemma_noticed(screen, index - 1);
    }
}

proof fn lemma_noticed_back(screen: Screen, index: int)
    requires
        0 <= index,
    ensures
        0 <= screen.noticed_back(index) <= index,
        screen.noticed_back(index) > 0 ==> !screen.is_stepped_back_over(
            screen.point(screen.noticed_back(index)),
        ),
        forall|i: int|
            screen.noticed_back(index) < i <= index ==> screen.is_stepped_back_over(
                #[trigger] screen.point(i),
            ),
    decreases index,
{
    if index > 0 && screen.is_stepped_back_over(screen.point(index)) {
        lemma_noticed_back(screen, index - 1);
    }
}

/// A search starts and ends where it is meant to, unless the cell would go unnoticed. Then it starts
/// or ends in the last cell before it which does not, or in the first cell of all.
pub proof fn searches_start_and_end_in_noticed_cells(screen: Screen, point: Point, other: Point)
    requires
        screen.wf(),
        screen.has(point),
        screen.has(other),
    ensures
        screen.has(screen.searched_to(point)),
        screen.searched_to(point).at_most(point),
        !screen.is_stepped_over(point) ==> screen.searched_to(point) == point,
        screen.is_stepped_over(screen.searched_to(point)) ==> screen.searched_to(point).line
            == -screen.history && screen.searched_to(point).column == 0,
        screen.searched_to(point).precedes(other) && other.at_most(point)
            ==> screen.is_stepped_over(other),
        screen.has(screen.searched_from(point)),
        screen.searched_from(point).at_most(point),
        !screen.is_stepped_back_over(point) ==> screen.searched_from(point) == point,
        screen.is_stepped_back_over(screen.searched_from(point)) ==> screen.searched_from(point).line
            == -screen.history && screen.searched_from(point).column == 0,
        screen.searched_from(point).precedes(other) && other.at_most(point)
            ==> screen.is_stepped_back_over(other),
{
    screen.lemma_index(point);
    screen.lemma_index(other);
    let i = screen.index(point);
    lemma_noticed(screen, i);
    lemma_noticed_back(screen, i);
    screen.lemma_point(screen.noticed(i));
    screen.lemma_point(screen.noticed_back(i));
    screen.lemma_order(screen.searched_to(point), point);
    screen.lemma_order(screen.searched_from(point), point);
    screen.lemma_order(screen.searched_to(point), other);
    screen.lemma_order(screen.searched_from(point), other);
    screen.lemma_order(other, point);
    screen.lemma_ends(screen.searched_to(point));
    screen.lemma_ends(screen.searched_from(point));
    assert(screen.point(screen.index(other)) == other);
}

proof fn lemma_next_index(screen: Screen, point: Point, next: Point)
    requires
        screen.wf(),
        screen.has(point),
        screen.has(next),
        (next.line == point.line && next.column == point.column + 1) || (next.line == point.line + 1
            && next.column == 0 && point.column == screen.rows[0].len() - 1),
    ensures
        screen.index(next) == screen.index(point) + 1,
{
    screen.lemma_line(point.line as int);
}

proof fn lemma_glyph(screen: Screen, point: Point)
    requires
        screen.wf(),
        screen.has(point),
    ensures
        crate::engine::glyph_index(screen.glyphs(), screen.history, point) == screen.index(point),
        crate::engine::glyph_at(screen.glyphs(), screen.index(point)) == screen.cell(point).glyph,
        screen.index(point) % screen.columns() == point.column,
        screen.glyphs().len() * screen.glyphs()[0].len() == screen.size(),
{
    screen.lemma_index(point);
    let columns = screen.columns();
    assert(screen.glyphs()[0].len() == columns);
    vstd::arithmetic::div_mod::lemma_fundamental_div_mod_converse(
        screen.index(point),
        columns,
        point.line + screen.history,
        point.column as int,
    );
}

/// A search goes past a cell unnoticed only behind a placeholder for a wide character which did not
/// fit in its line. The last cell is never passed.
pub proof fn placeholders_hide_the_next_cell(
    screen: Screen,
    before: Point,
    point: Point,
    next: Point,
)
    requires
        screen.wf(),
        screen.has(before),
        screen.has(point),
        screen.has(next),
        (point.line == before.line && point.column == before.column + 1) || (point.line
            == before.line + 1 && point.column == 0 && before.column == screen.rows[0].len() - 1),
        (next.line == point.line && next.column == point.column + 1) || (next.line == point.line + 1
            && next.column == 0 && point.column == screen.rows[0].len() - 1),
    ensures
        screen.is_stepped_over(point) <==> {
            &&& screen.cell(before).glyph.leading_spacer
            &&& !screen.cell(before).glyph.wide || before.column == screen.rows[0].len() - 1
        },
        screen.is_stepped_back_over(point) <==> {
            &&& screen.cell(before).glyph.leading_spacer
            &&& screen.cell(next).glyph.wide_spacer
        },
        !screen.is_stepped_over(
            Point {
                line: (screen.rows.len() - screen.history - 1) as i32,
                column: (screen.rows[0].len() - 1) as usize,
            },
        ),
        !screen.is_stepped_over(Point { line: -screen.history as i32, column: 0 }),
{
    lemma_next_index(screen, before, point);
    lemma_next_index(screen, point, next);
    lemma_glyph(screen, before);
    lemma_glyph(screen, point);
    lemma_glyph(screen, next);
    screen.lemma_index(before);
    screen.lemma_index(next);
    let first = Point { line: -screen.history as i32, column: 0 };
    let last = Point {
        line: (screen.rows.len() - screen.history - 1) as i32,
        column: (screen.rows[0].len() - 1) as usize,
    };
    assert(screen.columns() <= screen.size()) by (nonlinear_arith)
        requires
            screen.size() == screen.rows.len() * screen.columns(),
            screen.rows.len() > 0,
            screen.columns() > 0,
    ;
    lemma_glyph(screen, first);
    lemma_glyph(screen, last);
    screen.lemma_ends(first);
    screen.lemma_ends(last);
}

/// The text of a range can be read unless it takes in a cell which there is not: one of its lines
/// would start in the second half of a wide character, or it would end in a placeholder at the end of
/// the topmost line, which stands for something.
pub proof fn text_on_the_screen_can_be_read(screen: Screen, bounds: Match)
    requires
        screen.wf(),
        screen.has_match(bounds),
    ensures
        ({
            let last = screen.rows[0].len() - 1;
            let end = screen.cell(bounds.end).glyph;
            let halved = exists|line: int|
                {
                    &&& bounds.start.line <= line <= bounds.end.line
                    &&& bounds.start.line < line || bounds.start.column == 0
                    &&& (#[trigger] screen.rows[line + screen.history])[0].glyph.wide_spacer
                };
            let above = {
                &&& bounds.start.line <= bounds.end.line
                &&& bounds.end.line == -screen.history
                &&& bounds.end.column == last
                &&& last > 0
                &&& end.leading_spacer
                &&& end.wrapline || end.c != ' ' || end.zerowidth.len() > 0
            };
            screen.text(bounds) is Some <==> !halved && !above
        }),
{
    let glyphs = screen.glyphs();
    let history = screen.history;
    let start = bounds.start;
    let end = bounds.end;
    assert forall|row: int| 0 <= row < screen.rows.len() implies #[trigger] glyphs[row].len()
        == screen.columns() by {}
    if exists|line: int|
        {
            &&& start.line <= line <= end.line
            &&& start.line < line || start.column == 0
            &&& (#[trigger] screen.rows[line + history])[0].glyph.wide_spacer
        } {
        let line = choose|line: int|
            {
                &&& start.line <= line <= end.line
                &&& start.line < line || start.column == 0
                &&& (#[trigger] screen.rows[line + history])[0].glyph.wide_spacer
            };
        assert(crate::engine::reads_before(glyphs, history, start, line + history));
    }
    if crate::engine::reads_outside(glyphs, history, start, end)
        && !crate::engine::reads_above(glyphs, history, end) {
        let row = choose|row: int|
            start.line + history <= row <= end.line + history
                && #[trigger] crate::engine::reads_before(glyphs, history, start, row);
        let line = row - history;
        assert(screen.rows[line + history][0].glyph.wide_spacer);
    }
    if end.line == -history {
        assert(glyphs[0].last() == screen.rows[0][screen.columns() - 1].glyph);
    }
}

/// Column `column` of row `row` is the cell which the point with this column, and with the number of
/// the row behind the scrollback for a line, stands for. Rows are as wide as the first one, and the
/// rows on display are as many as are not in the scrollback, moved up by what the display is scrolled
/// by.
pub proof fn cells_are_found_in_their_rows(screen: Screen, row: int, column: int)
    requires
        screen.wf(),
        0 <= row < screen.rows.len(),
        0 <= column < screen.rows[0].len(),
    ensures
        ({
            let point = Point { line: (row - screen.history) as i32, column: column as usize };
            let index = row * screen.rows[0].len() + column;
            &&& screen.has(point)
            &&& screen.cell(point) == screen.rows[row][column]
            &&& screen.index(point) == index
            &&& screen.point(index) == point
            &&& screen.cells()[index] == screen.rows[row][column]
            &&& screen.glyphs()[row][column] == screen.rows[row][column].glyph
            &&& screen.wraps(row - screen.history) == screen.rows[row][screen.rows[0].len()
                - 1].glyph.wrapline
        }),
        screen.size() == screen.rows.len() * screen.rows[0].len(),
        screen.viewport_start() == -screen.display_offset,
        screen.viewport_end() == screen.rows.len() - screen.history - 1 - screen.display_offset,
{
    let columns = screen.columns();
    assert(columns <= screen.size()) by (nonlinear_arith)
        requires
            screen.size() == screen.rows.len() * columns,
            screen.rows.len() > 0,
            columns > 0,
    ;
    let point = Point { line: (row - screen.history) as i32, column: column as usize };
    assert(screen.has(point));
    screen.lemma_index(point);
}

/// A point outside of all lines and columns is not a cell of the terminal.
pub proof fn other_points_are_no_cells(screen: Screen, point: Point)
    requires
        screen.wf(),
    ensures
        screen.has(point) <==> {
            &&& -screen.history <= point.line < screen.rows.len() - screen.history
            &&& point.column < screen.rows[0].len()
        },
{
}

} // verus!
