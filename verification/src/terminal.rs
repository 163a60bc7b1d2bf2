//! The terminal which hints are looked for in.
use alacritty_terminal::event::VoidListener;
use alacritty_terminal::term::{Term, TermMode};
use vstd::prelude::*;

use crate::engine;
use crate::index::{Match, Point};
use crate::screen::{CellView, Glyph, Link, Screen};

verus! {

/// A hyperlink which an application attached to cells.
#[derive(Debug, PartialEq, Eq)]
pub struct Hyperlink {
    id: String,
    uri: String,
}

impl View for Hyperlink {
    type V = Link;

    closed spec fn view(&self) -> Link {
        Link { id: self.id@, uri: self.uri@ }
    }
}

impl Clone for Hyperlink {
    fn clone(&self) -> (other: Self)
        ensures
            other@ == self@,
    {
        Hyperlink { id: self.id.clone(), uri: self.uri.clone() }
    }
}

impl Hyperlink {
    pub fn new(id: String, uri: String) -> (hyperlink: Hyperlink)
        ensures
            hyperlink@ == (Link { id: id@, uri: uri@ }),
    {
        Hyperlink { id, uri }
    }

    pub fn id(&self) -> (id: &str)
        ensures
            id@ == self@.id,
    {
        self.id.as_str()
    }

    pub fn uri(&self) -> (uri: &str)
        ensures
            uri@ == self@.uri,
    {
        self.uri.as_str()
    }

    /// Check if both are the same hyperlink.
    pub fn same(&self, other: &Hyperlink) -> (same: bool)
        ensures
            same == (self@ == other@),
    {
        self.id == other.id && self.uri == other.uri
    }
}

/// The link of a hyperlink which may be missing.
pub open spec fn link_of(hyperlink: Option<Hyperlink>) -> Option<Link> {
    match hyperlink {
        Some(hyperlink) => Some(hyperlink@),
        None => None,
    }
}

/// Check if both are the same hyperlink, or both are missing.
pub fn same_hyperlink(a: Option<&Hyperlink>, b: Option<&Hyperlink>) -> (same: bool)
    ensures
        same == match (a, b) {
            (Some(a), Some(b)) => a@ == b@,
            (None, None) => true,
            _ => false,
        },
{
    match (a, b) {
        (Some(a), Some(b)) => a.same(b),
        (None, None) => true,
        _ => false,
    }
}

/// Content of a single cell.
#[derive(Debug)]
pub struct Cell {
    /// Character of the cell.
    pub c: char,
    /// Characters without a width of their own, which are added to `c`.
    pub zerowidth: Vec<char>,
    /// The line goes on in the next one behind this cell.
    pub wrapline: bool,
    /// The character takes up the next cell, too.
    pub wide: bool,
    /// The cell is the second half of a wide character.
    pub wide_spacer: bool,
    /// The cell was left empty since the wide character behind it did not fit in the line.
    pub leading_spacer: bool,
    /// Hyperlink of the cell.
    pub hyperlink: Option<Hyperlink>,
}

impl Cell {
    /// A cell with nothing but a character.
    pub fn new(c: char) -> (cell: Cell)
        ensures
            cell@.glyph == (Glyph { c, ..crate::screen::blank_glyph() }),
            cell@.hyperlink is None,
    {
        Cell {
            c,
            zerowidth: Vec::new(),
            wrapline: false,
            wide: false,
            wide_spacer: false,
            leading_spacer: false,
            hyperlink: None,
        }
    }
}

impl View for Cell {
    type V = CellView;

    open spec fn view(&self) -> CellView {
        CellView {
            glyph: Glyph {
                c: self.c,
                zerowidth: self.zerowidth@,
                wrapline: self.wrapline,
                wide: self.wide,
                wide_spacer: self.wide_spacer,
                leading_spacer: self.leading_spacer,
            },
            hyperlink: link_of(self.hyperlink),
        }
    }
}

/// The cells of a line.
pub open spec fn row_view(row: Seq<Cell>) -> Seq<CellView> {
    row.map_values(|cell: Cell| cell@)
}

/// The cells of all lines.
pub open spec fn row_views(rows: Seq<Vec<Cell>>) -> Seq<Seq<CellView>> {
    rows.map_values(|row: Vec<Cell>| row_view(row@))
}

/// What the cells of all lines show.
pub open spec fn row_glyphs(rows: Seq<Vec<Cell>>) -> Seq<Seq<Glyph>> {
    Seq::new(rows.len(), |l: int| Seq::new(rows[l]@.len(), |c: int| rows[l]@[c]@.glyph))
}

/// The contents of a terminal at one moment.
pub struct Terminal {
    /// All lines, the oldest line of the scrollback first.
    rows: Vec<Vec<Cell>>,
    /// Number of cells in a line.
    columns: usize,
    /// Number of lines in the scrollback.
    history: usize,
    /// Number of lines the display is scrolled up by.
    display_offset: usize,
    /// For every column, if there is a tab stop.
    tab_stops: Vec<bool>,
    /// Modes the terminal is in.
    mode: TermMode,
    /// The same cells and tab stops for the terminal library.
    term: Term<VoidListener>,
}

impl View for Terminal {
    type V = Screen;

    closed spec fn view(&self) -> Screen {
        Screen {
            rows: row_views(self.rows@),
            history: self.history as nat,
            display_offset: self.display_offset as nat,
            tabs: self.tab_stops@,
        }
    }
}

impl Terminal {
    /// The terminal library has the same cells and tab stops.
    #[verifier::type_invariant]
    pub closed spec fn inv(self) -> bool {
        &&& self@.wf()
        &&& self.columns == self@.columns()
        &&& engine::term_rows(self.term) == self@.glyphs()
        &&& engine::term_history(self.term) == self.history
        &&& engine::term_tabs(self.term) == self@.tabs
    }

    /// The cells of every terminal can be addressed.
    pub proof fn lemma_inv(self)
        requires
            self.inv(),
        ensures
            self@.wf(),
    {
    }

    /// Modes the terminal is in.
    pub closed spec fn mode(&self) -> TermMode {
        self.mode
    }

    /// Lines, scrollback, scroll position and tab stops fit together.
    pub open spec fn shape_fits(
        rows: Seq<Vec<Cell>>,
        screen_lines: nat,
        display_offset: nat,
        tab_stops: Seq<bool>,
    ) -> bool {
        &&& 0 < screen_lines <= rows.len() <= i32::MAX - 100
        &&& 0 < rows[0]@.len()
        &&& forall|l: int| 0 <= l < rows.len() ==> #[trigger] rows[l]@.len() == rows[0]@.len()
        &&& rows.len() * rows[0]@.len() <= usize::MAX
        &&& display_offset <= rows.len() - screen_lines
        &&& tab_stops.len() == rows[0]@.len()
    }

    /// Take over the contents of a terminal.
    ///
    /// The last `screen_lines` of `rows` are the screen, the lines before them are the scrollback.
    /// `tab_stops` tells for every column if there is a tab stop. There is no such terminal if the
    /// lines have different widths, or if there are no cells, too few lines to be displayed, or more
    /// of them than can be addressed.
    pub fn new(
        rows: Vec<Vec<Cell>>,
        screen_lines: usize,
        display_offset: usize,
        tab_stops: Vec<bool>,
        mode: TermMode,
    ) -> (terminal: Option<Terminal>)
        ensures
            terminal is Some <==> Self::shape_fits(
                rows@,
                screen_lines as nat,
                display_offset as nat,
                tab_stops@,
            ),
            terminal matches Some(terminal) ==> {
                &&& terminal@ == (Screen {
                    rows: row_views(rows@),
                    history: (rows@.len() - screen_lines) as nat,
                    display_offset: display_offset as nat,
                    tabs: tab_stops@,
                })
                &&& terminal@.wf()
                &&& terminal.mode() == mode
            },
    {
        let lines: usize = rows.len();
        if screen_lines == 0 || lines < screen_lines || lines > 2_147_483_547 {
            return None;
        }
        let columns: usize = rows[0].len();
        if columns == 0 || display_offset > lines - screen_lines || tab_stops.len() != columns {
            return None;
        }
        if columns > usize::MAX / lines {
            proof {
                assert(lines * columns > usize::MAX) by (nonlinear_arith)
                    requires
                        columns > usize::MAX / lines,
                        lines > 0,
                ;
            }
            return None;
        }
        proof {
            assert(lines * columns <= usize::MAX) by (nonlinear_arith)
                requires
                    columns <= usize::MAX / lines,
                    lines > 0,
            ;
        }
        let mut l: usize = 0;
        while l < lines
            invariant
                l <= lines,
                lines == rows@.len(),
                lines > 0,
                columns == rows@[0]@.len(),
                forall|i: int| 0 <= i < l ==> #[trigger] rows@[i]@.len() == columns,
            decreases lines - l,
        {
            if rows[l].len() != columns {
                return None;
            }
            l = l + 1;
        }

        let history: usize = lines - screen_lines;
        let mut term = Self::write_rows(&rows, columns, screen_lines);
        Self::write_tabs(&mut term, &tab_stops);
        proof {
            Self::lemma_rows(
                rows@,
                Screen {
                    rows: row_views(rows@),
                    history: history as nat,
                    display_offset: display_offset as nat,
                    tabs: tab_stops@,
                },
            );
        }
        Some(Terminal { rows, columns, history, display_offset, tab_stops, mode, term })
    }

    /// The lines of a screen which are made of `cells`.
    proof fn lemma_rows(cells: Seq<Vec<Cell>>, screen: Screen)
        requires
            screen.rows == row_views(cells),
        ensures
            screen.glyphs() == row_glyphs(cells),
            forall|l: int| 0 <= l < cells.len() ==> #[trigger] screen.rows[l].len() == cells[l]@.len(),
    {
        assert forall|l: int| 0 <= l < cells.len() implies screen.glyphs()[l] == #[trigger] row_glyphs(
            cells,
        )[l] by {
            assert(screen.glyphs()[l] =~= row_glyphs(cells)[l]);
        }
        assert(screen.glyphs() =~= row_glyphs(cells));
    }

    /// Copy the tab stops for the terminal library.
    fn write_tabs(term: &mut Term<VoidListener>, tab_stops: &Vec<bool>)
        requires
            engine::term_rows(*old(term)).len() > 0,
            engine::term_rows(*old(term))[0].len() == tab_stops@.len(),
        ensures
            engine::term_history(*final(term)) == engine::term_history(*old(term)),
            engine::term_rows(*final(term)) == engine::term_rows(*old(term)),
            engine::term_tabs(*final(term)) == tab_stops@,
    {
        engine::clear_tabs(term);
        let mut c: usize = 0;
        while c < tab_stops.len()
            invariant
                c <= tab_stops@.len(),
                engine::term_rows(*old(term)).len() > 0,
                engine::term_rows(*old(term))[0].len() == tab_stops@.len(),
                engine::term_history(*term) == engine::term_history(*old(term)),
                engine::term_rows(*term) == engine::term_rows(*old(term)),
                engine::term_tabs(*term).len() == tab_stops@.len(),
                forall|i: int| 0 <= i < c ==> engine::term_tabs(*term)[i] == tab_stops@[i],
                forall|i: int| c <= i < tab_stops@.len() ==> !engine::term_tabs(*term)[i],
            decreases tab_stops@.len() - c,
        {
            if tab_stops[c] {
                engine::move_cursor(term, c);
                engine::set_tab(term);
            }
            c = c + 1;
        }
        assert(engine::term_tabs(*term) =~= tab_stops@);
    }

    /// Copy all cells for the terminal library.
    fn write_rows(rows: &Vec<Vec<Cell>>, columns: usize, screen_lines: usize) -> (term: Term<
        VoidListener,
    >)
        requires
            0 < screen_lines <= rows@.len() <= i32::MAX - 100,
            columns > 0,
            forall|l: int| 0 <= l < rows@.len() ==> #[trigger] rows@[l]@.len() == columns,
        ensures
            engine::term_history(term) == rows@.len() - screen_lines,
            engine::term_rows(term) == row_glyphs(rows@),
    {
        let ghost target = row_glyphs(rows@);
        let lines: usize = rows.len();
        let history: usize = lines - screen_lines;
        let mut term = engine::new_term(columns, screen_lines, history);
        engine::fill_scrollback(&mut term);
        let mut l: usize = 0;
        while l < lines
            invariant
                l <= lines,
                lines == rows@.len(),
                history < lines <= i32::MAX - 100,
                forall|i: int| 0 <= i < lines ==> #[trigger] rows@[i]@.len() == columns,
                target == row_glyphs(rows@),
                engine::term_history(term) == history,
                engine::term_rows(term).len() == lines,
                forall|i: int|
                    0 <= i < lines ==> #[trigger] engine::term_rows(term)[i].len() == columns,
                forall|i: int| 0 <= i < l ==> #[trigger] engine::term_rows(term)[i] == target[i],
            decreases lines - l,
        {
            let line: i32 = l as i32 - history as i32;
            let mut c: usize = 0;
            while c < columns
                invariant
                    l < lines,
                    c <= columns,
                    line == l - history,
                    lines == rows@.len(),
                    history < lines <= i32::MAX - 100,
                    forall|i: int| 0 <= i < lines ==> #[trigger] rows@[i]@.len() == columns,
                    target == row_glyphs(rows@),
                    engine::term_history(term) == history,
                    engine::term_rows(term).len() == lines,
                    forall|i: int|
                        0 <= i < lines ==> #[trigger] engine::term_rows(term)[i].len() == columns,
                    forall|i: int| 0 <= i < l ==> #[trigger] engine::term_rows(term)[i] == target[i],
                    forall|i: int|
                        0 <= i < c ==> #[trigger] engine::term_rows(term)[l as int][i]
                            == target[l as int][i],
                decreases columns - c,
            {
                let ghost before = engine::term_rows(term);
                let cell: &Cell = &rows[l][c];
                let point = Point { line, column: c };
                engine::write_glyph(
                    &mut term,
                    point,
                    cell.c,
                    cell.wrapline,
                    cell.wide,
                    cell.wide_spacer,
                    cell.leading_spacer,
                );
                let ghost bare = Glyph {
                    c: cell.c,
                    zerowidth: Seq::empty(),
                    wrapline: cell.wrapline,
                    wide: cell.wide,
                    wide_spacer: cell.wide_spacer,
                    leading_spacer: cell.leading_spacer,
                };
                assert(cell.zerowidth@.take(0) =~= Seq::empty());
                let mut z: usize = 0;
                while z < cell.zerowidth.len()
                    invariant
                        l < lines,
                        c < columns,
                        lines == before.len(),
                        forall|i: int| 0 <= i < lines ==> #[trigger] before[i].len() == columns,
                        point == (Point { line, column: c }),
                        line == l - history,
                        z <= cell.zerowidth@.len(),
                        engine::term_history(term) == history,
                        engine::term_rows(term) == before.update(
                            l as int,
                            before[l as int].update(
                                c as int,
                                Glyph { zerowidth: cell.zerowidth@.take(z as int), ..bare },
                            ),
                        ),
                    decreases cell.zerowidth@.len() - z,
                {
                    engine::push_zerowidth(&mut term, point, cell.zerowidth[z]);
                    z = z + 1;
                    assert(cell.zerowidth@.take(z as int) =~= cell.zerowidth@.take(z - 1).push(
                        cell.zerowidth@[z - 1],
                    ));
                    assert(engine::term_rows(term)[l as int] =~= before[l as int].update(
                        c as int,
                        Glyph { zerowidth: cell.zerowidth@.take(z as int), ..bare },
                    ));
                    assert(engine::term_rows(term) =~= before.update(
                        l as int,
                        before[l as int].update(
                            c as int,
                            Glyph { zerowidth: cell.zerowidth@.take(z as int), ..bare },
                        ),
                    ));
                }
                assert(cell.zerowidth@.take(z as int) =~= cell.zerowidth@);
                assert(engine::term_rows(term)[l as int][c as int] == target[l as int][c as int]);
                c = c + 1;
            }
            assert(engine::term_rows(term)[l as int] =~= target[l as int]);
            l = l + 1;
        }
        assert(engine::term_rows(term) =~= target);
        term
    }

    /// Modes the terminal is in.
    pub fn term_mode(&self) -> (mode: TermMode)
        ensures
            mode == self.mode(),
    {
        self.mode
    }

    /// Topmost line of the scrollback.
    pub fn topmost_line(&self) -> (line: i32)
        ensures
            self@.wf(),
            line == self@.topmost_line(),
    {
        proof {
            use_type_invariant(self);
        }
        -(self.history as i32)
    }

    /// Bottommost line of the screen.
    pub fn bottommost_line(&self) -> (line: i32)
        ensures
            self@.wf(),
            line == self@.bottommost_line(),
    {
        proof {
            use_type_invariant(self);
        }
        (self.rows.len() - self.history - 1) as i32
    }

    /// Last column of every line.
    pub fn last_column(&self) -> (column: usize)
        ensures
            self@.wf(),
            column == self@.last_column(),
    {
        proof {
            use_type_invariant(self);
        }
        self.columns - 1
    }

    /// Topmost line of the viewport.
    pub fn viewport_start(&self) -> (line: i32)
        ensures
            self@.wf(),
            line == self@.viewport_start(),
    {
        proof {
            use_type_invariant(self);
        }
        -(self.display_offset as i32)
    }

    /// Check if a point is a cell of the terminal.
    pub fn has_point(&self, point: Point) -> (has: bool)
        ensures
            self@.wf(),
            has == self@.has(point),
    {
        let last_column: usize = self.last_column();
        self.topmost_line() <= point.line && point.line <= self.bottommost_line() && point.column
            <= last_column
    }

    fn cell(&self, point: Point) -> (cell: &Cell)
        requires
            self@.has(point),
        ensures
            self@.wf(),
            cell@ == self@.cell(point),
    {
        proof {
            use_type_invariant(self);
        }
        let row: usize = (point.line + self.history as i32) as usize;
        assert(self@.rows[row as int].len() == self@.columns());
        assert(self@.rows[row as int] == row_view(self.rows@[row as int]@));
        &self.rows[row][point.column]
    }

    /// Character of a cell.
    pub fn character(&self, point: Point) -> (c: char)
        requires
            self@.has(point),
        ensures
            self@.wf(),
            c == self@.cell(point).glyph.c,
    {
        self.cell(point).c
    }

    /// Hyperlink of a cell.
    pub fn hyperlink(&self, point: Point) -> (hyperlink: Option<&Hyperlink>)
        requires
            self@.has(point),
        ensures
            self@.wf(),
            hyperlink is Some <==> self@.cell(point).hyperlink is Some,
            hyperlink matches Some(hyperlink) ==> self@.cell(point).hyperlink == Some(hyperlink@),
    {
        match &self.cell(point).hyperlink {
            Some(hyperlink) => Some(hyperlink),
            None => None,
        }
    }

    /// Check if a line goes on in the next one.
    pub fn wraps(&self, line: i32) -> (wraps: bool)
        requires
            self@.topmost_line() <= line <= self@.bottommost_line(),
        ensures
            self@.wf(),
            wraps == self@.wraps(line as int),
    {
        let last_column: usize = self.last_column();
        self.cell(Point { line, column: last_column }).wrapline
    }

    /// The cell behind a cell, if it is not the last one.
    pub fn next_point(&self, point: Point) -> (next: Option<Point>)
        requires
            self@.has(point),
        ensures
            self@.wf(),
            next is None <==> self@.index(point) == self@.size() - 1,
            next is None <==> self@.is_last(point),
            next matches Some(next) ==> {
                &&& self@.has(next)
                &&& self@.index(next) == self@.index(point) + 1
                &&& next == self@.point(self@.index(point) + 1)
            },
    {
        let last_column: usize = self.last_column();
        let bottommost_line: i32 = self.bottommost_line();
        proof {
            self@.lemma_ends(point);
            self@.lemma_line(point.line as int);
        }
        if point.column < last_column {
            let next = Point { line: point.line, column: point.column + 1 };
            proof {
                self@.lemma_index(next);
            }
            Some(next)
        } else if point.line < bottommost_line {
            let next = Point { line: point.line + 1, column: 0 };
            proof {
                self@.lemma_index(next);
            }
            Some(next)
        } else {
            None
        }
    }

    /// The cell in front of a cell, if it is not the first one.
    pub fn previous_point(&self, point: Point) -> (previous: Option<Point>)
        requires
            self@.has(point),
        ensures
            self@.wf(),
            previous is None <==> self@.index(point) == 0,
            previous matches Some(previous) ==> {
                &&& self@.has(previous)
                &&& self@.index(previous) == self@.index(point) - 1
                &&& previous == self@.point(self@.index(point) - 1)
            },
    {
        let last_column: usize = self.last_column();
        let topmost_line: i32 = self.topmost_line();
        proof {
            self@.lemma_ends(point);
            self@.lemma_line(point.line - 1);
        }
        if point.column > 0 {
            let previous = Point { line: point.line, column: point.column - 1 };
            proof {
                self@.lemma_index(previous);
            }
            Some(previous)
        } else if point.line > topmost_line {
            let previous = Point { line: point.line - 1, column: last_column };
            proof {
                self@.lemma_index(previous);
            }
            Some(previous)
        } else {
            None
        }
    }

    /// What the terminal library has, in terms of the screen.
    proof fn lemma_glyphs(screen: Screen)
        requires
            screen.wf(),
        ensures
            engine::rows_are_even(screen.glyphs(), screen.columns()),
            screen.glyphs()[0].len() == screen.columns(),
            forall|point: Point|
                engine::rows_have(screen.glyphs(), screen.history, point) <==> #[trigger] screen.has(
                    point,
                ),
    {
        assert forall|l: int| 0 <= l < screen.glyphs().len() implies #[trigger] screen.glyphs()[l].len()
            == screen.columns() by {
            assert(screen.rows[l].len() == screen.columns());
        }
    }

    /// The cells as they are counted for the terminal library.
    proof fn lemma_glyph(screen: Screen, point: Point)
        requires
            screen.wf(),
            screen.has(point),
        ensures
            engine::glyph_index(screen.glyphs(), screen.history, point) == screen.index(point),
            engine::glyph_at(screen.glyphs(), screen.index(point)) == screen.cell(point).glyph,
            screen.index(point) % screen.columns() == point.column,
            screen.glyphs()[0].len() == screen.columns(),
            screen.glyphs().len() == screen.rows.len(),
    {
        Self::lemma_glyphs(screen);
        screen.lemma_index(point);
        let index = screen.index(point);
        let columns = screen.columns();
        let row = point.line + screen.history;
        vstd::arithmetic::div_mod::lemma_fundamental_div_mod_converse(
            index,
            columns,
            row,
            point.column as int,
        );
        assert(screen.rows[row].len() == columns);
    }

    /// Check if a search would step over a cell.
    fn steps_over(&self, point: Point) -> (stepped_over: bool)
        requires
            self@.has(point),
        ensures
            self@.wf(),
            stepped_over == self@.is_stepped_over(point),
            stepped_over ==> self@.index(point) > 0,
    {
        let last_column: usize = self.last_column();
        proof {
            Self::lemma_glyph(self@, point);
            self@.lemma_index(point);
        }
        if self.next_point(point).is_none() {
            return false;
        }
        match self.previous_point(point) {
            Some(before) => {
                proof {
                    Self::lemma_glyph(self@, before);
                }
                let cell = self.cell(before);
                cell.leading_spacer && !(cell.wide && before.column < last_column)
            },
            None => false,
        }
    }

    /// Check if a search which goes back would step over a cell.
    fn steps_back_over(&self, point: Point) -> (stepped_over: bool)
        requires
            self@.has(point),
        ensures
            self@.wf(),
            stepped_over == self@.is_stepped_back_over(point),
            stepped_over ==> self@.index(point) > 0,
    {
        proof {
            use_type_invariant(self);
            Self::lemma_glyph(self@, point);
            self@.lemma_index(point);
        }
        match (self.previous_point(point), self.next_point(point)) {
            (Some(before), Some(behind)) => {
                proof {
                    Self::lemma_glyph(self@, before);
                    Self::lemma_glyph(self@, behind);
                }
                self.cell(before).leading_spacer && self.cell(behind).wide_spacer
            },
            _ => false,
        }
    }

    /// Where a search from a cell starts.
    fn searched_from(&self, point: Point) -> (searched: Point)
        requires
            self@.has(point),
        ensures
            searched == self@.searched_from(point),
            self@.has(searched),
            !self@.is_stepped_back_over(searched),
    {
        proof {
            use_type_invariant(self);
            self@.lemma_index(point);
        }
        let mut searched = point;
        while self.steps_back_over(searched)
            invariant
                self@.wf(),
                self@.has(searched),
                self@.noticed_back(self@.index(searched)) == self@.noticed_back(self@.index(point)),
            decreases self@.index(searched),
        {
            proof {
                self@.lemma_index(searched);
            }
            match self.previous_point(searched) {
                Some(previous) => {
                    searched = previous;
                },
                None => {
                    return searched;
                },
            }
        }
        proof {
            self@.lemma_index(searched);
        }
        searched
    }

    /// Where a search up to a cell ends.
    fn searched_to(&self, point: Point) -> (searched: Point)
        requires
            self@.has(point),
        ensures
            searched == self@.searched_to(point),
            self@.has(searched),
            !self@.is_stepped_over(searched),
    {
        proof {
            use_type_invariant(self);
            self@.lemma_index(point);
        }
        let mut searched = point;
        while self.steps_over(searched)
            invariant
                self@.wf(),
                self@.has(searched),
                self@.noticed(self@.index(searched)) == self@.noticed(self@.index(point)),
            decreases self@.index(searched),
        {
            proof {
                self@.lemma_index(searched);
            }
            match self.previous_point(searched) {
                Some(previous) => {
                    searched = previous;
                },
                None => {
                    return searched;
                },
            }
        }
        proof {
            self@.lemma_index(searched);
        }
        searched
    }

    /// Find the next match from `start` on, up to `end`.
    pub fn regex_search_right(&self, pattern: &str, start: Point, end: Point) -> (found: Option<
        Match,
    >)
        requires
            self@.has(start),
            self@.has(end),
        ensures
            self@.wf(),
            found == self@.search_right(pattern@, start, end),
            found matches Some(bounds) ==> self@.has_match(bounds),
    {
        let start = self.searched_from(start);
        let end = self.searched_to(end);
        proof {
            use_type_invariant(self);
            Self::lemma_glyphs(self@);
            assert(engine::rows_have(self@.glyphs(), self@.history, start));
            assert(engine::rows_have(self@.glyphs(), self@.history, end));
        }
        let found = engine::regex_search_right(&self.term, pattern, start, end);
        proof {
            if let Some(bounds) = found {
                assert(self@.has(bounds.start) && self@.has(bounds.end));
            }
        }
        found
    }

    /// The cell which has a number of cells before it.
    fn point_at(&self, index: u128) -> (point: Point)
        requires
            index < self@.size(),
        ensures
            self@.wf(),
            point == self@.point(index as int),
            self@.has(point),
    {
        proof {
            use_type_invariant(self);
            self@.lemma_point(index as int);
        }
        let columns: u128 = self.columns as u128;
        let row: u128 = index / columns;
        let column: u128 = index % columns;
        proof {
            let lines = self@.rows.len();
            assert(0 <= row < lines && 0 <= column < columns) by (nonlinear_arith)
                requires
                    0 <= index < lines * columns,
                    columns > 0,
                    row == index / columns,
                    column == index % columns,
            ;
        }
        Point { line: (row as i64 - self.history as i64) as i32, column: column as usize }
    }

    /// Where the search goes on behind a match which ends in a cell.
    fn search_resumed(&self, point: Point) -> (resumed: Point)
        requires
            self@.has(point),
        ensures
            resumed == self@.search_resumed(point),
            self@.has(resumed),
    {
        proof {
            use_type_invariant(self);
            self@.lemma_index(point);
        }
        let last_column: usize = self.last_column();
        let cell = self.cell(point);
        let columns: u128 = self.columns as u128;
        let lines: u128 = self.rows.len() as u128;
        let row: u128 = (point.line + self.history as i32) as u128;
        proof {
            assert(lines * columns == self@.size());
            assert(0 <= row * columns && (row + 1) * columns == row * columns + columns && row * columns
                + columns <= lines * columns) by (nonlinear_arith)
                requires
                    0 <= row < lines,
                    columns > 0,
            ;
            assert(lines * columns <= usize::MAX);
        }
        let end: u128 = if cell.leading_spacer {
            (row + 1) * columns + 1
        } else if cell.wide && point.column < last_column {
            row * columns + point.column as u128 + 1
        } else {
            row * columns + point.column as u128
        };
        self.point_at((end + 1) % (lines * columns))
    }

    /// Find all matches from `start` on, up to `end`. No more matches than cells are looked at.
    pub fn regex_matches(&self, pattern: &str, start: Point, end: Point) -> (found: Vec<Match>)
        requires
            self@.has(start),
            self@.has(end),
        ensures
            self@.wf(),
            found@ == self@.search_all(pattern@, start, end, self@.size() as nat),
            forall|i: int| 0 <= i < found@.len() ==> self@.has_match(#[trigger] found@[i]),
    {
        proof {
            use_type_invariant(self);
        }
        let mut left: usize = self.rows.len() * self.columns;
        let mut point = start;
        let mut found: Vec<Match> = Vec::new();
        let ghost all = self@.search_all(pattern@, start, end, self@.size() as nat);
        assert(found@ + all =~= all);
        while left > 0
            invariant
                self@.wf(),
                self@.has(point),
                self@.has(end),
                all == self@.search_all(pattern@, start, end, self@.size() as nat),
                all == found@ + self@.search_all(pattern@, point, end, left as nat),
                forall|i: int| 0 <= i < found@.len() ==> self@.has_match(#[trigger] found@[i]),
            decreases left,
        {
            let ghost before = found@;
            let bounds = match self.regex_search_right(pattern, point, end) {
                Some(bounds) => bounds,
                None => {
                    assert(all =~= found@);
                    return found;
                },
            };
            found.push(bounds);
            if point == end || bounds.end == end {
                assert(all =~= found@);
                return found;
            }
            point = self.search_resumed(bounds.end);
            left = left - 1;
            assert(all =~= found@ + self@.search_all(pattern@, point, end, left as nat));
        }
        assert(all =~= found@);
        found
    }

    /// Check if a text would take in a cell which there is not.
    fn reads_outside(&self, start: Point, end: Point) -> (outside: bool)
        requires
            self@.has(start),
            self@.has(end),
        ensures
            self@.wf(),
            outside == engine::reads_outside(self@.glyphs(), self@.history, start, end),
    {
        let topmost_line: i32 = self.topmost_line();
        let last_column: usize = self.last_column();
        let ghost rows = self@.glyphs();
        proof {
            Self::lemma_glyphs(self@);
        }
        if start.line > end.line {
            return false;
        }
        if end.line == topmost_line && end.column == last_column && last_column > 0 {
            let cell = self.cell(end);
            proof {
                assert(rows[0].len() == self@.columns());
                assert(rows[0].last() == self@.cell(end).glyph);
            }
            if cell.leading_spacer && (cell.wrapline || cell.c != ' ' || cell.zerowidth.len() > 0) {
                return true;
            }
        }
        let mut line: i32 = start.line;
        loop
            invariant
                self@.wf(),
                self@.has(start),
                self@.has(end),
                rows == self@.glyphs(),
                start.line <= line <= end.line,
                !engine::reads_above(rows, self@.history, end),
                forall|row: int|
                    start.line + self@.history <= row < line + self@.history
                        ==> !#[trigger] engine::reads_before(rows, self@.history, start, row),
            decreases end.line - line,
        {
            let first = Point { line, column: 0 };
            let cell = self.cell(first);
            proof {
                let row = line + self@.history;
                assert(self@.rows[row].len() == self@.columns());
                assert(rows[row][0] == self@.cell(first).glyph);
                assert(engine::reads_before(rows, self@.history, start, row) <==> (
                cell.wide_spacer && (start.line < line || start.column == 0)));
            }
            if cell.wide_spacer && (start.line < line || start.column == 0) {
                return true;
            }
            if line == end.line {
                return false;
            }
            line = line + 1;
        }
    }

    /// The text of the cells in a range.
    ///
    /// There is no text if a cell would be part of it which there is not: the first half of a wide
    /// character whose second half comes first in a line, or a character of the line above the
    /// topmost line, if the range ends in a placeholder for a wide character there.
    pub fn text(&self, bounds: Match) -> (text: Option<String>)
        requires
            self@.has_match(bounds),
        ensures
            self@.wf(),
            text is Some <==> self@.text(bounds) is Some,
            text matches Some(text) ==> self@.text(bounds) == Some(text@),
    {
        if self.reads_outside(bounds.start, bounds.end) {
            return None;
        }
        proof {
            use_type_invariant(self);
            Self::lemma_glyphs(self@);
            assert(engine::rows_have(self@.glyphs(), self@.history, bounds.start));
            assert(engine::rows_have(self@.glyphs(), self@.history, bounds.end));
        }
        Some(engine::bounds_to_string(&self.term, bounds.start, bounds.end))
    }
}

/// Lines make up a terminal exactly if all of them are as wide as there are tab stops, at least one
/// cell, enough of them are there to be displayed and scrolled to, and all cells can be addressed.
pub proof fn even_lines_make_up_a_terminal(
    rows: Seq<Vec<Cell>>,
    screen_lines: nat,
    display_offset: nat,
    tab_stops: Seq<bool>,
)
    ensures
        Terminal::shape_fits(rows, screen_lines, display_offset, tab_stops) <==> {
            &&& screen_lines >= 1
            &&& tab_stops.len() >= 1
            &&& screen_lines + display_offset <= rows.len() <= 2_147_483_547
            &&& rows.len() * tab_stops.len() <= usize::MAX
            &&& forall|l: int|
                0 <= l < rows.len() ==> (#[trigger] rows[l])@.len() == tab_stops.len()
        },
{
    if Terminal::shape_fits(rows, screen_lines, display_offset, tab_stops) {
        assert forall|l: int| 0 <= l < rows.len() implies (#[trigger] rows[l])@.len()
            == tab_stops.len() by {
            assert(rows[l]@.len() == rows[0]@.len());
        }
    } else if {
        &&& screen_lines >= 1
        &&& tab_stops.len() >= 1
        &&& screen_lines + display_offset <= rows.len() <= 2_147_483_547
        &&& rows.len() * tab_stops.len() <= usize::MAX
        &&& forall|l: int| 0 <= l < rows.len() ==> (#[trigger] rows[l])@.len() == tab_stops.len()
    } {
        assert(rows[0]@.len() == tab_stops.len());
        assert forall|l: int| 0 <= l < rows.len() implies #[trigger] rows[l]@.len()
            == rows[0]@.len() by {}
    }
}

/// Every cell is taken over as it is, in its place.
pub proof fn cells_are_taken_over(rows: Seq<Vec<Cell>>, l: int, c: int)
    requires
        0 <= l < rows.len(),
        0 <= c < rows[l]@.len(),
    ensures
        row_views(rows).len() == rows.len(),
        row_views(rows)[l].len() == rows[l]@.len(),
        ({
            let cell = rows[l]@[c];
            let taken = row_views(rows)[l][c];
            &&& taken.glyph.c == cell.c
            &&& taken.glyph.zerowidth == cell.zerowidth@
            &&& taken.glyph.wrapline == cell.wrapline
            &&& taken.glyph.wide == cell.wide
            &&& taken.glyph.wide_spacer == cell.wide_spacer
            &&& taken.glyph.leading_spacer == cell.leading_spacer
            &&& taken.hyperlink is None <==> cell.hyperlink is None
            &&& cell.hyperlink matches Some(hyperlink) ==> taken.hyperlink == Some(hyperlink@)
            &&& row_glyphs(rows)[l][c] == taken.glyph
        }),
{
}

} // verus!
