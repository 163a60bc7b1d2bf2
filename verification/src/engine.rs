//! The terminal library, which searches the cells of a terminal and reads text from them.
//!
//! Everything in here is taken on trust: the functions hand their arguments to the terminal
//! library, and what they promise is what that library's source shows.
use alacritty_terminal::event::VoidListener;
use alacritty_terminal::index;
use alacritty_terminal::term::cell;
use alacritty_terminal::term::search::RegexSearch;
use alacritty_terminal::term::test::TermSize;
use alacritty_terminal::term::{Config, Term, TermMode};
use alacritty_terminal::vte::ansi::{Handler, TabulationClearMode};
use vstd::prelude::*;

use crate::index::{Match, Point};
use crate::screen::Glyph;

verus! {

/// A terminal of the terminal library.
#[verifier::external_type_specification]
#[verifier::external_body]
#[verifier::reject_recursive_types(T)]
pub struct ExTerm<T>(alacritty_terminal::term::Term<T>);

/// The event listener of the terminal library which ignores all events.
#[verifier::external_type_specification]
#[verifier::external_body]
pub struct ExVoidListener(alacritty_terminal::event::VoidListener);

/// The set of modes a terminal of the terminal library is in.
#[verifier::external_type_specification]
#[verifier::external_body]
pub struct ExTermMode(alacritty_terminal::term::TermMode);

/// What the cells of `term` show, the oldest line of the scrollback first.
pub uninterp spec fn term_rows(term: Term<VoidListener>) -> Seq<Seq<Glyph>>;

/// Number of lines in the scrollback of `term`.
pub uninterp spec fn term_history(term: Term<VoidListener>) -> nat;

/// Number of lines which the scrollback of `term` can have.
pub uninterp spec fn term_limit(term: Term<VoidListener>) -> nat;

/// For every column of `term`, if there is a tab stop.
pub uninterp spec fn term_tabs(term: Term<VoidListener>) -> Seq<bool>;

/// The column of the cursor of `term`.
pub uninterp spec fn term_column(term: Term<VoidListener>) -> nat;

/// `point` is a cell of the lines in `rows`, the first `history` of which are the scrollback.
pub open spec fn rows_have(rows: Seq<Seq<Glyph>>, history: nat, point: Point) -> bool {
    &&& 0 <= point.line + history < rows.len()
    &&& point.column < rows[point.line + history].len()
}

/// All lines in `rows` are `columns` cells wide.
pub open spec fn rows_are_even(rows: Seq<Seq<Glyph>>, columns: int) -> bool {
    &&& columns > 0
    &&& 0 < rows.len() <= i32::MAX
    &&& forall|l: int| 0 <= l < rows.len() ==> #[trigger] rows[l].len() == columns
}

/// The cell with number `index`, counted line by line.
pub open spec fn glyph_at(rows: Seq<Seq<Glyph>>, index: int) -> Glyph {
    let columns = rows[0].len() as int;
    rows[index / columns][index % columns]
}

/// The number of `point`, counted line by line.
pub open spec fn glyph_index(rows: Seq<Seq<Glyph>>, history: nat, point: Point) -> int {
    (point.line + history) * rows[0].len() + point.column
}

/// A search which comes up to `point` steps over it and does not notice that it has come to it: the
/// cell in front of `point` is a placeholder for a wide character which did not fit in its line, and
/// is passed together with the two cells behind it.
pub open spec fn is_stepped_over(rows: Seq<Seq<Glyph>>, history: nat, point: Point) -> bool {
    let columns = rows[0].len() as int;
    let index = glyph_index(rows, history, point);
    let before = glyph_at(rows, index - 1);
    &&& 0 < index < rows.len() * columns - 1
    &&& before.leading_spacer
    &&& !(before.wide && (index - 1) % columns < columns - 1)
}

/// A search which comes back to `point` steps over it and does not notice that it has come to it:
/// `point` is the first half of a wide character and has a placeholder in front of it, and all of
/// these cells are passed together.
pub open spec fn is_stepped_back_over(rows: Seq<Seq<Glyph>>, history: nat, point: Point) -> bool {
    let index = glyph_index(rows, history, point);
    &&& 0 < index < rows.len() * rows[0].len() - 1
    &&& glyph_at(rows, index - 1).leading_spacer
    &&& glyph_at(rows, index + 1).wide_spacer
}

/// A text which ends in `point` takes in a character of the line above the topmost line: the last
/// cell of the topmost line is a placeholder for a wide character, and the text goes up to it.
pub open spec fn reads_above(rows: Seq<Seq<Glyph>>, history: nat, point: Point) -> bool {
    let glyph = rows[0].last();
    &&& point.line + history == 0
    &&& point.column + 1 == rows[0].len()
    &&& rows[0].len() > 1
    &&& glyph.leading_spacer
    &&& glyph.wrapline || glyph.c != ' ' || glyph.zerowidth.len() > 0
}

/// A text takes in a cell in front of line number `row`: it goes on from the first cell of this line,
/// which is the second half of a wide character.
pub open spec fn reads_before(
    rows: Seq<Seq<Glyph>>,
    history: nat,
    start: Point,
    row: int,
) -> bool {
    &&& rows[row][0].wide_spacer
    &&& start.line + history < row || start.column == 0
}

/// The text from `start` to `end` takes in a cell which there is not.
pub open spec fn reads_outside(
    rows: Seq<Seq<Glyph>>,
    history: nat,
    start: Point,
    end: Point,
) -> bool {
    &&& start.line <= end.line
    &&& reads_above(rows, history, end) || exists|row: int|
        start.line + history <= row <= end.line + history && #[trigger] reads_before(
            rows,
            history,
            start,
            row,
        )
}

/// What `Term::regex_search_right` finds between `start` and `end`, when the regular expression is
/// built from `pattern` for this one search.
pub uninterp spec fn search_right(
    rows: Seq<Seq<Glyph>>,
    history: nat,
    pattern: Seq<char>,
    start: Point,
    end: Point,
) -> Option<Match>;

/// The text of `Term::bounds_to_string` from `start` to `end`, with the tab stops `tabs`.
pub uninterp spec fn text_between(
    rows: Seq<Seq<Glyph>>,
    history: nat,
    tabs: Seq<bool>,
    start: Point,
    end: Point,
) -> Seq<char>;

/// The bits which are set in `mode`, by their number.
pub uninterp spec fn mode_bits(mode: TermMode) -> Set<int>;

/// `lines` lines of `columns` cells which show nothing.
pub open spec fn blank_rows(lines: nat, columns: nat) -> Seq<Seq<Glyph>> {
    Seq::new(lines, |l: int| Seq::new(columns, |c: int| crate::screen::blank_glyph()))
}

/// `Term::new`: all lines are blank, and there is no scrollback yet.
#[verifier::external_body]
pub(crate) fn new_term(columns: usize, screen_lines: usize, limit: usize) -> (term: Term<
    VoidListener,
>)
    requires
        columns > 0,
        0 < screen_lines <= i32::MAX,
    ensures
        term_history(term) == 0,
        term_limit(term) == limit,
        term_rows(term) == blank_rows(screen_lines as nat, columns as nat),
{
    let config = Config { scrolling_history: limit, ..Config::default() };
    Term::new(config, &TermSize::new(columns, screen_lines), VoidListener)
}

/// `Grid::initialize_all`: the scrollback is filled up to its limit with blank lines, which are older
/// than all others.
#[verifier::external_body]
pub(crate) fn fill_scrollback(term: &mut Term<VoidListener>)
    requires
        term_rows(*old(term)).len() > 0,
        term_history(*old(term)) <= term_limit(*old(term)),
        term_rows(*old(term)).len() - term_history(*old(term)) + term_limit(*old(term)) <= i32::MAX,
    ensures
        term_history(*final(term)) == term_limit(*old(term)),
        term_limit(*final(term)) == term_limit(*old(term)),
        term_rows(*final(term)) == blank_rows(
            (term_limit(*old(term)) - term_history(*old(term))) as nat,
            term_rows(*old(term))[0].len(),
        ) + term_rows(*old(term)),
{
    term.grid_mut().initialize_all();
}

/// `IndexMut` of the grid, which replaces one cell.
#[verifier::external_body]
pub(crate) fn write_glyph(
    term: &mut Term<VoidListener>,
    point: Point,
    c: char,
    wrapline: bool,
    wide: bool,
    wide_spacer: bool,
    leading_spacer: bool,
)
    requires
        rows_have(term_rows(*old(term)), term_history(*old(term)), point),
    ensures
        term_history(*final(term)) == term_history(*old(term)),
        term_rows(*final(term)) == ({
            let rows = term_rows(*old(term));
            let row = point.line + term_history(*old(term));
            let glyph = Glyph {
                c,
                zerowidth: Seq::empty(),
                wrapline,
                wide,
                wide_spacer,
                leading_spacer,
            };
            rows.update(row, rows[row].update(point.column as int, glyph))
        }),
{
    let mut cell = cell::Cell { c, ..cell::Cell::default() };
    cell.flags.set(cell::Flags::WRAPLINE, wrapline);
    cell.flags.set(cell::Flags::WIDE_CHAR, wide);
    cell.flags.set(cell::Flags::WIDE_CHAR_SPACER, wide_spacer);
    cell.flags.set(cell::Flags::LEADING_WIDE_CHAR_SPACER, leading_spacer);
    let place = index::Point::new(index::Line(point.line), index::Column(point.column));
    term.grid_mut()[place] = cell;
}

/// `Cell::push_zerowidth`, which adds one character to a cell.
#[verifier::external_body]
pub(crate) fn push_zerowidth(term: &mut Term<VoidListener>, point: Point, c: char)
    requires
        rows_have(term_rows(*old(term)), term_history(*old(term)), point),
    ensures
        term_history(*final(term)) == term_history(*old(term)),
        term_rows(*final(term)) == ({
            let rows = term_rows(*old(term));
            let row = point.line + term_history(*old(term));
            let glyph = rows[row][point.column as int];
            rows.update(
                row,
                rows[row].update(
                    point.column as int,
                    Glyph { zerowidth: glyph.zerowidth.push(c), ..glyph },
                ),
            )
        }),
{
    let place = index::Point::new(index::Line(point.line), index::Column(point.column));
    term.grid_mut()[place].push_zerowidth(c);
}

/// `Handler::clear_tabs` for all tab stops: no column has a tab stop any more.
#[verifier::external_body]
pub(crate) fn clear_tabs(term: &mut Term<VoidListener>)
    requires
        term_rows(*old(term)).len() > 0,
    ensures
        term_history(*final(term)) == term_history(*old(term)),
        term_rows(*final(term)) == term_rows(*old(term)),
        term_tabs(*final(term)) == Seq::new(term_rows(*old(term))[0].len(), |c: int| false),
{
    term.clear_tabs(TabulationClearMode::All);
}

/// `Handler::goto`, which moves the cursor to a column of the first line.
#[verifier::external_body]
pub(crate) fn move_cursor(term: &mut Term<VoidListener>, column: usize)
    requires
        term_rows(*old(term)).len() > 0,
        column < term_rows(*old(term))[0].len(),
    ensures
        term_history(*final(term)) == term_history(*old(term)),
        term_rows(*final(term)) == term_rows(*old(term)),
        term_tabs(*final(term)) == term_tabs(*old(term)),
        term_column(*final(term)) == column,
{
    term.goto(0, column);
}

/// `Handler::set_horizontal_tabstop`: the column of the cursor has a tab stop.
#[verifier::external_body]
pub(crate) fn set_tab(term: &mut Term<VoidListener>)
    requires
        term_column(*old(term)) < term_tabs(*old(term)).len(),
    ensures
        term_history(*final(term)) == term_history(*old(term)),
        term_rows(*final(term)) == term_rows(*old(term)),
        term_tabs(*final(term)) == term_tabs(*old(term)).update(
            term_column(*old(term)) as int,
            true,
        ),
{
    term.set_horizontal_tabstop();
}

/// `Term::regex_search_right` with the expression which `RegexSearch::new` builds from `pattern`:
/// the next match from `start` on, up to `end`. Behind the last cell the search goes on with the
/// first one. Both ends of a match are cells of the terminal. A pattern which is no regular
/// expression matches nothing.
///
/// The expression is built for this one search: what an expression which was used before finds depends
/// on how much of its cache is left, and the search panics when too little is.
///
/// A search which steps over its end goes round and round until something else stops it, which need
/// not happen. Once the end of a match is found, its start is searched for backwards up to `start`, so
/// that the same holds of a start which is stepped over on the way back.
#[verifier::external_body]
pub(crate) fn regex_search_right(
    term: &Term<VoidListener>,
    pattern: &str,
    start: Point,
    end: Point,
) -> (found: Option<Match>)
    requires
        rows_are_even(term_rows(*term), term_rows(*term)[0].len() as int),
        rows_have(term_rows(*term), term_history(*term), start),
        rows_have(term_rows(*term), term_history(*term), end),
        !is_stepped_back_over(term_rows(*term), term_history(*term), start),
        !is_stepped_over(term_rows(*term), term_history(*term), end),
    ensures
        found == search_right(term_rows(*term), term_history(*term), pattern@, start, end),
        found matches Some(bounds) ==> {
            &&& rows_have(term_rows(*term), term_history(*term), bounds.start)
            &&& rows_have(term_rows(*term), term_history(*term), bounds.end)
        },
{
    let mut regex = RegexSearch::new(pattern).ok()?;
    let start = index::Point::new(index::Line(start.line), index::Column(start.column));
    let end = index::Point::new(index::Line(end.line), index::Column(end.column));
    let found = term.regex_search_right(&mut regex, start, end)?;
    Some(
        Match {
            start: Point { line: found.start().line.0, column: found.start().column.0 },
            end: Point { line: found.end().line.0, column: found.end().column.0 },
        },
    )
}

/// `Term::bounds_to_string`: the text of the cells from `start` to `end`.
///
/// It takes in the first half of a wide character whose second half comes first in a line, and a
/// character of the line above when the range ends in a placeholder for a wide character. Both of
/// them have to be cells of the terminal.
#[verifier::external_body]
pub(crate) fn bounds_to_string(term: &Term<VoidListener>, start: Point, end: Point) -> (text: String)
    requires
        rows_are_even(term_rows(*term), term_rows(*term)[0].len() as int),
        term_tabs(*term).len() == term_rows(*term)[0].len(),
        rows_have(term_rows(*term), term_history(*term), start),
        rows_have(term_rows(*term), term_history(*term), end),
        !reads_outside(term_rows(*term), term_history(*term), start, end),
    ensures
        text@ == text_between(
            term_rows(*term),
            term_history(*term),
            term_tabs(*term),
            start,
            end,
        ),
{
    let start = index::Point::new(index::Line(start.line), index::Column(start.column));
    let end = index::Point::new(index::Line(end.line), index::Column(end.column));
    term.bounds_to_string(start, end)
}

/// `TermMode::intersects`: a bit is set in both.
#[verifier::external_body]
pub(crate) fn mode_intersects(mode: TermMode, other: TermMode) -> (common: bool)
    ensures
        common == !mode_bits(mode).disjoint(mode_bits(other)),
{
    mode.intersects(other)
}

/// The bits of the modes in which clicks, drags or motion of the mouse are reported.
pub open spec fn mouse_bits() -> Set<int> {
    set![3int, 6, 13]
}

/// `TermMode::MOUSE_MODE`: the modes in which clicks, drags or motion of the mouse are reported.
#[verifier::external_body]
pub(crate) fn mouse_mode() -> (mode: TermMode)
    ensures
        mode_bits(mode) == mouse_bits(),
{
    TermMode::MOUSE_MODE
}

} // verus!
