//! Text on the screen which matches a regular expression.
use vstd::prelude::*;

use crate::index::{Match, Point};
use crate::post_process::HintPostProcessor;
use crate::screen::Screen;
use crate::terminal::Terminal;

verus! {

/// Maximum number of linewraps followed outside of the viewport during search highlighting.
pub const MAX_SEARCH_LINES: usize = 100;

/// `matches` without those at the beginning which end above line `line`.
pub open spec fn without_above(matches: Seq<Match>, line: int) -> Seq<Match>
    decreases matches.len(),
{
    if matches.len() > 0 && matches[0].end.line < line {
        without_above(matches.drop_first(), line)
    } else {
        matches
    }
}

/// The first of `matches`, up to the first one which starts below line `line`.
pub open spec fn until_below(matches: Seq<Match>, line: int) -> Seq<Match>
    decreases matches.len(),
{
    if matches.len() > 0 && matches[0].start.line <= line {
        seq![matches[0]] + until_below(matches.drop_first(), line)
    } else {
        Seq::empty()
    }
}

impl Screen {
    /// The first of the lines which are wrapped up to line `line`.
    pub open spec fn wrapped_from(self, line: int) -> int
        decreases line + self.history,
    {
        if line > self.topmost_line() && self.wraps(line - 1) {
            self.wrapped_from(line - 1)
        } else {
            line
        }
    }

    /// The last of the lines which are wrapped from line `line` on.
    pub open spec fn wrapped_to(self, line: int) -> int
        decreases self.bottommost_line() - line,
    {
        if line < self.bottommost_line() && self.wraps(line) {
            self.wrapped_to(line + 1)
        } else {
            line
        }
    }

    /// First cell which is searched for visible matches.
    pub open spec fn search_start(self) -> Point {
        let line = self.wrapped_from(self.viewport_start());
        let limit = self.viewport_start() - MAX_SEARCH_LINES;
        Point {
            line: if line < limit {
                limit as i32
            } else {
                line as i32
            },
            column: 0,
        }
    }

    /// Last cell which is searched for visible matches.
    pub open spec fn search_end(self) -> Point {
        let line = self.wrapped_to(self.viewport_end());
        let limit = self.viewport_end() + MAX_SEARCH_LINES;
        Point {
            line: if line > limit {
                limit as i32
            } else {
                line as i32
            },
            column: self.last_column() as usize,
        }
    }

    /// All matches of `pattern` which can be seen.
    ///
    /// The viewport is searched, together with the lines which are wrapped into it or out of it. No
    /// more matches than cells are looked at.
    pub open spec fn visible_matches(self, pattern: Seq<char>) -> Seq<Match> {
        let found = self.search_all(
            pattern,
            self.search_start(),
            self.search_end(),
            self.size() as nat,
        );
        until_below(without_above(found, self.viewport_start()), self.viewport_end())
    }

    /// The match of `pattern` at `point`, with or without post-processing.
    pub open spec fn match_at(
        self,
        point: Point,
        pattern: Seq<char>,
        post_processing: bool,
    ) -> Option<Match> {
        match crate::index::first_covering(self.visible_matches(pattern), point) {
            Some(found) => if post_processing {
                crate::index::first_covering(self.processed(pattern, found), point)
            } else {
                Some(found)
            },
            None => None,
        }
    }
}

/// Find the first line of the lines which are wrapped up to `line`.
fn line_search_left(term: &Terminal, line: i32) -> (first: i32)
    requires
        term@.topmost_line() <= line <= term@.bottommost_line(),
    ensures
        first == term@.wrapped_from(line as int),
        term@.topmost_line() <= first <= line,
{
    let topmost_line: i32 = term.topmost_line();
    let mut first: i32 = line;
    while first > topmost_line && term.wraps(first - 1)
        invariant
            term@.wf(),
            topmost_line == term@.topmost_line(),
            topmost_line <= first <= line <= term@.bottommost_line(),
            term@.wrapped_from(first as int) == term@.wrapped_from(line as int),
        decreases first - topmost_line,
    {
        first = first - 1;
    }
    first
}

/// Find the last line of the lines which are wrapped from `line` on.
fn line_search_right(term: &Terminal, line: i32) -> (last: i32)
    requires
        term@.topmost_line() <= line <= term@.bottommost_line(),
    ensures
        last == term@.wrapped_to(line as int),
        line <= last <= term@.bottommost_line(),
{
    let bottommost_line: i32 = term.bottommost_line();
    let mut last: i32 = line;
    while last < bottommost_line && term.wraps(last)
        invariant
            term@.wf(),
            bottommost_line == term@.bottommost_line(),
            term@.topmost_line() <= line <= last <= bottommost_line,
            term@.wrapped_to(last as int) == term@.wrapped_to(line as int),
        decreases bottommost_line - last,
    {
        last = last + 1;
    }
    last
}

proof fn lemma_wrapped_from(screen: Screen, line: int)
    requires
        screen.topmost_line() <= line,
    ensures
        screen.topmost_line() <= screen.wrapped_from(line) <= line,
    decreases line - screen.topmost_line(),
{
    if line > screen.topmost_line() && screen.wraps(line - 1) {
        lemma_wrapped_from(screen, line - 1);
    }
}

proof fn lemma_wrapped_to(screen: Screen, line: int)
    requires
        line <= screen.bottommost_line(),
    ensures
        line <= screen.wrapped_to(line) <= screen.bottommost_line(),
    decreases screen.bottommost_line() - line,
{
    if line < screen.bottommost_line() && screen.wraps(line) {
        lemma_wrapped_to(screen, line + 1);
    }
}

/// The whole viewport is searched, and no more than [`MAX_SEARCH_LINES`] lines above or below it.
pub proof fn the_viewport_is_searched(screen: Screen)
    requires
        screen.wf(),
    ensures
        screen.has(screen.search_start()),
        screen.has(screen.search_end()),
        screen.search_start().column == 0,
        screen.search_end().column == screen.last_column(),
        screen.viewport_start() - MAX_SEARCH_LINES <= screen.search_start().line
            <= screen.viewport_start(),
        screen.viewport_end() <= screen.search_end().line <= screen.viewport_end()
            + MAX_SEARCH_LINES,
{
    lemma_wrapped_from(screen, screen.viewport_start());
    lemma_wrapped_to(screen, screen.viewport_end());
    let columns = screen.columns();
    assert(columns <= screen.rows.len() * columns) by (nonlinear_arith)
        requires
            screen.rows.len() > 0,
            columns > 0,
    ;
}

/// The matches which can be seen in a viewport, out of matches in reading order.
pub fn visible_part(found: &Vec<Match>, viewport_start: i32, viewport_end: i32) -> (visible: Vec<
    Match,
>)
    ensures
        visible@ == until_below(
            without_above(found@, viewport_start as int),
            viewport_end as int,
        ),
        forall|i: int| 0 <= i < visible@.len() ==> found@.contains(#[trigger] visible@[i]),
{
    let mut i: usize = 0;
    assert(found@.skip(0) =~= found@);
    while i < found.len() && found[i].end.line < viewport_start
        invariant
            i <= found@.len(),
            without_above(found@, viewport_start as int) == without_above(
                found@.skip(i as int),
                viewport_start as int,
            ),
        decreases found@.len() - i,
    {
        assert(found@.skip(i as int).drop_first() =~= found@.skip(i + 1));
        i = i + 1;
    }

    let ghost rest = found@.skip(i as int);
    let mut visible: Vec<Match> = Vec::new();
    while i < found.len() && found[i].start.line <= viewport_end
        invariant
            i <= found@.len(),
            until_below(rest, viewport_end as int) == visible@ + until_below(
                found@.skip(i as int),
                viewport_end as int,
            ),
            forall|j: int| 0 <= j < visible@.len() ==> found@.contains(#[trigger] visible@[j]),
        decreases found@.len() - i,
    {
        let ghost before = visible@;
        assert(found@.skip(i as int).drop_first() =~= found@.skip(i + 1));
        visible.push(found[i]);
        assert(found@.contains(found@[i as int]));
        i = i + 1;
        assert(visible@ + until_below(found@.skip(i as int), viewport_end as int) =~= before + (seq![
            found@[i - 1],
        ] + until_below(found@.skip(i as int), viewport_end as int)));
    }
    visible
}

/// `bounds` has cells between two lines.
pub open spec fn is_between(bounds: Match, first: int, last: int) -> bool {
    first <= bounds.end.line && bounds.start.line <= last
}

/// Matches come in reading order, line by line.
pub open spec fn are_in_order(matches: Seq<Match>) -> bool {
    forall|i: int, j: int|
        0 <= i < j < matches.len() ==> {
            &&& (#[trigger] matches[i]).start.line <= (#[trigger] matches[j]).start.line
            &&& matches[i].end.line <= matches[j].end.line
        }
}

proof fn lemma_first_filtered(matches: Seq<Match>, keep: spec_fn(Match) -> bool)
    requires
        matches.len() > 0,
    ensures
        matches.filter(keep) == if keep(matches[0]) {
            seq![matches[0]] + matches.drop_first().filter(keep)
        } else {
            matches.drop_first().filter(keep)
        },
{
    let first = seq![matches[0]];
    let rest = matches.drop_first();
    assert(matches =~= first + rest);
    Seq::filter_distributes_over_add(first, rest, keep);
    reveal(Seq::filter);
    assert(first.drop_last() =~= Seq::empty());
    assert(first.drop_last().filter(keep) =~= Seq::empty());
    assert(first.last() == matches[0]);
    assert(first.filter(keep) =~= if keep(matches[0]) {
        first
    } else {
        Seq::empty()
    });
    assert(Seq::empty() + rest.filter(keep) =~= rest.filter(keep));
}

proof fn lemma_until_below(matches: Seq<Match>, first: int, last: int)
    requires
        are_in_order(matches),
        matches.len() > 0 ==> first <= matches[0].end.line,
    ensures
        until_below(matches, last) == matches.filter(
            |bounds: Match| is_between(bounds, first, last),
        ),
    decreases matches.len(),
{
    let keep = |bounds: Match| is_between(bounds, first, last);
    if matches.len() > 0 {
        let rest = matches.drop_first();
        assert forall|i: int, j: int| 0 <= i < j < rest.len() implies {
            &&& (#[trigger] rest[i]).start.line <= (#[trigger] rest[j]).start.line
            &&& rest[i].end.line <= rest[j].end.line
        } by {
            assert(matches[i + 1].start.line <= matches[j + 1].start.line);
        }
        if rest.len() > 0 {
            assert(matches[0].start.line <= matches[1].start.line);
            assert(rest[0] == matches[1]);
        }
        lemma_first_filtered(matches, keep);
        lemma_until_below(rest, first, last);
    } else {
        reveal(Seq::filter);
    }
}

/// Of matches in reading order, exactly those are visible which have cells in the viewport.
pub proof fn visible_part_is_in_the_viewport(matches: Seq<Match>, first: int, last: int)
    requires
        are_in_order(matches),
    ensures
        until_below(without_above(matches, first), last) == matches.filter(
            |bounds: Match| is_between(bounds, first, last),
        ),
    decreases matches.len(),
{
    let keep = |bounds: Match| is_between(bounds, first, last);
    if matches.len() > 0 && matches[0].end.line < first {
        let rest = matches.drop_first();
        assert forall|i: int, j: int| 0 <= i < j < rest.len() implies {
            &&& (#[trigger] rest[i]).start.line <= (#[trigger] rest[j]).start.line
            &&& rest[i].end.line <= rest[j].end.line
        } by {
            assert(matches[i + 1].start.line <= matches[j + 1].start.line);
        }
        lemma_first_filtered(matches, keep);
        visible_part_is_in_the_viewport(rest, first, last);
    } else {
        lemma_until_below(matches, first, last);
    }
}

/// All visible regex matches.
pub fn visible_regex_match_iter(term: &Terminal, pattern: &str) -> (matches: Vec<Match>)
    ensures
        matches@ == term@.visible_matches(pattern@),
        forall|i: int| 0 <= i < matches@.len() ==> term@.has_match(#[trigger] matches@[i]),
{
    let viewport_start: i32 = term.viewport_start();
    let viewport_end: i32 = viewport_start + term.bottommost_line();
    let mut start = Point { line: line_search_left(term, viewport_start), column: 0 };
    let mut end = Point {
        line: line_search_right(term, viewport_end),
        column: term.last_column(),
    };
    if start.line < viewport_start - MAX_SEARCH_LINES as i32 {
        start.line = viewport_start - MAX_SEARCH_LINES as i32;
    }
    if end.line > viewport_end + MAX_SEARCH_LINES as i32 {
        end.line = viewport_end + MAX_SEARCH_LINES as i32;
    }
    let found = term.regex_matches(pattern, start, end);
    visible_part(&found, viewport_start, viewport_end)
}

/// The first of `matches` which covers a point.
pub fn find_covering(matches: &Vec<Match>, point: Point) -> (found: Option<Match>)
    ensures
        found == crate::index::first_covering(matches@, point),
        found matches Some(bounds) ==> matches@.contains(bounds),
{
    let mut i: usize = 0;
    assert(matches@.skip(0) =~= matches@);
    while i < matches.len()
        invariant
            i <= matches@.len(),
            crate::index::first_covering(matches@, point) == crate::index::first_covering(
                matches@.skip(i as int),
                point,
            ),
        decreases matches@.len() - i,
    {
        assert(matches@.skip(i as int).drop_first() =~= matches@.skip(i + 1));
        if matches[i].contains(&point) {
            assert(matches@.contains(matches@[i as int]));
            return Some(matches[i]);
        }
        i = i + 1;
    }
    None
}

/// Retrieve the match, if the specified point is inside the content matching the regex.
pub fn regex_match_at(term: &Terminal, point: Point, pattern: &str, post_processing: bool) -> (found:
    Option<Match>)
    ensures
        found == term@.match_at(point, pattern@, post_processing),
        found matches Some(bounds) ==> term@.has_match(bounds) && bounds.covers(point),
{
    let matches = visible_regex_match_iter(term, pattern);
    let regex_match = match find_covering(&matches, point) {
        Some(regex_match) => regex_match,
        None => {
            return None;
        },
    };
    proof {
        crate::index::lemma_first_covering(matches@, point);
    }

    // Apply post-processing and search for sub-matches if necessary.
    if post_processing {
        let mut submatches = HintPostProcessor::new(term, pattern, regex_match);
        let ghost all = submatches.rest();
        loop
            invariant
                submatches.wf(),
                submatches.screen() == term@,
                crate::index::first_covering(all, point) == crate::index::first_covering(
                    submatches.rest(),
                    point,
                ),
                term@.match_at(point, pattern@, post_processing) == crate::index::first_covering(
                    all,
                    point,
                ),
            decreases submatches.rest().len(),
        {
            match submatches.next() {
                Some(bounds) => {
                    if bounds.contains(&point) {
                        return Some(bounds);
                    }
                },
                None => {
                    return None;
                },
            }
        }
    } else {
        Some(regex_match)
    }
}

proof fn lemma_wraps_from(screen: Screen, line: int, l: int)
    requires
        screen.topmost_line() <= line,
        screen.wrapped_from(line) <= l < line,
    ensures
        screen.wraps(l),
    decreases line + screen.history,
{
    if l < line - 1 {
        lemma_wraps_from(screen, line - 1, l);
    }
}

proof fn lemma_wraps_to(screen: Screen, line: int, l: int)
    requires
        line <= l < screen.wrapped_to(line),
    ensures
        screen.wraps(l),
    decreases screen.bottommost_line() - line,
{
    if line < l {
        lemma_wraps_to(screen, line + 1, l);
    }
}

proof fn lemma_wrapped_ends(screen: Screen, line: int)
    requires
        screen.topmost_line() <= line,
    ensures
        screen.wrapped_from(line) > screen.topmost_line() ==> !screen.wraps(
            screen.wrapped_from(line) - 1,
        ),
    decreases line + screen.history,
{
    if line > screen.topmost_line() && screen.wraps(line - 1) {
        lemma_wrapped_ends(screen, line - 1);
    }
}

proof fn lemma_wrapped_begins(screen: Screen, line: int)
    requires
        line <= screen.bottommost_line(),
    ensures
        screen.wrapped_to(line) < screen.bottommost_line() ==> !screen.wraps(
            screen.wrapped_to(line),
        ),
    decreases screen.bottommost_line() - line,
{
    if line < screen.bottommost_line() && screen.wraps(line) {
        lemma_wrapped_begins(screen, line + 1);
    }
}

/// The search starts with the lines which are wrapped into the lines on display: every line from its
/// start down to the display goes on in the next one, and the line in front of its start does not,
/// unless a hundred lines are followed or there is no such line.
pub proof fn lines_wrapped_into_the_viewport_are_searched(screen: Screen, l: int)
    requires
        screen.wf(),
    ensures
        ({
            let first = screen.search_start().line;
            let last = screen.rows[0].len() - 1;
            &&& screen.search_start().column == 0
            &&& -screen.display_offset - 100 <= first <= -screen.display_offset
            &&& -screen.history <= first
            &&& first <= l < -screen.display_offset ==> screen.rows[l
                + screen.history][last].glyph.wrapline
            &&& first > -screen.history && first > -screen.display_offset - 100
                ==> !screen.rows[first - 1 + screen.history][last].glyph.wrapline
        }),
{
    let line = screen.viewport_start();
    the_viewport_is_searched(screen);
    lemma_wrapped_from(screen, line);
    lemma_wrapped_ends(screen, line);
    if screen.search_start().line <= l < line {
        lemma_wraps_from(screen, line, l);
    }
}

/// The search ends with the lines which the lines on display are wrapped into: every line from the
/// bottom of the display down to its end goes on in the next one, and its last line does not, unless
/// a hundred lines are followed or there is no line below.
pub proof fn lines_wrapped_out_of_the_viewport_are_searched(screen: Screen, l: int)
    requires
        screen.wf(),
    ensures
        ({
            let bottom = screen.rows.len() - screen.history - 1 - screen.display_offset;
            let end = screen.search_end().line;
            let last = screen.rows[0].len() - 1;
            &&& screen.search_end().column == last
            &&& bottom <= end <= bottom + 100
            &&& end < screen.rows.len() - screen.history
            &&& bottom <= l < end ==> screen.rows[l + screen.history][last].glyph.wrapline
            &&& end < screen.rows.len() - screen.history - 1 && end < bottom + 100
                ==> !screen.rows[end + screen.history][last].glyph.wrapline
        }),
{
    let line = screen.viewport_end();
    the_viewport_is_searched(screen);
    lemma_wrapped_to(screen, line);
    lemma_wrapped_begins(screen, line);
    if line <= l < screen.search_end().line {
        lemma_wraps_to(screen, line, l);
    }
}

proof fn lemma_part(matches: Seq<Match>, first: int, last: int, bounds: Match)
    requires
        until_below(without_above(matches, first), last).contains(bounds),
    ensures
        matches.contains(bounds),
        bounds.start.line <= last,
    decreases matches.len(),
{
    let rest = matches.drop_first();
    if matches.len() > 0 && matches[0].end.line < first {
        lemma_part(rest, first, last, bounds);
        let i = choose|i: int| 0 <= i < rest.len() && rest[i] == bounds;
        assert(matches[i + 1] == bounds);
    } else {
        lemma_until_below_part(matches, last, bounds);
    }
}

proof fn lemma_until_below_part(matches: Seq<Match>, last: int, bounds: Match)
    requires
        until_below(matches, last).contains(bounds),
    ensures
        matches.contains(bounds),
        bounds.start.line <= last,
    decreases matches.len(),
{
    if matches.len() > 0 && matches[0].start.line <= last {
        let rest = matches.drop_first();
        let all = until_below(matches, last);
        let k = choose|k: int| 0 <= k < all.len() && all[k] == bounds;
        if k == 0 {
            assert(matches[0] == bounds);
        } else {
            assert(until_below(rest, last)[k - 1] == bounds);
            lemma_until_below_part(rest, last, bounds);
            let i = choose|i: int| 0 <= i < rest.len() && rest[i] == bounds;
            assert(matches[i + 1] == bounds);
        }
    }
}

/// What can be seen was found by the search through the viewport and the lines around it, and does
/// not start below the lines on display. If matches are found in reading order, all those can be
/// seen, in this order, which neither start below the lines on display nor end above them.
pub proof fn matches_on_display_are_visible(
    screen: Screen,
    pattern: Seq<char>,
    found: Seq<Match>,
    bounds: Match,
)
    requires
        found == screen.search_all(
            pattern,
            screen.search_start(),
            screen.search_end(),
            screen.size() as nat,
        ),
    ensures
        ({
            let visible = screen.visible_matches(pattern);
            let top = -screen.display_offset;
            let bottom = screen.rows.len() - screen.history - 1 - screen.display_offset;
            &&& visible.contains(bounds) ==> found.contains(bounds) && bounds.start.line <= bottom
            &&& (forall|i: int, j: int|
                0 <= i < j < found.len() ==> {
                    &&& (#[trigger] found[i]).start.line <= (#[trigger] found[j]).start.line
                    &&& found[i].end.line <= found[j].end.line
                }) ==> {
                &&& visible == found.filter(
                    |bounds: Match| top <= bounds.end.line && bounds.start.line <= bottom,
                )
                &&& visible.contains(bounds) <==> {
                    &&& found.contains(bounds)
                    &&& top <= bounds.end.line
                    &&& bounds.start.line <= bottom
                }
            }
        }),
{
    let visible = screen.visible_matches(pattern);
    let top = -screen.display_offset;
    let bottom = screen.rows.len() - screen.history - 1 - screen.display_offset;
    if visible.contains(bounds) {
        lemma_part(found, top, bottom, bounds);
    }
    if are_in_order(found) {
        visible_part_is_in_the_viewport(found, top, bottom);
        let keep = |bounds: Match| is_between(bounds, top, bottom);
        let shown = |bounds: Match| top <= bounds.end.line && bounds.start.line <= bottom;
        assert(keep =~= shown);
        if visible.contains(bounds) {
            let k = choose|k: int| 0 <= k < visible.len() && visible[k] == bounds;
            found.lemma_filter_pred(keep, k);
        }
        if found.contains(bounds) && keep(bounds) {
            let i = choose|i: int| 0 <= i < found.len() && found[i] == bounds;
            found.lemma_filter_contains(keep, i);
        }
    }
}

/// The match at a cell is the first visible one which covers it, or with post-processing the first
/// part of it which does. There is none if no visible match covers the cell, or no part of the first
/// one which does.
pub proof fn the_first_match_is_the_one_at_a_cell(
    screen: Screen,
    point: Point,
    pattern: Seq<char>,
    i: int,
    k: int,
)
    requires
        0 <= i <= screen.visible_matches(pattern).len(),
        i < screen.visible_matches(pattern).len() ==> screen.visible_matches(pattern)[i].covers(
            point,
        ),
        forall|j: int|
            0 <= j < i ==> !(#[trigger] screen.visible_matches(pattern)[j]).covers(point),
        i < screen.visible_matches(pattern).len() ==> {
            let parts = screen.processed(pattern, screen.visible_matches(pattern)[i]);
            &&& 0 <= k <= parts.len()
            &&& k < parts.len() ==> parts[k].covers(point)
            &&& forall|j: int| 0 <= j < k ==> !(#[trigger] parts[j]).covers(point)
        },
    ensures
        ({
            let visible = screen.visible_matches(pattern);
            let parts = screen.processed(pattern, visible[i]);
            &&& i < visible.len() ==> {
                &&& screen.match_at(point, pattern, false) == Some(visible[i])
                &&& screen.match_at(point, pattern, true) == if k < parts.len() {
                    Some(parts[k])
                } else {
                    None
                }
            }
            &&& i == visible.len() ==> {
                &&& screen.match_at(point, pattern, false) is None
                &&& screen.match_at(point, pattern, true) is None
            }
        }),
{
    let visible = screen.visible_matches(pattern);
    let parts = screen.processed(pattern, visible[i]);
    crate::index::lemma_first_covering(visible, point);
    if i < visible.len() {
        crate::index::no_earlier_match_covers(visible, point, i);
        crate::index::lemma_first_covering(parts, point);
        if k < parts.len() {
            crate::index::no_earlier_match_covers(parts, point, k);
        } else if let Some(part) = crate::index::first_covering(parts, point) {
            let j = choose|j: int| 0 <= j < parts.len() && parts[j] == part;
            assert(!parts[j].covers(point));
        }
    } else if let Some(found) = crate::index::first_covering(visible, point) {
        let j = choose|j: int| 0 <= j < visible.len() && visible[j] == found;
        assert(!visible[j].covers(point));
    }
}

/// Whatever the order of matches is, those are visible which come in front of the first one that starts
/// below the last line, and not in front of the first one that does not end above the first line:
/// matches number `n` up to number `m`, which is not one of them.
pub proof fn visible_part_is_a_section(matches: Seq<Match>, first: int, last: int, n: int, m: int)
    requires
        0 <= n <= m <= matches.len(),
        forall|i: int| 0 <= i < n ==> (#[trigger] matches[i]).end.line < first,
        n < matches.len() ==> matches[n].end.line >= first,
        forall|i: int| n <= i < m ==> (#[trigger] matches[i]).start.line <= last,
        m < matches.len() ==> matches[m].start.line > last,
    ensures
        until_below(without_above(matches, first), last) == matches.subrange(n, m),
    decreases matches.len(),
{
    if n > 0 {
        let rest = matches.drop_first();
        assert forall|i: int| 0 <= i < n - 1 implies (#[trigger] rest[i]).end.line < first by {
            assert(rest[i] == matches[i + 1]);
        }
        assert forall|i: int| n - 1 <= i < m - 1 implies (#[trigger] rest[i]).start.line <= last by {
            assert(rest[i] == matches[i + 1]);
        }
        assert(matches[0].end.line < first);
        visible_part_is_a_section(rest, first, last, n - 1, m - 1);
        assert(rest.subrange(n - 1, m - 1) =~= matches.subrange(n, m));
    } else {
        lemma_section(matches, last, m);
    }
}

proof fn lemma_section(matches: Seq<Match>, last: int, m: int)
    requires
        0 <= m <= matches.len(),
        forall|i: int| 0 <= i < m ==> (#[trigger] matches[i]).start.line <= last,
        m < matches.len() ==> matches[m].start.line > last,
    ensures
        until_below(matches, last) == matches.take(m),
    decreases m,
{
    if m > 0 {
        let rest = matches.drop_first();
        assert forall|i: int| 0 <= i < m - 1 implies (#[trigger] rest[i]).start.line <= last by {
            assert(rest[i] == matches[i + 1]);
        }
        lemma_section(rest, last, m - 1);
        assert(matches[0].start.line <= last);
        assert(until_below(matches, last) =~= matches.take(m));
    } else {
        assert(until_below(matches, last) =~= matches.take(0));
    }
}

} // verus!
