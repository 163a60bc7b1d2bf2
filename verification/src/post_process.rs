//! Heuristics which leave out what is unlikely to be part of a match.
use vstd::prelude::*;

use crate::index::{Match, Point};
use crate::screen::Screen;
use crate::terminal::Terminal;

verus! {

/// Number of times `c` occurs in `text`.
pub open spec fn count(text: Seq<char>, c: char) -> nat
    decreases text.len(),
{
    if text.len() == 0 {
        0
    } else {
        count(text.drop_last(), c) + if text.last() == c {
            1nat
        } else {
            0nat
        }
    }
}

/// Character `i` of `text` is a closing bracket without an opening one.
///
/// Parentheses and square brackets are told apart, but may overlap.
pub open spec fn closes_nothing(text: Seq<char>, i: int) -> bool {
    ||| text[i] == ')' && count(text.take(i), '(') <= count(text.take(i), ')')
    ||| text[i] == ']' && count(text.take(i), '[') <= count(text.take(i), ']')
}

/// The first closing bracket without an opening one, among the characters from `from` to `last`.
pub open spec fn first_unmatched(text: Seq<char>, last: int, from: int) -> Option<int>
    decreases last + 1 - from,
{
    if from > last {
        None
    } else if closes_nothing(text, from) {
        Some(from)
    } else {
        first_unmatched(text, last, from + 1)
    }
}

/// The character is more likely to delimit a match than to end it.
pub open spec fn is_delimiter(c: char) -> bool {
    c == '.' || c == ',' || c == ':' || c == ';' || c == '?' || c == '!' || c == '(' || c == '['
        || c == '\''
}

/// The last character of `text` up to `last` which is no delimiter, or the first character.
pub open spec fn trimmed(text: Seq<char>, last: int) -> int
    decreases last,
{
    if last > 0 && is_delimiter(text[last]) {
        trimmed(text, last - 1)
    } else {
        last
    }
}

impl Screen {
    /// The characters of all cells from `start` on.
    pub open spec fn characters_from(self, start: Point) -> Seq<char> {
        Seq::new(
            (self.size() - self.index(start)) as nat,
            |i: int| self.cells()[self.index(start) + i].glyph.c,
        )
    }

    /// Number of cells between the ends of `bounds`. A range which ends before it starts goes on to
    /// the last cell.
    pub open spec fn span(self, bounds: Match) -> int {
        if bounds.start.at_most(bounds.end) {
            self.index(bounds.end) - self.index(bounds.start)
        } else {
            self.size() - 1 - self.index(bounds.start)
        }
    }

    /// What is left of `bounds` when everything from the first closing bracket without an opening
    /// one is left out, or else the delimiters at the end.
    ///
    /// Nothing is left when the bracket comes first. The first cell of the terminal has no cell in
    /// front of it at which the range could end, and is kept in this case.
    pub open spec fn post_processed(self, bounds: Match) -> Option<Match> {
        let text = self.characters_from(bounds.start);
        let first = self.index(bounds.start);
        let last = self.span(bounds);
        match first_unmatched(text, last, 0) {
            Some(bracket) => if bracket > 0 {
                Some(Match { start: bounds.start, end: self.point(first + bracket - 1) })
            } else if first == 0 {
                Some(Match { start: bounds.start, end: bounds.start })
            } else {
                None
            },
            None => Some(
                Match { start: bounds.start, end: self.point(first + trimmed(text, last)) },
            ),
        }
    }
}

proof fn lemma_count(text: Seq<char>, i: int, c: char)
    requires
        0 <= i < text.len(),
    ensures
        count(text.take(i + 1), c) == count(text.take(i), c) + if text[i] == c {
            1nat
        } else {
            0nat
        },
{
    assert(text.take(i + 1).drop_last() =~= text.take(i));
}

proof fn lemma_trimmed(text: Seq<char>, last: int)
    requires
        0 <= last,
    ensures
        0 <= trimmed(text, last) <= last,
    decreases last,
{
    if last > 0 && is_delimiter(text[last]) {
        lemma_trimmed(text, last - 1);
    }
}

proof fn lemma_first_unmatched(text: Seq<char>, last: int, from: int)
    ensures
        first_unmatched(text, last, from) matches Some(bracket) ==> from <= bracket <= last,
    decreases last + 1 - from,
{
    if from <= last && !closes_nothing(text, from) {
        lemma_first_unmatched(text, last, from + 1);
    }
}

/// What is left of a range lies in the range.
pub proof fn post_processing_keeps_the_start(screen: Screen, bounds: Match)
    requires
        screen.wf(),
        screen.has_match(bounds),
    ensures
        screen.post_processed(bounds) matches Some(left) ==> {
            &&& screen.has_match(left)
            &&& left.start == bounds.start
            &&& left.start.at_most(left.end)
            &&& bounds.start.at_most(bounds.end) ==> left.end.at_most(bounds.end)
        },
{
    let text = screen.characters_from(bounds.start);
    let first = screen.index(bounds.start);
    let last = screen.span(bounds);
    screen.lemma_index(bounds.start);
    screen.lemma_index(bounds.end);
    screen.lemma_order(bounds.start, bounds.end);
    lemma_first_unmatched(text, last, 0);
    lemma_trimmed(text, last);
    if let Some(left) = screen.post_processed(bounds) {
        match first_unmatched(text, last, 0) {
            Some(bracket) => {
                if bracket > 0 {
                    screen.lemma_point(first + bracket - 1);
                }
            },
            None => {
                screen.lemma_point(first + trimmed(text, last));
            },
        }
        screen.lemma_order(left.start, left.end);
        screen.lemma_order(left.end, bounds.end);
    }
}

proof fn lemma_no_unmatched(text: Seq<char>, last: int, from: int, i: int)
    requires
        from <= i <= last,
        first_unmatched(text, last, from) matches Some(bracket) ==> i < bracket,
    ensures
        !closes_nothing(text, i),
    decreases i - from,
{
    if from < i {
        lemma_no_unmatched(text, last, from + 1, i);
    }
}

proof fn lemma_trimmed_end(text: Seq<char>, last: int)
    requires
        0 <= last,
    ensures
        trimmed(text, last) == 0 || !is_delimiter(text[trimmed(text, last)]),
    decreases last,
{
    if last > 0 && is_delimiter(text[last]) {
        lemma_trimmed_end(text, last - 1);
    }
}

/// What is left of a range has no closing bracket without an opening one, unless it is the very
/// first cell of the terminal. If nothing was cut off at a bracket, it does not end with a delimiter
/// either, unless it is a single cell.
pub proof fn post_processing_cuts_the_end(screen: Screen, bounds: Match)
    requires
        screen.wf(),
        screen.has_match(bounds),
    ensures
        screen.post_processed(bounds) matches Some(left) ==> {
            let text = screen.characters_from(bounds.start);
            let last = screen.span(left);
            &&& screen.index(left.start) > 0 || !closes_nothing(text, 0) ==> forall|i: int|
                0 <= i <= last ==> !#[trigger] closes_nothing(text, i)
            &&& (forall|i: int|
                0 <= i <= screen.span(bounds) ==> !#[trigger] closes_nothing(text, i)) ==> last == 0
                || !is_delimiter(text[last])
        },
{
    let text = screen.characters_from(bounds.start);
    let first = screen.index(bounds.start);
    let whole = screen.span(bounds);
    post_processing_keeps_the_start(screen, bounds);
    screen.lemma_index(bounds.start);
    screen.lemma_index(bounds.end);
    screen.lemma_order(bounds.start, bounds.end);
    lemma_first_unmatched(text, whole, 0);
    lemma_trimmed(text, whole);
    lemma_trimmed_end(text, whole);
    if let Some(left) = screen.post_processed(bounds) {
        let last = screen.span(left);
        match first_unmatched(text, whole, 0) {
            Some(bracket) => {
                lemma_is_unmatched(text, whole, 0);
                if bracket > 0 {
                    screen.lemma_point(first + bracket - 1);
                }
            },
            None => {
                screen.lemma_point(first + trimmed(text, whole));
            },
        }
        assert forall|i: int|
            (first > 0 || !closes_nothing(text, 0)) && 0 <= i <= last implies !#[trigger] closes_nothing(
            text,
            i,
        ) by {
            lemma_no_unmatched(text, whole, 0, i);
        }
    }
}

proof fn lemma_is_unmatched(text: Seq<char>, last: int, from: int)
    ensures
        first_unmatched(text, last, from) matches Some(bracket) ==> closes_nothing(text, bracket),
    decreases last + 1 - from,
{
    if from <= last && !closes_nothing(text, from) {
        lemma_is_unmatched(text, last, from + 1);
    }
}

/// Apply some hint post processing heuristics.
///
/// This will check the end of the hint and make it shorter if certain characters are determined
/// to be unlikely to be intentionally part of the hint.
///
/// This is most useful for identifying URLs appropriately.
pub fn hint_post_processing(term: &Terminal, regex_match: &Match) -> (left: Option<Match>)
    requires
        term@.has_match(*regex_match),
    ensures
        left == term@.post_processed(*regex_match),
        left matches Some(left) ==> term@.has_match(left),
{
    let start = regex_match.start;
    let end = regex_match.end;
    let ghost screen = term@;
    let ghost first = screen.index(start);
    let ghost text = screen.characters_from(start);
    let ghost last = screen.span(*regex_match);

    let mut point = start;
    let mut c: char = term.character(point);
    proof {
        screen.lemma_index(start);
        screen.lemma_index(end);
        screen.lemma_order(start, end);
        post_processing_keeps_the_start(screen, *regex_match);
    }

    // Truncate uneven number of brackets.
    let mut open_parents: usize = 0;
    let mut open_brackets: usize = 0;
    let ghost mut i: int = 0;
    loop
        invariant_except_break
            open_parents == count(text.take(i), '(') - count(text.take(i), ')'),
            open_brackets == count(text.take(i), '[') - count(text.take(i), ']'),
            open_parents <= i,
            open_brackets <= i,
        invariant
            screen == term@,
            screen.wf(),
            screen.has(start),
            screen.has(end),
            screen.has_match(*regex_match),
            start == regex_match.start,
            end == regex_match.end,
            first == screen.index(start),
            text == screen.characters_from(start),
            last == screen.span(*regex_match),
            0 <= first,
            0 <= i <= last,
            first + last < screen.size(),
            screen.has(point),
            screen.index(point) == first + i,
            c == text[i],
            first_unmatched(text, last, 0) == first_unmatched(text, last, i),
            screen.post_processed(*regex_match) matches Some(left) ==> screen.has_match(left),
        ensures
            screen.wf(),
            screen.has(point),
            i == last,
            screen.index(point) == first + i,
            c == text[i],
            first_unmatched(text, last, 0) is None,
        decreases last - i,
    {
        proof {
            lemma_count(text, i, '(');
            lemma_count(text, i, ')');
            lemma_count(text, i, '[');
            lemma_count(text, i, ']');
            screen.lemma_order(start, end);
            screen.lemma_order(point, start);
            screen.lemma_order(point, end);
            screen.lemma_index(point);
            assert(i + 1 <= screen.size());
        }
        if (c == ')' && open_parents == 0) || (c == ']' && open_brackets == 0) {
            assert(closes_nothing(text, i));
            return match term.previous_point(point) {
                Some(previous) => if previous.is_before(&start) {
                    proof {
                        screen.lemma_order(previous, start);
                    }
                    None
                } else {
                    proof {
                        screen.lemma_order(previous, start);
                    }
                    Some(Match { start, end: previous })
                },
                None => Some(Match { start, end: point }),
            };
        }
        if c == '(' {
            open_parents = open_parents + 1;
        } else if c == '[' {
            open_brackets = open_brackets + 1;
        } else if c == ')' {
            open_parents = open_parents - 1;
        } else if c == ']' {
            open_brackets = open_brackets - 1;
        }
        assert(!closes_nothing(text, i));
        assert(i == last ==> first_unmatched(text, last, i + 1) is None);

        if point == end {
            break ;
        }
        match term.next_point(point) {
            Some(next) => {
                proof {
                    screen.lemma_index(next);
                    i = i + 1;
                }
                point = next;
                c = term.character(point);
            },
            None => {
                break ;
            },
        }
    }

    // Truncate trailing characters which are likely to be delimiters.
    while point != start
        invariant
            screen == term@,
            screen.wf(),
            screen.has(start),
            first == screen.index(start),
            text == screen.characters_from(start),
            0 <= first,
            0 <= i <= last,
            first + last < screen.size(),
            screen.has(point),
            screen.index(point) == first + i,
            c == text[i],
            trimmed(text, last) == trimmed(text, i),
        ensures
            trimmed(text, last) == i,
        decreases i,
    {
        proof {
            screen.lemma_order(point, start);
        }
        if !(c == '.' || c == ',' || c == ':' || c == ';' || c == '?' || c == '!' || c == '('
            || c == '[' || c == '\'') {
            break ;
        }
        match term.previous_point(point) {
            Some(previous) => {
                proof {
                    screen.lemma_index(previous);
                    i = i - 1;
                }
                point = previous;
                c = term.character(point);
            },
            None => {
                break ;
            },
        }
    }
    proof {
        screen.lemma_index(point);
    }
    Some(Match { start, end: point })
}

/// How far the matches inside a match have been looked at.
pub struct Progress {
    /// Next match which was found.
    pub found: Option<Match>,
    /// Number of cells before the cell from which to search on, if there is anything left.
    pub start: Option<int>,
}

impl Screen {
    /// The cell behind `point`, if the search gets beyond cell number `from` with it.
    pub open spec fn advanced(self, point: Point, from: int) -> Option<int> {
        let next = self.index(point) + 1;
        if from < next < self.size() {
            Some(next)
        } else {
            None
        }
    }

    /// The first match which is not empty after post-processing: `bounds` itself, or one of the
    /// matches of `pattern` behind its first cell, up to `end`.
    ///
    /// A search which does not get beyond cell number `from` finds nothing new, and ends.
    pub open spec fn settled(
        self,
        pattern: Seq<char>,
        end: Point,
        bounds: Match,
        from: int,
    ) -> Progress
        decreases self.size() - from,
    {
        match self.post_processed(bounds) {
            Some(left) => Progress { found: Some(left), start: self.advanced(left.end, from) },
            None => match self.advanced(bounds.start, from) {
                Some(next) => if next <= self.index(end) {
                    match self.search_right(pattern, self.point(next), end) {
                        Some(found) => self.settled(pattern, end, found, next),
                        None => Progress { found: None, start: Some(next) },
                    }
                } else {
                    Progress { found: None, start: Some(next) }
                },
                None => Progress { found: None, start: None },
            },
        }
    }

    /// Upper bound for the number of searches which are left.
    pub open spec fn searches_left(self, start: Option<int>) -> nat {
        match start {
            Some(start) => if start < self.size() {
                (self.size() - start + 1) as nat
            } else {
                1
            },
            None => 0,
        }
    }

    /// All matches which are left at some point, up to `end`.
    pub open spec fn submatches(
        self,
        pattern: Seq<char>,
        end: Point,
        progress: Progress,
    ) -> Seq<Match>
        decreases self.searches_left(progress.start),
    {
        match progress.found {
            Some(left) => seq![left] + match progress.start {
                Some(start) => if start <= self.index(end) {
                    match self.search_right(pattern, self.point(start), end) {
                        Some(found) => {
                            let next = self.settled(pattern, end, found, start);
                            proof {
                                searches_advance(self, pattern, end, found, start);
                            }
                            self.submatches(pattern, end, next)
                        },
                        None => Seq::empty(),
                    }
                } else {
                    Seq::empty()
                },
                None => Seq::empty(),
            },
            None => Seq::empty(),
        }
    }

    /// All matches of `pattern` inside `bounds` which are not empty after post-processing.
    pub open spec fn processed(self, pattern: Seq<char>, bounds: Match) -> Seq<Match> {
        self.submatches(
            pattern,
            bounds.end,
            self.settled(pattern, bounds.end, bounds, self.index(bounds.start)),
        )
    }
}

/// Every search starts behind the one before it, so that no match has endlessly many matches
/// inside.
pub proof fn searches_advance(
    screen: Screen,
    pattern: Seq<char>,
    end: Point,
    bounds: Match,
    from: int,
)
    ensures
        screen.settled(pattern, end, bounds, from).start matches Some(start) ==> from < start
            < screen.size(),
    decreases screen.size() - from,
{
    if screen.post_processed(bounds) is None {
        if let Some(next) = screen.advanced(bounds.start, from) {
            if next <= screen.index(end) {
                if let Some(found) = screen.search_right(pattern, screen.point(next), end) {
                    searches_advance(screen, pattern, end, found, next);
                }
            }
        }
    }
}

/// Iterator over all post-processed matches inside an existing hint match.
pub struct HintPostProcessor<'a> {
    /// Terminal reference.
    term: &'a Terminal,
    /// Regular expression to search for.
    pattern: &'a str,
    /// Next hint match in the iterator.
    next_match: Option<Match>,
    /// Start point for the next search, if there is anything left to search.
    start: Option<Point>,
    /// End point for the hint match iterator.
    end: Point,
}

impl<'a> HintPostProcessor<'a> {
    /// Contents of the terminal which is searched.
    pub closed spec fn screen(&self) -> Screen {
        self.term@
    }

    /// Regular expression to search for.
    pub closed spec fn pattern(&self) -> Seq<char> {
        self.pattern@
    }

    /// How far the matches have been looked at.
    pub closed spec fn progress(&self) -> Progress {
        Progress {
            found: self.next_match,
            start: match self.start {
                Some(start) => Some(self.term@.index(start)),
                None => None,
            },
        }
    }

    /// Last cell which is searched.
    pub closed spec fn end(&self) -> Point {
        self.end
    }

    /// All matches which are left.
    pub open spec fn rest(&self) -> Seq<Match> {
        self.screen().submatches(self.pattern(), self.end(), self.progress())
    }

    /// All points are cells of the terminal.
    pub closed spec fn wf(&self) -> bool {
        &&& self.term@.wf()
        &&& self.term@.has(self.end)
        &&& self.start matches Some(start) ==> self.term@.has(start)
        &&& self.next_match matches Some(bounds) ==> self.term@.has_match(bounds)
    }

    /// Create a new iterator for an unprocessed match.
    pub fn new(term: &'a Terminal, pattern: &'a str, regex_match: Match) -> (post_processor: Self)
        requires
            term@.has_match(regex_match),
        ensures
            post_processor.wf(),
            post_processor.screen() == term@,
            post_processor.pattern() == pattern@,
            post_processor.end() == regex_match.end,
            post_processor.progress() == term@.settled(
                pattern@,
                regex_match.end,
                regex_match,
                term@.index(regex_match.start),
            ),
            post_processor.rest() == term@.processed(pattern@, regex_match),
    {
        proof {
            use_type_invariant(term);
            term.lemma_inv();
        }
        let mut post_processor = HintPostProcessor {
            term,
            pattern,
            next_match: None,
            start: None,
            end: regex_match.end,
        };

        // Post-process the first hint match.
        post_processor.next_processed_match(regex_match, regex_match.start);

        post_processor
    }

    /// The cell behind `point`, if the search gets beyond `from` with it.
    fn advance(&self, point: Point, from: Point) -> (next: Option<Point>)
        requires
            self.wf(),
            self.term@.has(point),
            self.term@.has(from),
        ensures
            next is Some <==> self.term@.advanced(point, self.term@.index(from)) is Some,
            next matches Some(next) ==> {
                &&& self.term@.has(next)
                &&& self.term@.advanced(point, self.term@.index(from)) == Some(
                    self.term@.index(next),
                )
            },
    {
        proof {
            self.term@.lemma_index(point);
        }
        match self.term.next_point(point) {
            Some(next) => {
                proof {
                    self.term@.lemma_order(from, next);
                }
                if from.is_before(&next) {
                    Some(next)
                } else {
                    None
                }
            },
            None => None,
        }
    }

    /// Search from `start` on, unless it is behind the end.
    fn search(&self, start: Point) -> (found: Option<Match>)
        requires
            self.wf(),
            self.term@.has(start),
        ensures
            found == (if self.term@.index(start) <= self.term@.index(self.end) {
                self.term@.search_right(self.pattern@, start, self.end)
            } else {
                None
            }),
            found matches Some(bounds) ==> self.term@.has_match(bounds),
    {
        proof {
            self.term@.lemma_order(self.end, start);
        }
        if self.end.is_before(&start) {
            None
        } else {
            self.term.regex_search_right(self.pattern, start, self.end)
        }
    }

    /// Loop over submatches until a non-empty post-processed match is found.
    fn next_processed_match(&mut self, regex_match: Match, from: Point)
        requires
            old(self).wf(),
            old(self).term@.has_match(regex_match),
            old(self).term@.has(from),
        ensures
            final(self).wf(),
            final(self).term == old(self).term,
            final(self).pattern == old(self).pattern,
            final(self).end == old(self).end,
            final(self).progress() == old(self).term@.settled(
                old(self).pattern@,
                old(self).end,
                regex_match,
                old(self).term@.index(from),
            ),
    {
        let ghost screen = self.term@;
        let ghost expected = screen.settled(
            self.pattern@,
            self.end,
            regex_match,
            screen.index(from),
        );
        let mut bounds = regex_match;
        let mut origin = from;
        loop
            invariant
                screen == self.term@,
                self.wf(),
                self.term == old(self).term,
                self.pattern == old(self).pattern,
                self.end == old(self).end,
                screen.has_match(bounds),
                screen.has(origin),
                expected == screen.settled(self.pattern@, self.end, bounds, screen.index(origin)),
                expected == old(self).term@.settled(
                    old(self).pattern@,
                    old(self).end,
                    regex_match,
                    old(self).term@.index(from),
                ),
            decreases screen.size() - screen.index(origin),
        {
            proof {
                screen.lemma_index(origin);
            }
            if let Some(next_match) = hint_post_processing(self.term, &bounds) {
                self.start = self.advance(next_match.end, origin);
                self.next_match = Some(next_match);
                return ;
            }
            self.next_match = None;
            self.start = self.advance(bounds.start, origin);
            match self.start {
                Some(start) => {
                    proof {
                        screen.lemma_index(start);
                    }
                    match self.search(start) {
                        Some(found) => {
                            bounds = found;
                            origin = start;
                        },
                        None => {
                            return ;
                        },
                    }
                },
                None => {
                    return ;
                },
            }
        }
    }

    /// The next match, if there is one left.
    pub fn next(&mut self) -> (next: Option<Match>)
        requires
            old(self).wf(),
        ensures
            final(self).wf(),
            final(self).screen() == old(self).screen(),
            final(self).pattern() == old(self).pattern(),
            final(self).end() == old(self).end(),
            next == old(self).progress().found,
            next is None <==> old(self).rest().len() == 0,
            next matches Some(bounds) ==> {
                &&& bounds == old(self).rest()[0]
                &&& final(self).rest() == old(self).rest().drop_first()
                &&& old(self).screen().has_match(bounds)
            },
            next is None ==> final(self).rest() == old(self).rest(),
    {
        let ghost screen = self.term@;
        let next_match = match self.next_match {
            Some(next_match) => next_match,
            None => {
                return None;
            },
        };
        let ghost before = self.rest();
        self.next_match = None;

        if let Some(start) = self.start {
            proof {
                screen.lemma_index(start);
            }
            if let Some(found) = self.search(start) {
                self.next_processed_match(found, start);
            }
        }
        assert(self.rest() =~= before.drop_first());
        Some(next_match)
    }

    /// All matches which are left.
    pub fn collect(self) -> (matches: Vec<Match>)
        requires
            self.wf(),
        ensures
            matches@ == self.rest(),
            forall|i: int|
                0 <= i < matches@.len() ==> self.screen().has_match(#[trigger] matches@[i]),
    {
        let mut left = self;
        let mut matches: Vec<Match> = Vec::new();
        loop
            invariant
                left.wf(),
                left.screen() == self.screen(),
                matches@ + left.rest() == self.rest(),
                forall|i: int|
                    0 <= i < matches@.len() ==> self.screen().has_match(#[trigger] matches@[i]),
            decreases left.rest().len(),
        {
            let ghost before = left.rest();
            match left.next() {
                Some(bounds) => {
                    matches.push(bounds);
                    assert(before =~= seq![bounds] + left.rest());
                    assert(matches@ + left.rest() =~= self.rest());
                },
                None => {
                    assert(matches@ =~= self.rest());
                    return matches;
                },
            }
        }
    }
}

proof fn lemma_count_is_multiplicity(text: Seq<char>, c: char)
    ensures
        count(text, c) == text.to_multiset().count(c),
    decreases text.len(),
{
    text.to_multiset_ensures();
    if text.len() > 0 {
        let front = text.drop_last();
        lemma_count_is_multiplicity(front, c);
        front.to_multiset_ensures();
        assert(front.push(text.last()) =~= text);
    }
}

/// No prefix of `text` up to `len` characters has more closing than opening brackets of either kind.
spec fn is_balanced(text: Seq<char>, len: int) -> bool {
    forall|n: int|
        0 <= n <= len ==> {
            let characters = (#[trigger] text.take(n)).to_multiset();
            &&& characters.count(')') <= characters.count('(')
            &&& characters.count(']') <= characters.count('[')
        }
}

proof fn lemma_balance_step(text: Seq<char>, i: int)
    requires
        0 <= i < text.len(),
    ensures
        ({
            let before = text.take(i).to_multiset();
            let after = text.take(i + 1).to_multiset();
            let added = |c: char| after.count(c) == before.count(c) + if text[i] == c {
                1nat
            } else {
                0nat
            };
            &&& added('(') && added(')') && added('[') && added(']')
            &&& closes_nothing(text, i) <==> {
                ||| text[i] == ')' && before.count('(') <= before.count(')')
                ||| text[i] == ']' && before.count('[') <= before.count(']')
            }
        }),
{
    lemma_bracket_counts(text, i);
    lemma_bracket_counts(text, i + 1);
    lemma_count(text, i, '(');
    lemma_count(text, i, ')');
    lemma_count(text, i, '[');
    lemma_count(text, i, ']');
}

proof fn lemma_bracket_counts(text: Seq<char>, n: int)
    requires
        0 <= n <= text.len(),
    ensures
        count(text.take(n), '(') == text.take(n).to_multiset().count('('),
        count(text.take(n), ')') == text.take(n).to_multiset().count(')'),
        count(text.take(n), '[') == text.take(n).to_multiset().count('['),
        count(text.take(n), ']') == text.take(n).to_multiset().count(']'),
{
    lemma_count_is_multiplicity(text.take(n), '(');
    lemma_count_is_multiplicity(text.take(n), ')');
    lemma_count_is_multiplicity(text.take(n), '[');
    lemma_count_is_multiplicity(text.take(n), ']');
}

/// Text is balanced up to the first closing bracket without an opening one.
proof fn lemma_balanced_until(text: Seq<char>, len: int)
    requires
        0 <= len <= text.len(),
        forall|i: int| 0 <= i < len ==> !#[trigger] closes_nothing(text, i),
    ensures
        is_balanced(text, len),
    decreases len,
{
    if len == 0 {
        text.take(0).to_multiset_ensures();
        assert forall|n: int| 0 <= n <= 0 implies {
            let characters = (#[trigger] text.take(n)).to_multiset();
            &&& characters.count(')') <= characters.count('(')
            &&& characters.count(']') <= characters.count('[')
        } by {
            assert(!text.take(0).contains(')'));
            assert(!text.take(0).contains(']'));
        }
    } else {
        lemma_balanced_until(text, len - 1);
        lemma_balance_step(text, len - 1);
        assert(!closes_nothing(text, len - 1));
        let characters = text.take(len - 1).to_multiset();
        assert(characters.count(')') <= characters.count('('));
        assert(characters.count(']') <= characters.count('['));
    }
}

/// One of the prefixes of `text` is not balanced once character `i` closes nothing.
proof fn lemma_unbalanced_at(text: Seq<char>, i: int)
    requires
        0 <= i < text.len(),
        closes_nothing(text, i),
    ensures
        ({
            let characters = text.take(i + 1).to_multiset();
            ||| characters.count(')') > characters.count('(')
            ||| characters.count(']') > characters.count('[')
        }),
        text[i] == ')' || text[i] == ']',
{
    lemma_balance_step(text, i);
}

/// What is left of a match is balanced: read from its start, there is never a closing bracket of
/// either kind more than there are opening ones. Only the very first cell of the terminal is kept
/// even if it is a closing bracket.
pub proof fn what_is_left_is_balanced(screen: Screen, bounds: Match, text: Seq<char>, n: int)
    requires
        screen.wf(),
        screen.has_match(bounds),
        text.len() == screen.size() - screen.index(bounds.start),
        forall|i: int|
            0 <= i < text.len() ==> text[i] == #[trigger] screen.cells()[screen.index(bounds.start)
                + i].glyph.c,
        screen.index(bounds.start) > 0 || (text[0] != ')' && text[0] != ']'),
        screen.post_processed(bounds) is Some,
        0 <= n <= screen.index(screen.post_processed(bounds).unwrap().end) - screen.index(
            bounds.start,
        ) + 1,
    ensures
        text.take(n).to_multiset().count(')') <= text.take(n).to_multiset().count('('),
        text.take(n).to_multiset().count(']') <= text.take(n).to_multiset().count('['),
{
    let left = screen.post_processed(bounds).unwrap();
    let first = screen.index(bounds.start);
    let whole = screen.span(bounds);
    assert(text =~= screen.characters_from(bounds.start)) by {
        assert forall|i: int| 0 <= i < text.len() implies text[i] == screen.characters_from(
            bounds.start,
        )[i] by {
            assert(text[i] == screen.cells()[first + i].glyph.c);
        }
    }
    lemma_left_end(screen, bounds);
    let last = screen.index(left.end) - first;
    lemma_is_unmatched(text, whole, 0);
    lemma_first_unmatched(text, whole, 0);
    assert forall|i: int| 0 <= i < last + 1 implies !#[trigger] closes_nothing(text, i) by {
        lemma_no_unmatched(text, whole, 0, i);
    }
    lemma_balanced_until(text, last + 1);
    assert(text.take(n).to_multiset().count(')') <= text.take(n).to_multiset().count('('));
}

proof fn lemma_left_end(screen: Screen, bounds: Match)
    requires
        screen.wf(),
        screen.has_match(bounds),
    ensures
        ({
            let text = screen.characters_from(bounds.start);
            let first = screen.index(bounds.start);
            let whole = screen.span(bounds);
            &&& 0 <= first && 0 <= whole && first + whole < screen.size()
            &&& screen.post_processed(bounds) matches Some(left) ==> {
                let last = screen.index(left.end) - first;
                &&& screen.has_match(left)
                &&& 0 <= last <= whole
                &&& match first_unmatched(text, whole, 0) {
                    Some(bracket) => if bracket > 0 {
                        last == bracket - 1
                    } else {
                        first == 0 && last == 0
                    },
                    None => last == trimmed(text, whole),
                }
            }
        }),
{
    let text = screen.characters_from(bounds.start);
    let first = screen.index(bounds.start);
    let whole = screen.span(bounds);
    post_processing_keeps_the_start(screen, bounds);
    screen.lemma_index(bounds.start);
    screen.lemma_index(bounds.end);
    screen.lemma_order(bounds.start, bounds.end);
    lemma_first_unmatched(text, whole, 0);
    lemma_trimmed(text, whole);
    match first_unmatched(text, whole, 0) {
        Some(bracket) => {
            if bracket > 0 {
                screen.lemma_point(first + bracket - 1);
            }
        },
        None => {
            screen.lemma_point(first + trimmed(text, whole));
        },
    }
}

proof fn lemma_trimmed_off(text: Seq<char>, last: int)
    requires
        0 <= last,
    ensures
        forall|i: int| trimmed(text, last) < i <= last ==> is_delimiter(#[trigger] text[i]),
    decreases last,
{
    if last > 0 && is_delimiter(text[last]) {
        lemma_trimmed_off(text, last - 1);
    }
}

proof fn lemma_none_unmatched(text: Seq<char>, last: int, from: int)
    requires
        forall|i: int| from <= i <= last ==> !#[trigger] closes_nothing(text, i),
    ensures
        first_unmatched(text, last, from) is None,
    decreases last + 1 - from,
{
    if from <= last {
        lemma_none_unmatched(text, last, from + 1);
    }
}

/// From a match whose brackets are balanced, exactly the delimiters at its end are cut off: what is
/// cut off is made of the characters `.`, `,`, `:`, `;`, `?`, `!`, `(`, `[` and `'`, and what is left
/// does not end with one of them unless it is a single cell. Nothing else is cut off.
///
/// A match which ends before it starts goes on to the last cell of the terminal.
pub proof fn exactly_the_delimiters_are_cut_off(
    screen: Screen,
    bounds: Match,
    text: Seq<char>,
    whole: int,
)
    requires
        screen.wf(),
        screen.has_match(bounds),
        bounds.start.at_most(bounds.end) ==> whole == screen.index(bounds.end) - screen.index(
            bounds.start,
        ),
        bounds.end.precedes(bounds.start) ==> whole == screen.size() - 1 - screen.index(bounds.start),
        text.len() == screen.size() - screen.index(bounds.start),
        forall|i: int|
            0 <= i < text.len() ==> text[i] == #[trigger] screen.cells()[screen.index(bounds.start)
                + i].glyph.c,
        forall|n: int|
            0 <= n <= whole + 1 ==> {
                let characters = (#[trigger] text.take(n)).to_multiset();
                &&& characters.count(')') <= characters.count('(')
                &&& characters.count(']') <= characters.count('[')
            },
    ensures
        screen.post_processed(bounds) is Some,
        ({
            let left = screen.post_processed(bounds).unwrap();
            let last = screen.index(left.end) - screen.index(bounds.start);
            let end = text[last];
            &&& left.start == bounds.start
            &&& 0 <= last <= whole
            &&& last == 0 || (end != '.' && end != ',' && end != ':' && end != ';' && end != '?'
                && end != '!' && end != '(' && end != '[' && end != '\'')
            &&& forall|i: int|
                last < i <= whole ==> {
                    let c = #[trigger] text[i];
                    c == '.' || c == ',' || c == ':' || c == ';' || c == '?' || c == '!' || c == '('
                        || c == '[' || c == '\''
                }
        }),
{
    let first = screen.index(bounds.start);
    assert(whole == screen.span(bounds));
    assert(text =~= screen.characters_from(bounds.start)) by {
        assert forall|i: int| 0 <= i < text.len() implies text[i] == screen.characters_from(
            bounds.start,
        )[i] by {
            assert(text[i] == screen.cells()[first + i].glyph.c);
        }
    }
    lemma_left_end(screen, bounds);
    post_processing_keeps_the_start(screen, bounds);
    assert forall|i: int| 0 <= i <= whole implies !#[trigger] closes_nothing(text, i) by {
        lemma_balance_step(text, i);
        if closes_nothing(text, i) {
            lemma_unbalanced_at(text, i);
            let characters = text.take(i + 1).to_multiset();
            assert(characters.count(')') <= characters.count('('));
        }
    }
    lemma_none_unmatched(text, whole, 0);
    lemma_trimmed_end(text, whole);
    lemma_trimmed_off(text, whole);
    let left = screen.post_processed(bounds).unwrap();
    let last = screen.index(left.end) - first;
    assert forall|i: int| last < i <= whole implies {
        let c = #[trigger] text[i];
        c == '.' || c == ',' || c == ':' || c == ';' || c == '?' || c == '!' || c == '(' || c == '['
            || c == '\''
    } by {
        assert(is_delimiter(text[i]));
    }
}

/// A match whose brackets are not balanced is cut off right in front of the first closing bracket
/// which has no opening one, and nothing is trimmed there. Nothing is left if the match starts with
/// this bracket; but the very first cell of the terminal is kept.
pub proof fn matches_are_cut_at_the_first_unmatched_bracket(
    screen: Screen,
    bounds: Match,
    text: Seq<char>,
    whole: int,
    bracket: int,
)
    requires
        screen.wf(),
        screen.has_match(bounds),
        bounds.start.at_most(bounds.end) ==> whole == screen.index(bounds.end) - screen.index(
            bounds.start,
        ),
        bounds.end.precedes(bounds.start) ==> whole == screen.size() - 1 - screen.index(bounds.start),
        text.len() == screen.size() - screen.index(bounds.start),
        forall|i: int|
            0 <= i < text.len() ==> text[i] == #[trigger] screen.cells()[screen.index(bounds.start)
                + i].glyph.c,
        0 <= bracket <= whole,
        forall|n: int|
            0 <= n <= bracket ==> {
                let characters = (#[trigger] text.take(n)).to_multiset();
                &&& characters.count(')') <= characters.count('(')
                &&& characters.count(']') <= characters.count('[')
            },
        text.take(bracket + 1).to_multiset().count(')') > text.take(
            bracket + 1,
        ).to_multiset().count('(') || text.take(bracket + 1).to_multiset().count(']') > text.take(
            bracket + 1,
        ).to_multiset().count('['),
    ensures
        bracket > 0 ==> screen.post_processed(bounds) == Some(
            (Match {
                start: bounds.start,
                end: screen.point(screen.index(bounds.start) + bracket - 1),
            }),
        ),
        bracket == 0 && screen.index(bounds.start) > 0 ==> screen.post_processed(bounds) is None,
        bracket == 0 && screen.index(bounds.start) == 0 ==> screen.post_processed(bounds) == Some(
            (Match { start: bounds.start, end: bounds.start }),
        ),
{
    let first = screen.index(bounds.start);
    assert(whole == screen.span(bounds));
    assert(text =~= screen.characters_from(bounds.start)) by {
        assert forall|i: int| 0 <= i < text.len() implies text[i] == screen.characters_from(
            bounds.start,
        )[i] by {
            assert(text[i] == screen.cells()[first + i].glyph.c);
        }
    }
    lemma_left_end(screen, bounds);
    assert forall|i: int| 0 <= i < bracket implies !#[trigger] closes_nothing(text, i) by {
        lemma_balance_step(text, i);
        if closes_nothing(text, i) {
            lemma_unbalanced_at(text, i);
            let characters = text.take(i + 1).to_multiset();
            assert(characters.count(')') <= characters.count('('));
        }
    }
    lemma_balance_step(text, bracket);
    let characters = text.take(bracket).to_multiset();
    assert(characters.count(')') <= characters.count('('));
    assert(closes_nothing(text, bracket));
    lemma_first_is(text, whole, 0, bracket);
}

proof fn lemma_first_is(text: Seq<char>, last: int, from: int, bracket: int)
    requires
        from <= bracket <= last,
        closes_nothing(text, bracket),
        forall|i: int| from <= i < bracket ==> !#[trigger] closes_nothing(text, i),
    ensures
        first_unmatched(text, last, from) == Some(bracket),
    decreases bracket - from,
{
    if from < bracket {
        lemma_first_is(text, last, from + 1, bracket);
    }
}

/// Behind what is left of a match the search for further matches goes on, up to the end of the whole
/// match. A match which is found there, and of which something is left, comes next.
pub proof fn what_is_cut_off_is_searched(
    screen: Screen,
    pattern: Seq<char>,
    bounds: Match,
    left: Match,
    found: Match,
)
    requires
        screen.wf(),
        screen.has_match(bounds),
        bounds.start.at_most(bounds.end),
        screen.post_processed(bounds) == Some(left),
        screen.index(left.end) < screen.index(bounds.end),
        screen.search_right(
            pattern,
            screen.point(screen.index(left.end) + 1),
            bounds.end,
        ) == Some(found),
    ensures
        screen.processed(pattern, bounds).len() > 0,
        screen.processed(pattern, bounds)[0] == left,
        screen.post_processed(found) matches Some(next) ==> {
            &&& screen.processed(pattern, bounds).len() > 1
            &&& screen.processed(pattern, bounds)[1] == next
        },
{
    post_processing_keeps_the_start(screen, bounds);
    screen.lemma_index(bounds.start);
    screen.lemma_index(bounds.end);
    screen.lemma_index(left.end);
    screen.lemma_order(left.start, left.end);
    let from = screen.index(bounds.start);
    let next = screen.index(left.end) + 1;
    let progress = screen.settled(pattern, bounds.end, bounds, from);
    assert(progress == (Progress { found: Some(left), start: Some(next) }));
    searches_advance(screen, pattern, bounds.end, found, next);
    let later = screen.settled(pattern, bounds.end, found, next);
    assert(screen.processed(pattern, bounds) =~= seq![left] + screen.submatches(
        pattern,
        bounds.end,
        later,
    ));
}

/// Without anything behind what is left, that is all there is.
pub proof fn nothing_follows_the_last_submatch(
    screen: Screen,
    pattern: Seq<char>,
    bounds: Match,
    left: Match,
)
    requires
        screen.wf(),
        screen.has_match(bounds),
        bounds.start.at_most(bounds.end),
        screen.post_processed(bounds) == Some(left),
        screen.index(left.end) >= screen.index(bounds.end) || screen.search_right(
            pattern,
            screen.point(screen.index(left.end) + 1),
            bounds.end,
        ) is None,
    ensures
        screen.processed(pattern, bounds) == seq![left],
{
    post_processing_keeps_the_start(screen, bounds);
    screen.lemma_index(bounds.start);
    screen.lemma_index(bounds.end);
    screen.lemma_index(left.end);
    screen.lemma_order(left.start, left.end);
    assert(screen.processed(pattern, bounds) =~= seq![left]);
}

/// If nothing is left of a match, the search starts again behind its first cell: what is left of the
/// match which is found there is the first sub-match.
pub proof fn matches_behind_a_bracket_are_found(
    screen: Screen,
    pattern: Seq<char>,
    bounds: Match,
    found: Match,
    left: Match,
)
    requires
        screen.wf(),
        screen.has_match(bounds),
        screen.post_processed(bounds) is None,
        screen.index(bounds.start) < screen.index(bounds.end),
        screen.search_right(
            pattern,
            screen.point(screen.index(bounds.start) + 1),
            bounds.end,
        ) == Some(found),
        screen.post_processed(found) == Some(left),
    ensures
        screen.processed(pattern, bounds).len() > 0,
        screen.processed(pattern, bounds)[0] == left,
{
    screen.lemma_index(bounds.start);
    screen.lemma_index(bounds.end);
    let from = screen.index(bounds.start);
    let next = screen.settled(pattern, bounds.end, found, from + 1);
    assert(next.found == Some(left));
    assert(screen.settled(pattern, bounds.end, bounds, from) == next);
}

/// `left` is what post-processing leaves of the match itself, or of one which is found behind its
/// start.
spec fn is_left_of(screen: Screen, pattern: Seq<char>, bounds: Match, end: Point, left: Match) -> bool {
    ||| screen.post_processed(bounds) == Some(left)
    ||| exists|start: Point, found: Match|
        #[trigger] screen.search_right(pattern, start, end) == Some(found)
            && #[trigger] screen.post_processed(found) == Some(left)
}

proof fn lemma_settled_is_left(
    screen: Screen,
    pattern: Seq<char>,
    end: Point,
    bounds: Match,
    from: int,
)
    ensures
        screen.settled(pattern, end, bounds, from).found matches Some(left) ==> is_left_of(
            screen,
            pattern,
            bounds,
            end,
            left,
        ),
    decreases screen.size() - from,
{
    if screen.post_processed(bounds) is None {
        if let Some(next) = screen.advanced(bounds.start, from) {
            if next <= screen.index(end) {
                if let Some(found) = screen.search_right(pattern, screen.point(next), end) {
                    lemma_settled_is_left(screen, pattern, end, found, next);
                    if let Some(left) = screen.settled(pattern, end, bounds, from).found {
                        if screen.post_processed(found) == Some(left) {
                            assert(screen.search_right(pattern, screen.point(next), end) == Some(
                                found,
                            ));
                        }
                    }
                }
            }
        }
    }
}

proof fn lemma_submatch_is_left(
    screen: Screen,
    pattern: Seq<char>,
    end: Point,
    bounds: Match,
    progress: Progress,
    k: int,
)
    requires
        0 <= k < screen.submatches(pattern, end, progress).len(),
        progress.found matches Some(left) ==> is_left_of(screen, pattern, bounds, end, left),
    ensures
        is_left_of(
            screen,
            pattern,
            bounds,
            end,
            screen.submatches(pattern, end, progress)[k],
        ),
    decreases screen.searches_left(progress.start),
{
    let all = screen.submatches(pattern, end, progress);
    if let Some(left) = progress.found {
        if k > 0 {
            if let Some(start) = progress.start {
                if start <= screen.index(end) {
                    if let Some(found) = screen.search_right(pattern, screen.point(start), end) {
                        let next = screen.settled(pattern, end, found, start);
                        searches_advance(screen, pattern, end, found, start);
                        lemma_settled_is_left(screen, pattern, end, found, start);
                        if let Some(later) = next.found {
                            if screen.post_processed(found) == Some(later) {
                                assert(screen.search_right(pattern, screen.point(start), end)
                                    == Some(found));
                            }
                            assert(is_left_of(screen, pattern, bounds, end, later));
                        }
                        lemma_submatch_is_left(screen, pattern, end, bounds, next, k - 1);
                        assert(all[k] == screen.submatches(pattern, end, next)[k - 1]);
                    }
                }
            }
        }
    }
}

/// No match is offered as it was found: every sub-match is what post-processing leaves of the whole
/// match, or of a match which is found up to its end.
pub proof fn submatches_are_post_processed(
    screen: Screen,
    pattern: Seq<char>,
    bounds: Match,
    k: int,
)
    requires
        0 <= k < screen.processed(pattern, bounds).len(),
    ensures
        screen.post_processed(bounds) == Some(screen.processed(pattern, bounds)[k])
            || exists|start: Point, found: Match|
            #[trigger] screen.search_right(pattern, start, bounds.end) == Some(found)
                && #[trigger] screen.post_processed(found) == Some(
                screen.processed(pattern, bounds)[k],
            ),
{
    let from = screen.index(bounds.start);
    lemma_settled_is_left(screen, pattern, bounds.end, bounds, from);
    lemma_submatch_is_left(
        screen,
        pattern,
        bounds.end,
        bounds,
        screen.settled(pattern, bounds.end, bounds, from),
        k,
    );
}

/// Searches up to `end` find matches which do not start before the search does.
spec fn searches_are_ahead(screen: Screen, pattern: Seq<char>, end: Point) -> bool {
    forall|start: Point|
        #[trigger] screen.search_right(pattern, start, end) matches Some(found) ==> {
            &&& screen.has_match(found)
            &&& start.at_most(found.start)
        }
}

/// The search goes on right behind what was found.
spec fn goes_on_behind(screen: Screen, progress: Progress) -> bool {
    progress.found matches Some(left) ==> {
        let next = screen.index(left.end) + 1;
        &&& screen.has_match(left)
        &&& progress.start == if next < screen.size() {
            Some(next)
        } else {
            None
        }
    }
}

proof fn lemma_goes_on_behind(
    screen: Screen,
    pattern: Seq<char>,
    end: Point,
    bounds: Match,
    from: int,
)
    requires
        screen.wf(),
        screen.has_match(bounds),
        searches_are_ahead(screen, pattern, end),
        0 <= from <= screen.index(bounds.start),
    ensures
        goes_on_behind(screen, screen.settled(pattern, end, bounds, from)),
    decreases screen.size() - from,
{
    screen.lemma_index(bounds.start);
    post_processing_keeps_the_start(screen, bounds);
    lemma_left_end(screen, bounds);
    if screen.post_processed(bounds) is None {
        if let Some(next) = screen.advanced(bounds.start, from) {
            if next <= screen.index(end) {
                if let Some(found) = screen.search_right(pattern, screen.point(next), end) {
                    screen.lemma_point(next);
                    screen.lemma_order(screen.point(next), found.start);
                    lemma_goes_on_behind(screen, pattern, end, found, next);
                }
            }
        }
    }
}

proof fn lemma_next_submatch(
    screen: Screen,
    pattern: Seq<char>,
    end: Point,
    progress: Progress,
    k: int,
)
    requires
        screen.wf(),
        screen.has(end),
        searches_are_ahead(screen, pattern, end),
        goes_on_behind(screen, progress),
        0 <= k < screen.submatches(pattern, end, progress).len(),
    ensures
        ({
            let parts = screen.submatches(pattern, end, progress);
            let next = screen.index(parts[k].end) + 1;
            &&& screen.has_match(parts[k])
            &&& next > screen.index(end) || screen.search_right(
                pattern,
                screen.point(next),
                end,
            ) is None ==> k + 1 == parts.len()
            &&& next <= screen.index(end) ==> (screen.search_right(
                pattern,
                screen.point(next),
                end,
            ) matches Some(found) ==> match screen.settled(pattern, end, found, next).found {
                Some(part) => k + 1 < parts.len() && parts[k + 1] == part,
                None => k + 1 == parts.len(),
            })
        }),
    decreases screen.searches_left(progress.start),
{
    screen.lemma_index(end);
    let parts = screen.submatches(pattern, end, progress);
    if let Some(left) = progress.found {
        screen.lemma_index(left.end);
        if let Some(start) = progress.start {
            if start <= screen.index(end) {
                if let Some(found) = screen.search_right(pattern, screen.point(start), end) {
                    let next = screen.settled(pattern, end, found, start);
                    screen.lemma_point(start);
                    screen.lemma_order(screen.point(start), found.start);
                    searches_advance(screen, pattern, end, found, start);
                    lemma_goes_on_behind(screen, pattern, end, found, start);
                    let rest = screen.submatches(pattern, end, next);
                    assert(parts =~= seq![left] + rest);
                    if k > 0 {
                        lemma_next_submatch(screen, pattern, end, next, k - 1);
                        assert(parts[k] == rest[k - 1]);
                        if k + 1 < parts.len() {
                            assert(parts[k + 1] == rest[k]);
                        }
                    }
                } else {
                    assert(parts =~= seq![left]);
                }
            } else {
                assert(parts =~= seq![left]);
            }
        } else {
            assert(parts =~= seq![left]);
        }
    }
}

/// Sub-matches are found one behind the other, as long as searches find nothing in front of where
/// they start: behind every one the search goes on in the next cell, up to the end of the whole match,
/// and what is left of the match which is found there comes next. If nothing is left of it, the search
/// goes on behind its first cell. The last one is the one behind which nothing is found.
pub proof fn submatches_follow_each_other(
    screen: Screen,
    pattern: Seq<char>,
    bounds: Match,
    k: int,
)
    requires
        screen.wf(),
        screen.has_match(bounds),
        0 <= k < screen.processed(pattern, bounds).len(),
        forall|start: Point|
            #[trigger] screen.search_right(pattern, start, bounds.end) matches Some(found) ==> {
                &&& screen.has_match(found)
                &&& start.at_most(found.start)
            },
    ensures
        ({
            let parts = screen.processed(pattern, bounds);
            let next = screen.index(parts[k].end) + 1;
            let last = screen.index(bounds.end);
            let found = screen.search_right(pattern, screen.point(next), bounds.end);
            let second = screen.index(found.unwrap().start) + 1;
            let retried = screen.search_right(pattern, screen.point(second), bounds.end);
            &&& next > last || found is None ==> k + 1 == parts.len()
            &&& next <= last && found is Some && screen.post_processed(found.unwrap()) is Some ==> {
                &&& k + 1 < parts.len()
                &&& Some(parts[k + 1]) == screen.post_processed(found.unwrap())
            }
            &&& next <= last && found is Some && screen.post_processed(found.unwrap()) is None
                && second <= last && retried is Some && screen.post_processed(
                retried.unwrap(),
            ) is Some ==> {
                &&& k + 1 < parts.len()
                &&& Some(parts[k + 1]) == screen.post_processed(retried.unwrap())
            }
            &&& next <= last && found is Some && screen.post_processed(found.unwrap()) is None && (
            second > last || retried is None) ==> k + 1 == parts.len()
        }),
{
    let from = screen.index(bounds.start);
    screen.lemma_index(bounds.start);
    screen.lemma_index(bounds.end);
    let first = screen.settled(pattern, bounds.end, bounds, from);
    lemma_goes_on_behind(screen, pattern, bounds.end, bounds, from);
    lemma_next_submatch(screen, pattern, bounds.end, first, k);
    let parts = screen.processed(pattern, bounds);
    let next = screen.index(parts[k].end) + 1;
    screen.lemma_index(parts[k].end);
    reveal_with_fuel(Screen::settled, 2);
    if next <= screen.index(bounds.end) {
        screen.lemma_point(next);
        if let Some(found) = screen.search_right(pattern, screen.point(next), bounds.end) {
            screen.lemma_order(screen.point(next), found.start);
            screen.lemma_index(found.start);
        }
    }
}

} // verus!
