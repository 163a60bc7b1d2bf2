//! Matches of hints.
use std::rc::Rc;
use vstd::prelude::*;

use crate::config::{Hint, HintAction};
use crate::hyperlinks::hyperlink_at;
use crate::index::{Match, Point};
use crate::regex::regex_match_at;
use crate::screen::{Link, Screen};
use crate::standard;
use crate::terminal::{same_hyperlink, Hyperlink, Terminal};

verus! {

/// A match which was selected.
pub struct HintMatchView {
    /// Cells of the match.
    pub bounds: Match,
    /// Hyperlink of the match.
    pub hyperlink: Option<Link>,
    /// Hint which the match is for.
    pub hint: Rc<Hint>,
}

impl HintMatchView {
    /// The match is highlighted at a cell with the hyperlink `pointed`.
    pub open spec fn is_highlighted(self, point: Point, pointed: Option<Link>) -> bool {
        self.hyperlink == pointed && (self.hyperlink is Some || self.bounds.covers(point))
    }

    /// The text of the match on a screen, as long as the match is still there.
    pub open spec fn text(self, screen: Screen) -> Option<Seq<char>> {
        match self.hyperlink {
            Some(link) => if screen.link_at(self.bounds.start) == Some((link, self.bounds)) {
                Some(link.uri)
            } else {
                None
            },
            None => match self.hint.content.regex {
                Some(pattern) => if screen.match_at(
                    self.bounds.start,
                    pattern@,
                    self.hint.post_processing,
                ) == Some(self.bounds) {
                    screen.text(self.bounds)
                } else {
                    None
                },
                None => None,
            },
        }
    }
}

/// Hint match which was selected by the user.
#[derive(PartialEq, Eq, Debug)]
pub struct HintMatch {
    /// Terminal range matching the hint.
    bounds: Match,
    /// Hyperlink of the cells.
    hyperlink: Option<Hyperlink>,
    /// Hint which triggered this match.
    hint: Rc<Hint>,
}

impl View for HintMatch {
    type V = HintMatchView;

    closed spec fn view(&self) -> HintMatchView {
        HintMatchView {
            bounds: self.bounds,
            hyperlink: crate::terminal::link_of(self.hyperlink),
            hint: self.hint,
        }
    }
}

/// A match which may be missing.
pub open spec fn match_view(found: Option<HintMatch>) -> Option<HintMatchView> {
    match found {
        Some(found) => Some(found@),
        None => None,
    }
}

impl Clone for HintMatch {
    fn clone(&self) -> (other: Self)
        ensures
            other@ == self@,
    {
        let hyperlink = match &self.hyperlink {
            Some(hyperlink) => Some(hyperlink.clone()),
            None => None,
        };
        HintMatch { bounds: self.bounds, hyperlink, hint: standard::share(&self.hint) }
    }
}

impl HintMatch {
    pub(crate) fn new(bounds: Match, hyperlink: Option<Hyperlink>, hint: Rc<Hint>) -> (found:
        HintMatch)
        ensures
            found@ == (HintMatchView {
                bounds,
                hyperlink: crate::terminal::link_of(hyperlink),
                hint,
            }),
    {
        HintMatch { bounds, hyperlink, hint }
    }

    pub fn should_highlight(&self, point: Point, pointed_hyperlink: Option<&Hyperlink>) -> (highlight:
        bool)
        ensures
            highlight == (match (self@.hyperlink, pointed_hyperlink) {
                (Some(link), Some(pointed)) => link == pointed@,
                (None, None) => self@.bounds.covers(point),
                _ => false,
            }),
            highlight == self@.is_highlighted(
                point,
                match pointed_hyperlink {
                    Some(pointed) => Some(pointed@),
                    None => None,
                },
            ),
    {
        same_hyperlink(self.hyperlink(), pointed_hyperlink) && (self.hyperlink.is_some()
            || self.bounds.contains(&point))
    }

    pub fn action(&self) -> (action: &HintAction)
        ensures
            *action == self@.hint.action,
    {
        &self.hint.action
    }

    pub fn bounds(&self) -> (bounds: &Match)
        ensures
            *bounds == self@.bounds,
    {
        &self.bounds
    }

    pub fn hyperlink(&self) -> (hyperlink: Option<&Hyperlink>)
        ensures
            hyperlink is Some <==> self@.hyperlink is Some,
            hyperlink matches Some(hyperlink) ==> self@.hyperlink == Some(hyperlink@),
    {
        match &self.hyperlink {
            Some(hyperlink) => Some(hyperlink),
            None => None,
        }
    }

    /// Get the text content of the hint match.
    ///
    /// This will always revalidate the hint text, to account for terminal content changes since the
    /// [`HintMatch`] was constructed. The text of the hint might be different from its original
    /// value, but it will **always** be a valid match for this hint.
    pub fn text(&self, term: &Terminal) -> (text: Option<String>)
        requires
            self@.hyperlink is Some ==> term@.has(self@.bounds.start),
        ensures
            text is Some <==> self@.text(term@) is Some,
            text matches Some(text) ==> self@.text(term@) == Some(text@),
    {
        // Revalidate hyperlink match.
        if let Some(hyperlink) = &self.hyperlink {
            return match hyperlink_at(term, self.bounds.start) {
                Some((validated, bounds)) => if validated.same(hyperlink) && bounds == self.bounds {
                    Some(hyperlink.uri().to_owned())
                } else {
                    None
                },
                None => None,
            };
        }

        // Revalidate regex match.
        match &self.hint.content.regex {
            Some(pattern) => {
                match regex_match_at(
                    term,
                    self.bounds.start,
                    pattern.as_str(),
                    self.hint.post_processing,
                ) {
                    Some(bounds) => if bounds == self.bounds {
                        term.text(bounds)
                    } else {
                        None
                    },
                    None => None,
                }
            },
            None => None,
        }
    }
}

/// The text of a match is always a valid match for its hint: it is the address of the hyperlink which
/// covers exactly these cells, or it is the text in cells which the hint is about.
pub proof fn text_is_a_valid_match(found: HintMatchView, screen: Screen)
    ensures
        found.text(screen) matches Some(text) ==> match found.hyperlink {
            Some(link) => {
                &&& screen.cell(found.bounds.start).hyperlink == Some(link)
                &&& screen.link_at(found.bounds.start) == Some((link, found.bounds))
                &&& text == link.uri
            },
            None => {
                &&& found.hint.content.regex is Some
                &&& crate::offer::candidates(screen, &*found.hint).contains(found.bounds)
                &&& found.bounds.covers(found.bounds.start)
                &&& screen.text(found.bounds) == Some(text)
            },
        },
{
    if found.text(screen) is Some && found.hyperlink is None {
        crate::offer::match_at_is_a_candidate(screen, &*found.hint, found.bounds.start);
    }
}

/// The text of a hyperlink which is still on the screen is its address.
pub proof fn hyperlinks_keep_their_text(screen: Screen, point: Point, hint: Rc<Hint>)
    requires
        screen.wf(),
        screen.has(point),
        screen.link_at(point) is Some,
    ensures
        ({
            let (link, bounds) = screen.link_at(point).unwrap();
            HintMatchView { bounds, hyperlink: Some(link), hint }.text(screen) == Some(link.uri)
        }),
{
    let bounds = screen.link_at(point).unwrap().1;
    crate::hyperlinks::link_range_is_shared(screen, point, point);
    crate::hyperlinks::link_range_is_shared(screen, point, bounds.start);
}

/// The text of a match which is still on the screen is what its cells show, as long as the matches
/// there do not overlap.
pub proof fn matches_keep_their_text(
    screen: Screen,
    point: Point,
    hint: Rc<Hint>,
    pattern: Seq<char>,
    bounds: Match,
)
    requires
        hint.content.regex is Some,
        hint.content.regex.unwrap()@ == pattern,
        screen.match_at(point, pattern, hint.post_processing) == Some(bounds),
        crate::index::are_apart(screen.visible_matches(pattern)),
        hint.post_processing ==> {
            let whole = crate::index::first_covering(screen.visible_matches(pattern), point).unwrap();
            &&& crate::index::are_apart(screen.processed(pattern, whole))
            &&& whole.covers(bounds.start)
        },
    ensures
        (HintMatchView { bounds, hyperlink: None, hint }).text(screen) == screen.text(bounds),
{
    let visible = screen.visible_matches(pattern);
    let whole = crate::index::first_covering(visible, point).unwrap();
    crate::index::lemma_first_covering(visible, point);
    if hint.post_processing {
        let processed = screen.processed(pattern, whole);
        crate::index::lemma_first_covering(processed, point);
        crate::index::lemma_same_covering(processed, point, bounds.start);
    }
    crate::index::lemma_same_covering(visible, point, bounds.start);
}

/// A hyperlink has a text only as long as every one of its cells has this hyperlink, and neither the
/// cell in front of them nor the one behind them does.
pub proof fn hyperlinks_are_validated(
    found: HintMatchView,
    link: Link,
    screen: Screen,
    other: Point,
)
    requires
        screen.wf(),
        screen.has(found.bounds.start),
        found.hyperlink == Some(link),
        found.text(screen) is Some,
        screen.has(other),
    ensures
        found.text(screen) == Some(link.uri),
        found.bounds.covers(other) ==> screen.cell(other).hyperlink == Some(link),
        other.line == found.bounds.end.line && other.column == found.bounds.end.column + 1
            ==> screen.cell(other).hyperlink != Some(link),
        other.line == found.bounds.start.line && other.column + 1 == found.bounds.start.column
            ==> screen.cell(other).hyperlink != Some(link),
{
    crate::hyperlinks::the_link_of_a_cell_is_found(screen, found.bounds.start, other);
}

/// A match without a hyperlink has no text if its hint has no regular expression. Otherwise its text is
/// what its cells show exactly if it is the match at its first cell.
pub proof fn text_is_validated(found: HintMatchView, screen: Screen, pattern: Seq<char>)
    requires
        found.hyperlink is None,
        found.hint.content.regex is Some ==> found.hint.content.regex.unwrap()@ == pattern,
    ensures
        found.hint.content.regex is None ==> found.text(screen) is None,
        found.hint.content.regex is Some ==> found.text(screen) == if screen.match_at(
            found.bounds.start,
            pattern,
            found.hint.post_processing,
        ) == Some(found.bounds) {
            screen.text(found.bounds)
        } else {
            None
        },
{
}

/// A match with a hyperlink is highlighted wherever this hyperlink is, and nowhere else. A match
/// without one is highlighted in its own cells, from its start to its end in reading order, as far as
/// these have no hyperlink, and nowhere else.
pub proof fn matches_are_highlighted_in_their_cells(
    found: HintMatchView,
    link: Link,
    point: Point,
    pointed: Option<Link>,
)
    ensures
        found.hyperlink == Some(link) ==> (found.is_highlighted(point, pointed) <==> pointed == Some(
            link,
        )),
        found.hyperlink is None ==> (found.is_highlighted(point, pointed) <==> {
            &&& pointed is None
            &&& found.bounds.start.line < point.line || (found.bounds.start.line == point.line
                && found.bounds.start.column <= point.column)
            &&& point.line < found.bounds.end.line || (point.line == found.bounds.end.line
                && point.column <= found.bounds.end.column)
        }),
{
}

} // verus!
