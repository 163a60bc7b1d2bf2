//! Hyperlinks which applications attached to cells.
use vstd::prelude::*;

use crate::index::{Match, Point};
use crate::screen::{Link, Screen};
use crate::terminal::{Hyperlink, Terminal};

verus! {

/// The last index of the run of equal items which `i` is part of.
pub open spec fn run_end(links: Seq<Option<Link>>, i: int) -> int
    decreases links.len() - i,
{
    if i + 1 < links.len() && links[i + 1] == links[i] {
        run_end(links, i + 1)
    } else {
        i
    }
}

/// The first index of the run of equal items which `i` is part of.
pub open spec fn run_start(links: Seq<Option<Link>>, i: int) -> int
    decreases i,
{
    if i > 0 && links[i - 1] == links[i] {
        run_start(links, i - 1)
    } else {
        i
    }
}

/// Index `i` is the first one with its link.
pub open spec fn is_first_use(links: Seq<Option<Link>>, i: int) -> bool {
    links[i] is Some && forall|j: int| 0 <= j < i ==> #[trigger] links[j] != links[i]
}

/// All indices below `end` which are the first one with their link.
pub open spec fn first_uses(links: Seq<Option<Link>>, end: int) -> Seq<int>
    decreases end,
{
    if end <= 0 {
        Seq::empty()
    } else if is_first_use(links, end - 1) {
        first_uses(links, end - 1).push(end - 1)
    } else {
        first_uses(links, end - 1)
    }
}

impl Screen {
    /// The hyperlinks of all cells, in reading order.
    pub open spec fn links(self) -> Seq<Option<Link>> {
        self.cells().map_values(|cell: crate::screen::CellView| cell.hyperlink)
    }

    /// Number of cells before the viewport.
    pub open spec fn viewport_index(self) -> int {
        self.index(Point { line: self.viewport_start() as i32, column: 0 })
    }

    /// Number of cells in the viewport.
    pub open spec fn viewport_size(self) -> int {
        self.screen_lines() * self.columns()
    }

    /// The hyperlinks of all cells in the viewport.
    pub open spec fn viewport_links(self) -> Seq<Option<Link>> {
        self.links().subrange(
            self.viewport_index(),
            self.viewport_index() + self.viewport_size(),
        )
    }

    /// The cells of the viewport from number `i` on which have the same hyperlink without a gap.
    pub open spec fn viewport_run(self, i: int) -> Match {
        Match {
            start: self.point(self.viewport_index() + i),
            end: self.point(self.viewport_index() + run_end(self.viewport_links(), i)),
        }
    }

    /// For every hyperlink in the viewport, the cells where it comes first.
    pub open spec fn visible_links(self) -> Seq<Match> {
        first_uses(self.viewport_links(), self.viewport_size()).map_values(
            |i: int| self.viewport_run(i),
        )
    }

    /// The hyperlink at `point`, and the cells around it which have the same hyperlink without a
    /// gap.
    pub open spec fn link_at(self, point: Point) -> Option<(Link, Match)> {
        match self.cell(point).hyperlink {
            Some(link) => {
                let i = self.index(point);
                Some(
                    (
                        link,
                        Match {
                            start: self.point(run_start(self.links(), i)),
                            end: self.point(run_end(self.links(), i)),
                        },
                    ),
                )
            },
            None => None,
        }
    }
}

proof fn lemma_run_end(links: Seq<Option<Link>>, i: int)
    requires
        0 <= i < links.len(),
    ensures
        i <= run_end(links, i) < links.len(),
        forall|j: int| i <= j <= run_end(links, i) ==> #[trigger] links[j] == links[i],
        run_end(links, i) + 1 < links.len() ==> links[run_end(links, i) + 1] != links[i],
    decreases links.len() - i,
{
    if i + 1 < links.len() && links[i + 1] == links[i] {
        lemma_run_end(links, i + 1);
    }
}

proof fn lemma_run_start(links: Seq<Option<Link>>, i: int)
    requires
        0 <= i < links.len(),
    ensures
        0 <= run_start(links, i) <= i,
        forall|j: int| run_start(links, i) <= j <= i ==> #[trigger] links[j] == links[i],
        run_start(links, i) > 0 ==> links[run_start(links, i) - 1] != links[i],
    decreases i,
{
    if i > 0 && links[i - 1] == links[i] {
        lemma_run_start(links, i - 1);
    }
}

/// All cells of a run have the same run.
proof fn lemma_same_run(links: Seq<Option<Link>>, i: int, j: int)
    requires
        0 <= i < links.len(),
        run_start(links, i) <= j <= run_end(links, i),
    ensures
        run_start(links, j) == run_start(links, i),
        run_end(links, j) == run_end(links, i),
{
    lemma_run_start(links, i);
    lemma_run_end(links, i);
    lemma_run_start(links, j);
    lemma_run_end(links, j);
    if run_start(links, j) < run_start(links, i) {
        assert(links[run_start(links, i) - 1] == links[j]);
    }
    if run_start(links, i) < run_start(links, j) {
        assert(links[run_start(links, j) - 1] == links[i]);
    }
    if run_end(links, j) < run_end(links, i) {
        assert(links[run_end(links, j) + 1] == links[i]);
    }
    if run_end(links, i) < run_end(links, j) {
        assert(links[run_end(links, i) + 1] == links[j]);
    }
}

/// No cell of a run but the first one is the first use of its link.
proof fn lemma_first_uses_skip(links: Seq<Option<Link>>, i: int, end: int)
    requires
        0 <= i < end <= links.len(),
        forall|j: int| i <= j < end ==> #[trigger] links[j] == links[i],
    ensures
        first_uses(links, end) == first_uses(links, i + 1),
    decreases end,
{
    if end > i + 1 {
        assert(links[end - 1] == links[i]);
        lemma_first_uses_skip(links, i, end - 1);
    }
}

/// The first uses are in order, and nothing but the first uses.
proof fn lemma_first_uses(links: Seq<Option<Link>>, end: int)
    requires
        0 <= end <= links.len(),
    ensures
        forall|k: int|
            0 <= k < first_uses(links, end).len() ==> {
                let i = #[trigger] first_uses(links, end)[k];
                0 <= i < end && is_first_use(links, i)
            },
        forall|k: int, m: int|
            0 <= k < m < first_uses(links, end).len() ==> #[trigger] first_uses(links, end)[k]
                < #[trigger] first_uses(links, end)[m],
        forall|i: int|
            0 <= i < end && is_first_use(links, i) ==> #[trigger] first_uses(links, end).contains(i),
    decreases end,
{
    if end > 0 {
        lemma_first_uses(links, end - 1);
        let shorter = first_uses(links, end - 1);
        let all = first_uses(links, end);
        assert forall|i: int| 0 <= i < end && is_first_use(links, i) implies #[trigger] all.contains(
            i,
        ) by {
            if i < end - 1 {
                assert(shorter.contains(i));
                let k = choose|k: int| 0 <= k < shorter.len() && shorter[k] == i;
                assert(all[k] == i);
            } else {
                assert(all[all.len() - 1] == i);
            }
        }
    }
}

/// The viewport is part of the terminal.
proof fn lemma_viewport(screen: Screen)
    requires
        screen.wf(),
    ensures
        screen.has(Point { line: screen.viewport_start() as i32, column: 0 }),
        0 <= screen.viewport_index(),
        screen.viewport_index() + screen.viewport_size() <= screen.size(),
        0 < screen.viewport_size() <= usize::MAX,
        screen.links().len() == screen.size(),
        screen.viewport_links().len() == screen.viewport_size(),
        forall|i: int|
            #![trigger screen.viewport_links()[i]]
            0 <= i < screen.viewport_size() ==> screen.viewport_links()[i]
                == screen.cells()[screen.viewport_index() + i].hyperlink,
{
    let start = Point { line: screen.viewport_start() as i32, column: 0 };
    screen.lemma_index(start);
    let columns = screen.columns();
    let row = screen.viewport_start() + screen.history;
    let lines = screen.screen_lines();
    assert(row * columns + lines * columns == (row + lines) * columns) by (nonlinear_arith);
    assert((row + lines) * columns <= screen.rows.len() * columns) by (nonlinear_arith)
        requires
            row + lines <= screen.rows.len(),
            columns > 0,
    ;
    assert(lines * columns > 0) by (nonlinear_arith)
        requires
            lines > 0,
            columns > 0,
    ;
}

/// A cell below `end` has the link.
spec fn is_used(links: Seq<Option<Link>>, end: int, link: Link) -> bool {
    exists|j: int| 0 <= j < end && #[trigger] links[j] == Some(link)
}

/// The link is the one of a hyperlink in the list.
spec fn is_listed(list: Seq<&Hyperlink>, link: Link) -> bool {
    exists|k: int| 0 <= k < list.len() && (#[trigger] list[k])@ == link
}

/// The list has all links of the cells below `end`, and no others.
#[verifier::opaque]
spec fn lists_used(list: Seq<&Hyperlink>, links: Seq<Option<Link>>, end: int) -> bool {
    forall|link: Link| is_listed(list, link) <==> #[trigger] is_used(links, end, link)
}

proof fn lemma_lists_nothing(links: Seq<Option<Link>>)
    ensures
        lists_used(Seq::empty(), links, 0),
{
    reveal(lists_used);
}

/// What changes with the cells from `i` to `end`, which all have the same link.
proof fn lemma_used_run(links: Seq<Option<Link>>, i: int, end: int)
    requires
        0 <= i < end <= links.len(),
        forall|j: int| i <= j < end ==> #[trigger] links[j] == links[i],
    ensures
        forall|link: Link|
            #[trigger] is_used(links, end, link) <==> is_used(links, i, link) || links[i] == Some(
                link,
            ),
{
    assert forall|link: Link|
        #[trigger] is_used(links, end, link) <==> is_used(links, i, link) || links[i] == Some(
            link,
        ) by {
        if is_used(links, end, link) {
            let j = choose|j: int| 0 <= j < end && #[trigger] links[j] == Some(link);
            assert(j < i ==> is_used(links, i, link));
        }
        if is_used(links, i, link) {
            let j = choose|j: int| 0 <= j < i && #[trigger] links[j] == Some(link);
            assert(0 <= j < end && links[j] == Some(link));
        }
    }
}

/// A link which is not listed is used for the first time.
proof fn lemma_first_is_new(list: Seq<&Hyperlink>, links: Seq<Option<Link>>, i: int, link: Link)
    requires
        0 <= i < links.len(),
        links[i] == Some(link),
        lists_used(list, links, i),
    ensures
        is_first_use(links, i) <==> !is_listed(list, link),
{
    reveal(lists_used);
    assert(is_listed(list, link) <==> is_used(links, i, link));
}

/// A run of a new link adds it to the list.
proof fn lemma_list_run(
    list: Seq<&Hyperlink>,
    links: Seq<Option<Link>>,
    i: int,
    end: int,
    hyperlink: &Hyperlink,
)
    requires
        0 <= i < end <= links.len(),
        forall|j: int| i <= j < end ==> #[trigger] links[j] == links[i],
        links[i] == Some(hyperlink@),
        lists_used(list, links, i),
    ensures
        lists_used(list.push(hyperlink), links, end),
{
    reveal(lists_used);
    lemma_used_run(links, i, end);
    let longer = list.push(hyperlink);
    assert forall|link: Link| is_listed(longer, link) <==> #[trigger] is_used(links, end, link) by {
        assert(is_used(links, i, link) <==> is_listed(list, link));
        if is_listed(list, link) {
            let k = choose|k: int| 0 <= k < list.len() && (#[trigger] list[k])@ == link;
            assert(longer[k]@ == link);
        }
        if links[i] == Some(link) {
            assert(longer[list.len() as int]@ == link);
        }
        if is_listed(longer, link) {
            let k = choose|k: int| 0 <= k < longer.len() && (#[trigger] longer[k])@ == link;
            if k < list.len() {
                assert(list[k]@ == link);
            }
        }
    }
}

/// A cell without a link, or with one which is listed, leaves the list as it is.
proof fn lemma_list_stays(list: Seq<&Hyperlink>, links: Seq<Option<Link>>, i: int)
    requires
        0 <= i < links.len(),
        links[i] matches Some(link) ==> is_listed(list, link),
        lists_used(list, links, i),
    ensures
        lists_used(list, links, i + 1),
{
    reveal(lists_used);
    lemma_used_run(links, i, i + 1);
    assert forall|link: Link| is_listed(list, link) <==> #[trigger] is_used(links, i + 1, link) by {
        assert(is_used(links, i, link) <==> is_listed(list, link));
    }
}

/// All visible hyperlinks, each of them only where it comes first.
pub fn visible_unique_hyperlinks_iter(term: &Terminal) -> (matches: Vec<Match>)
    ensures
        matches@ == term@.visible_links(),
        forall|i: int| 0 <= i < matches@.len() ==> term@.has_match(#[trigger] matches@[i]),
{
    let ghost screen = term@;
    let ghost links = screen.viewport_links();
    let ghost first = screen.viewport_index();
    let ghost size = screen.viewport_size();
    let mut point = Point { line: term.viewport_start(), column: 0 };
    let last = Point {
        line: term.viewport_start() + term.bottommost_line(),
        column: term.last_column(),
    };
    proof {
        lemma_viewport(screen);
        screen.lemma_line(screen.viewport_end());
        let lines = screen.screen_lines();
        let row = screen.viewport_start() + screen.history;
        let columns = screen.columns();
        assert(row * columns + lines * columns == (row + lines) * columns) by (nonlinear_arith);
        assert(screen.index(last) == first + size - 1);
        lemma_lists_nothing(links);
    }

    // Avoid creating hints for the same hyperlinks, but from a different places.
    let mut unique_hyperlinks: Vec<&Hyperlink> = Vec::new();
    let mut matches: Vec<Match> = Vec::new();
    let ghost mut i: int = 0;
    loop
        invariant
            screen == term@,
            screen.wf(),
            links == screen.viewport_links(),
            first == screen.viewport_index(),
            size == screen.viewport_size(),
            links.len() == size,
            0 <= first,
            first + size <= screen.size(),
            forall|i: int|
                #![trigger links[i]]
                0 <= i < size ==> links[i] == screen.cells()[first + i].hyperlink,
            0 <= i < size,
            screen.has(point),
            screen.index(point) == first + i,
            screen.has(last),
            screen.index(last) == first + size - 1,
            lists_used(unique_hyperlinks@, links, i),
            matches@ == first_uses(links, i).map_values(|i: int| screen.viewport_run(i)),
            forall|k: int| 0 <= k < matches@.len() ==> screen.has_match(#[trigger] matches@[k]),
        decreases size - i,
    {
        proof {
            screen.lemma_index(point);
        }
        let ghost start = i;
        let hyperlink = term.hyperlink(point);
        assert(links[i] == screen.cell(point).hyperlink);
        let new: bool = match hyperlink {
            Some(hyperlink) => {
                proof {
                    lemma_first_is_new(unique_hyperlinks@, links, i, hyperlink@);
                }
                !is_known(&unique_hyperlinks, hyperlink)
            },
            None => false,
        };
        if let (true, Some(hyperlink)) = (new, hyperlink) {
            // Find the end bound of just found unique hyperlink.
            let run_last = extend_run(term, point, last, hyperlink, Ghost(i));
            proof {
                lemma_run_end(links, i);
                i = run_end(links, i);
                lemma_list_run(unique_hyperlinks@, links, start, i + 1, hyperlink);
                lemma_first_uses_skip(links, start, i + 1);
                screen.lemma_index(run_last);
            }
            unique_hyperlinks.push(hyperlink);
            let ghost before = matches@;
            matches.push(Match { start: point, end: run_last });
            proof {
                assert(matches@[before.len() as int] == screen.viewport_run(start));
                assert(matches@ =~= first_uses(links, i + 1).map_values(
                    |i: int| screen.viewport_run(i),
                ));
            }
            point = run_last;
        } else {
            proof {
                lemma_list_stays(unique_hyperlinks@, links, i);
            }
        }
        proof {
            screen.lemma_order(point, last);
            screen.lemma_ends(point);
        }
        if point == last {
            return matches;
        }
        match term.next_point(point) {
            Some(next) => {
                point = next;
            },
            None => {
                return matches;
            },
        }
        proof {
            i = i + 1;
        }
    }
}

/// Check if a hyperlink is one of those in a list.
fn is_known(hyperlinks: &Vec<&Hyperlink>, hyperlink: &Hyperlink) -> (known: bool)
    ensures
        known == is_listed(hyperlinks@, hyperlink@),
{
    let mut k: usize = 0;
    while k < hyperlinks.len()
        invariant
            k <= hyperlinks@.len(),
            forall|j: int| 0 <= j < k ==> (#[trigger] hyperlinks@[j])@ != hyperlink@,
        decreases hyperlinks@.len() - k,
    {
        if hyperlinks[k].same(hyperlink) {
            assert(hyperlinks@[k as int]@ == hyperlink@);
            return true;
        }
        k = k + 1;
    }
    false
}

/// Go on from a cell of the viewport for as long as the hyperlink stays the same.
fn extend_run(
    term: &Terminal,
    start: Point,
    last: Point,
    hyperlink: &Hyperlink,
    Ghost(i): Ghost<int>,
) -> (end: Point)
    requires
        term@.has(start),
        term@.has(last),
        0 <= i < term@.viewport_size(),
        term@.index(start) == term@.viewport_index() + i,
        term@.index(last) == term@.viewport_index() + term@.viewport_size() - 1,
        term@.viewport_links()[i] == Some(hyperlink@),
    ensures
        term@.has(end),
        term@.index(end) == term@.viewport_index() + run_end(term@.viewport_links(), i),
{
    let ghost screen = term@;
    let ghost links = screen.viewport_links();
    proof {
        use_type_invariant(term);
        term.lemma_inv();
        lemma_viewport(screen);
    }
    let mut end = start;
    let ghost mut j: int = i;
    while end != last
        invariant
            screen == term@,
            screen.wf(),
            links == screen.viewport_links(),
            links.len() == screen.viewport_size(),
            forall|i: int|
                #![trigger links[i]]
                0 <= i < links.len() ==> links[i] == screen.cells()[screen.viewport_index()
                    + i].hyperlink,
            screen.viewport_index() + screen.viewport_size() <= screen.size(),
            0 <= i <= j < links.len(),
            screen.has(end),
            screen.has(last),
            screen.index(end) == screen.viewport_index() + j,
            screen.index(last) == screen.viewport_index() + links.len() - 1,
            links[j] == Some(hyperlink@),
            run_end(links, i) == run_end(links, j),
        ensures
            run_end(links, i) == j,
        decreases links.len() - j,
    {
        proof {
            screen.lemma_order(end, last);
        }
        match term.next_point(end) {
            Some(next) => {
                proof {
                    screen.lemma_index(next);
                    assert(links[j + 1] == screen.cell(next).hyperlink);
                }
                match term.hyperlink(next) {
                    Some(other) => {
                        if !other.same(hyperlink) {
                            break ;
                        }
                    },
                    None => {
                        break ;
                    },
                }
                end = next;
                proof {
                    j = j + 1;
                }
            },
            None => {
                break ;
            },
        }
    }
    end
}

/// Retrieve the hyperlink with its range, if there is one at the specified point.
///
/// This will only return contiguous cells, even if another hyperlink with the same ID exists.
pub fn hyperlink_at(term: &Terminal, point: Point) -> (found: Option<(Hyperlink, Match)>)
    requires
        term@.has(point),
    ensures
        found is Some <==> term@.link_at(point) is Some,
        found matches Some((hyperlink, bounds)) ==> {
            &&& term@.link_at(point) == Some((hyperlink@, bounds))
            &&& term@.has_match(bounds)
        },
{
    let ghost screen = term@;
    let ghost links = screen.links();
    let ghost i = screen.index(point);
    let hyperlink: &Hyperlink = match term.hyperlink(point) {
        Some(hyperlink) => hyperlink,
        None => {
            return None;
        },
    };
    proof {
        screen.lemma_index(point);
    }

    let mut match_end = point;
    let ghost mut j: int = i;
    loop
        invariant
            screen == term@,
            screen.wf(),
            links == screen.links(),
            0 <= i <= j < links.len(),
            links[j] == Some(hyperlink@),
            screen.has(match_end),
            screen.index(match_end) == j,
            run_end(links, i) == run_end(links, j),
        ensures
            run_end(links, i) == j,
        decreases links.len() - j,
    {
        match term.next_point(match_end) {
            Some(next) => {
                proof {
                    screen.lemma_index(next);
                    assert(links[j + 1] == screen.cell(next).hyperlink);
                }
                match term.hyperlink(next) {
                    Some(other) => {
                        if !other.same(hyperlink) {
                            break ;
                        }
                    },
                    None => {
                        break ;
                    },
                }
                match_end = next;
                proof {
                    j = j + 1;
                }
            },
            None => {
                break ;
            },
        }
    }

    let mut match_start = point;
    let ghost mut k: int = i;
    loop
        invariant
            screen == term@,
            screen.wf(),
            links == screen.links(),
            0 <= k <= i < links.len(),
            links[k] == Some(hyperlink@),
            screen.has(match_start),
            screen.index(match_start) == k,
            run_start(links, i) == run_start(links, k),
        ensures
            run_start(links, i) == k,
        decreases k,
    {
        match term.previous_point(match_start) {
            Some(previous) => {
                proof {
                    screen.lemma_index(previous);
                    assert(links[k - 1] == screen.cell(previous).hyperlink);
                }
                match term.hyperlink(previous) {
                    Some(other) => {
                        if !other.same(hyperlink) {
                            break ;
                        }
                    },
                    None => {
                        break ;
                    },
                }
                match_start = previous;
                proof {
                    k = k - 1;
                }
            },
            None => {
                break ;
            },
        }
    }
    proof {
        screen.lemma_index(match_start);
        screen.lemma_index(match_end);
    }
    Some((hyperlink.clone(), Match { start: match_start, end: match_end }))
}

/// Every hyperlink in the viewport is offered, and none is offered twice: each one has exactly one
/// place in [`Screen::visible_links`] which starts with it.
pub proof fn visible_links_are_unique(screen: Screen, i: int)
    requires
        screen.wf(),
        0 <= i < screen.viewport_size(),
        screen.viewport_links()[i] is Some,
    ensures
        exists|k: int|
            0 <= k < screen.visible_links().len() && screen.cell(
                (#[trigger] screen.visible_links()[k]).start,
            ).hyperlink == screen.viewport_links()[i],
        forall|k: int, m: int|
            0 <= k < m < screen.visible_links().len() ==> screen.cell(
                (#[trigger] screen.visible_links()[k]).start,
            ).hyperlink != screen.cell((#[trigger] screen.visible_links()[m]).start).hyperlink,
{
    lemma_viewport(screen);
    let links = screen.viewport_links();
    let uses = first_uses(links, screen.viewport_size());
    let offered = screen.visible_links();
    lemma_first_uses(links, screen.viewport_size());
    assert forall|k: int| 0 <= k < offered.len() implies screen.cell(
        (#[trigger] offered[k]).start,
    ).hyperlink == links[uses[k]] by {
        screen.lemma_point(screen.viewport_index() + uses[k]);
    }
    assert forall|k: int, m: int| 0 <= k < m < offered.len() implies screen.cell(
        (#[trigger] offered[k]).start,
    ).hyperlink != screen.cell((#[trigger] offered[m]).start).hyperlink by {
        assert(uses[k] < uses[m]);
        assert(is_first_use(links, uses[m]));
        assert(links[uses[k]] != links[uses[m]]);
    }
    let first = lemma_has_first_use(links, i);
    assert(uses.contains(first));
    let k = choose|k: int| 0 <= k < uses.len() && uses[k] == first;
    assert(screen.cell(offered[k].start).hyperlink == links[i]);
}

proof fn lemma_has_first_use(links: Seq<Option<Link>>, i: int) -> (first: int)
    requires
        0 <= i < links.len(),
        links[i] is Some,
    ensures
        0 <= first <= i,
        links[first] == links[i],
        is_first_use(links, first),
    decreases i,
{
    if is_first_use(links, i) {
        i
    } else {
        let j = choose|j: int| 0 <= j < i && #[trigger] links[j] == links[i];
        lemma_has_first_use(links, j)
    }
}

/// The range of a hyperlink has the hyperlink in all of its cells, and is the same whichever of
/// them is asked for. The cells right before and behind it have another hyperlink or none.
pub proof fn link_range_is_shared(screen: Screen, point: Point, other: Point)
    requires
        screen.wf(),
        screen.has(point),
        screen.has(other),
        screen.link_at(point) is Some,
    ensures
        ({
            let (link, bounds) = screen.link_at(point).unwrap();
            let start = screen.index(bounds.start);
            let end = screen.index(bounds.end);
            &&& screen.has_match(bounds)
            &&& bounds.covers(point)
            &&& bounds.covers(other) ==> screen.link_at(other) == Some((link, bounds))
            &&& start > 0 ==> screen.links()[start - 1] != Some(link)
            &&& end + 1 < screen.size() ==> screen.links()[end + 1] != Some(link)
        }),
{
    let links = screen.links();
    let i = screen.index(point);
    let j = screen.index(other);
    let bounds = screen.link_at(point).unwrap().1;
    screen.lemma_index(point);
    screen.lemma_index(other);
    lemma_run_start(links, i);
    lemma_run_end(links, i);
    screen.lemma_point(run_start(links, i));
    screen.lemma_point(run_end(links, i));
    screen.lemma_order(bounds.start, point);
    screen.lemma_order(point, bounds.end);
    assert(links[i] == screen.cell(point).hyperlink);
    if bounds.covers(other) {
        screen.lemma_order(bounds.start, other);
        screen.lemma_order(other, bounds.end);
        lemma_same_run(links, i, j);
        assert(links[j] == screen.cell(other).hyperlink);
    }
}

proof fn lemma_in_viewport(screen: Screen, point: Point)
    requires
        screen.wf(),
        screen.has(point),
    ensures
        -screen.display_offset <= point.line <==> screen.viewport_index() <= screen.index(point),
        point.line < screen.rows.len() - screen.history - screen.display_offset <==> screen.index(
            point,
        ) < screen.viewport_index() + screen.viewport_size(),
{
    let columns = screen.columns();
    let row = point.line + screen.history;
    let first = screen.history - screen.display_offset;
    let behind = screen.rows.len() - screen.display_offset;
    let column = point.column as int;
    assert(first <= row <==> first * columns <= row * columns + column) by (nonlinear_arith)
        requires
            0 <= column < columns,
    ;
    assert(row < behind <==> row * columns + column < behind * columns) by (nonlinear_arith)
        requires
            0 <= column < columns,
    ;
    let lines = screen.screen_lines();
    assert(first * columns + lines * columns == behind * columns) by (nonlinear_arith)
        requires
            first + lines == behind,
    ;
}

proof fn lemma_next_cell(screen: Screen, point: Point, next: Point)
    requires
        screen.wf(),
        screen.has(point),
        screen.has(next),
        (next.line == point.line && next.column == point.column + 1) || (next.line == point.line + 1
            && next.column == 0 && point.column == screen.rows[0].len() - 1),
    ensures
        screen.index(next) == screen.index(point) + 1,
{
    screen.lemma_line(point.line as int);
}

/// Every hyperlink of a cell in one of the lines which are displayed is offered, and this no later
/// than in this cell.
pub proof fn every_hyperlink_on_display_is_offered(screen: Screen, point: Point)
    requires
        screen.wf(),
        screen.has(point),
        -screen.display_offset <= point.line < screen.rows.len() - screen.history
            - screen.display_offset,
        screen.cell(point).hyperlink is Some,
    ensures
        exists|k: int|
            0 <= k < screen.visible_links().len() && {
                let bounds = #[trigger] screen.visible_links()[k];
                &&& screen.cell(bounds.start).hyperlink == screen.cell(point).hyperlink
                &&& bounds.start.at_most(point)
            },
{
    lemma_viewport(screen);
    lemma_in_viewport(screen, point);
    screen.lemma_index(point);
    let links = screen.viewport_links();
    let uses = first_uses(links, screen.viewport_size());
    lemma_first_uses(links, screen.viewport_size());
    let i = screen.index(point) - screen.viewport_index();
    assert(links[i] == screen.cell(point).hyperlink);
    let first = lemma_has_first_use(links, i);
    assert(uses.contains(first));
    let k = choose|k: int| 0 <= k < uses.len() && uses[k] == first;
    screen.lemma_point(screen.viewport_index() + first);
    let start = screen.point(screen.viewport_index() + first);
    assert(screen.visible_links()[k].start == start);
    assert(links[first] == screen.cell(start).hyperlink);
    screen.lemma_order(start, point);
}

/// What is offered lies in the lines which are displayed. All of its cells have the same hyperlink,
/// which no cell in front of them on display has, and the cell behind them on display does not have
/// it.
pub proof fn hyperlinks_are_offered_where_they_come_first(screen: Screen, k: int, other: Point)
    requires
        screen.wf(),
        0 <= k < screen.visible_links().len(),
        screen.has(other),
        -screen.display_offset <= other.line < screen.rows.len() - screen.history
            - screen.display_offset,
    ensures
        ({
            let bounds = screen.visible_links()[k];
            let link = screen.cell(bounds.start).hyperlink;
            &&& screen.has_match(bounds)
            &&& -screen.display_offset <= bounds.start.line
            &&& bounds.end.line < screen.rows.len() - screen.history - screen.display_offset
            &&& bounds.start.at_most(bounds.end)
            &&& link is Some
            &&& bounds.covers(other) ==> screen.cell(other).hyperlink == link
            &&& other.precedes(bounds.start) ==> screen.cell(other).hyperlink != link
            &&& other.line == bounds.end.line && other.column == bounds.end.column + 1
                ==> screen.cell(other).hyperlink != link
            &&& other.line == bounds.end.line + 1 && other.column == 0 && bounds.end.column
                == screen.rows[0].len() - 1 ==> screen.cell(other).hyperlink != link
        }),
{
    lemma_viewport(screen);
    lemma_in_viewport(screen, other);
    screen.lemma_index(other);
    let links = screen.viewport_links();
    let uses = first_uses(links, screen.viewport_size());
    lemma_first_uses(links, screen.viewport_size());
    let bounds = screen.visible_links()[k];
    let i = uses[k];
    assert(is_first_use(links, i));
    lemma_run_end(links, i);
    let e = run_end(links, i);
    screen.lemma_point(screen.viewport_index() + i);
    screen.lemma_point(screen.viewport_index() + e);
    lemma_in_viewport(screen, bounds.start);
    lemma_in_viewport(screen, bounds.end);
    screen.lemma_order(bounds.start, bounds.end);
    screen.lemma_order(bounds.start, other);
    screen.lemma_order(other, bounds.start);
    screen.lemma_order(other, bounds.end);
    let j = screen.index(other) - screen.viewport_index();
    assert(links[i] == screen.cell(bounds.start).hyperlink);
    assert(links[j] == screen.cell(other).hyperlink);
    if (other.line == bounds.end.line && other.column == bounds.end.column + 1) || (other.line
        == bounds.end.line + 1 && other.column == 0 && bounds.end.column == screen.rows[0].len()
        - 1) {
        lemma_next_cell(screen, bounds.end, other);
    }
}

/// Hyperlinks are offered in reading order, and every one once.
pub proof fn hyperlinks_are_offered_in_order(screen: Screen, k: int, m: int)
    requires
        screen.wf(),
        0 <= k < m < screen.visible_links().len(),
    ensures
        screen.visible_links()[k].start.precedes(screen.visible_links()[m].start),
        screen.cell(screen.visible_links()[k].start).hyperlink != screen.cell(
            screen.visible_links()[m].start,
        ).hyperlink,
{
    lemma_viewport(screen);
    let links = screen.viewport_links();
    let uses = first_uses(links, screen.viewport_size());
    lemma_first_uses(links, screen.viewport_size());
    assert(uses[k] < uses[m]);
    assert(is_first_use(links, uses[m]));
    screen.lemma_point(screen.viewport_index() + uses[k]);
    screen.lemma_point(screen.viewport_index() + uses[m]);
    screen.lemma_order(screen.visible_links()[k].start, screen.visible_links()[m].start);
    assert(links[uses[k]] == screen.cell(screen.visible_links()[k].start).hyperlink);
    assert(links[uses[m]] == screen.cell(screen.visible_links()[m].start).hyperlink);
}

/// There is a hyperlink at a cell exactly if the cell has one. Its range covers the cell, all of its
/// cells have the same hyperlink, and neither the cell in front of it nor the one behind it does.
pub proof fn the_link_of_a_cell_is_found(screen: Screen, point: Point, other: Point)
    requires
        screen.wf(),
        screen.has(point),
        screen.has(other),
    ensures
        screen.cell(point).hyperlink is None ==> screen.link_at(point) is None,
        screen.cell(point).hyperlink matches Some(link) ==> {
            let bounds = screen.link_at(point).unwrap().1;
            &&& screen.link_at(point) is Some
            &&& screen.link_at(point).unwrap().0 == link
            &&& screen.has_match(bounds)
            &&& bounds.covers(point)
            &&& bounds.covers(other) ==> screen.cell(other).hyperlink == Some(link)
            &&& other.line == bounds.end.line && other.column == bounds.end.column + 1
                ==> screen.cell(other).hyperlink != Some(link)
            &&& other.line == bounds.end.line + 1 && other.column == 0 && bounds.end.column
                == screen.rows[0].len() - 1 ==> screen.cell(other).hyperlink != Some(link)
            &&& bounds.start.line == other.line && bounds.start.column == other.column + 1
                ==> screen.cell(other).hyperlink != Some(link)
            &&& bounds.start.line == other.line + 1 && bounds.start.column == 0 && other.column
                == screen.rows[0].len() - 1 ==> screen.cell(other).hyperlink != Some(link)
        },
{
    if screen.cell(point).hyperlink is Some {
        let bounds = screen.link_at(point).unwrap().1;
        link_range_is_shared(screen, point, other);
        screen.lemma_index(other);
        screen.lemma_index(bounds.start);
        screen.lemma_index(bounds.end);
        assert(screen.links()[screen.index(other)] == screen.cell(other).hyperlink);
        if (other.line == bounds.end.line && other.column == bounds.end.column + 1) || (other.line
            == bounds.end.line + 1 && other.column == 0 && bounds.end.column
            == screen.rows[0].len() - 1) {
            lemma_next_cell(screen, bounds.end, other);
        }
        if (bounds.start.line == other.line && bounds.start.column == other.column + 1) || (
        bounds.start.line == other.line + 1 && bounds.start.column == 0 && other.column
            == screen.rows[0].len() - 1) {
            lemma_next_cell(screen, other, bounds.start);
        }
    }
}

} // verus!
