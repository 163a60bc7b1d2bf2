//! What hints offer for selection.
use vstd::prelude::*;

use crate::config::{openable_command, CommandLine, Hint, Program, UiConfig};
use crate::hyperlinks::visible_unique_hyperlinks_iter;
use crate::index::{Match, Point};
use crate::openable::{Openable, OpenableView};
use crate::post_process::HintPostProcessor;
use crate::regex::visible_regex_match_iter;
use crate::screen::Screen;
use crate::terminal::Terminal;

verus! {

/// Matches which may be offered.
pub struct Offer {
    /// Matches which are offered.
    pub found: Seq<Match>,
    /// Some match is not offered since its text has no answer yet.
    pub unanswered: bool,
    /// What is known of the questions afterwards.
    pub openable: OpenableView,
}

/// Those of `found` whose text `program` would open. All texts are asked about, in order. A match
/// without a text is not offered.
pub open spec fn retained(
    openable: OpenableView,
    program: CommandLine,
    found: Seq<Match>,
    texts: Seq<Option<Seq<char>>>,
    now: int,
) -> Offer
    decreases found.len(),
{
    if found.len() == 0 {
        Offer { found: Seq::empty(), unanswered: false, openable }
    } else {
        let before = retained(openable, program, found.drop_last(), texts, now);
        match texts[found.len() - 1] {
            Some(text) => {
                let reply = before.openable.reply(text);
                Offer {
                    found: if reply == Some(true) {
                        before.found.push(found.last())
                    } else {
                        before.found
                    },
                    unanswered: before.unanswered || reply is None,
                    openable: before.openable.asked(program, text, now),
                }
            },
            None => before,
        }
    }
}

/// What post-processing leaves of all of `found`, one after another.
pub open spec fn all_processed(screen: Screen, pattern: Seq<char>, found: Seq<Match>) -> Seq<Match>
    decreases found.len(),
{
    if found.len() == 0 {
        Seq::empty()
    } else {
        all_processed(screen, pattern, found.drop_last()) + screen.processed(pattern, found.last())
    }
}

/// Everything on the screen which `hint` is about.
pub open spec fn candidates(screen: Screen, hint: &Hint) -> Seq<Match> {
    let links = if hint.content.hyperlinks {
        screen.visible_links()
    } else {
        Seq::empty()
    };
    links + match hint.content.regex {
        Some(pattern) => if hint.post_processing {
            all_processed(screen, pattern@, screen.visible_matches(pattern@))
        } else {
            screen.visible_matches(pattern@)
        },
        None => Seq::empty(),
    }
}

/// The texts of all of `found`.
pub open spec fn match_texts(screen: Screen, found: Seq<Match>) -> Seq<Option<Seq<char>>> {
    found.map_values(|bounds: Match| screen.text(bounds))
}

/// What is offered for `hint` on the screen.
///
/// A hint for what a program would open matches nothing without a program. Otherwise the program is
/// asked if the hint has a regular expression.
pub open spec fn offer(
    screen: Screen,
    command: Option<Program>,
    hint: &Hint,
    openable: OpenableView,
    now: int,
) -> Offer {
    let found = candidates(screen, hint);
    match (hint.dan_openable, command) {
        (true, None) => Offer { found: Seq::empty(), unanswered: false, openable },
        (true, Some(program)) => if hint.content.regex is Some {
            retained(openable, program@, found, match_texts(screen, found), now)
        } else {
            Offer { found, unanswered: false, openable }
        },
        (false, _) => Offer { found, unanswered: false, openable },
    }
}

/// Keep those matches whose text `program` would open, out of matches with their texts.
///
/// The second result tells if a text had no answer yet.
pub fn retain_openable(
    openable: &mut Openable,
    program: &Program,
    found: &Vec<Match>,
    texts: &Vec<Option<String>>,
    now: u128,
) -> (kept: (Vec<Match>, bool))
    requires
        old(openable).wf(),
        texts@.len() == found@.len(),
    ensures
        final(openable).wf(),
        ({
            let offer = retained(
                old(openable)@,
                program@,
                found@,
                text_views(texts@),
                now as int,
            );
            &&& final(openable)@ == offer.openable
            &&& kept.0@ == offer.found
            &&& kept.1 == offer.unanswered
        }),
        forall|i: int| 0 <= i < kept.0@.len() ==> found@.contains(#[trigger] kept.0@[i]),
{
    let mut kept: Vec<Match> = Vec::new();
    let mut unanswered: bool = false;
    let mut i: usize = 0;
    while i < found.len()
        invariant
            i <= found@.len(),
            texts@.len() == found@.len(),
            openable.wf(),
            retained(
                old(openable)@,
                program@,
                found@.take(i as int),
                text_views(texts@),
                now as int,
            ) == (Offer { found: kept@, unanswered, openable: openable@ }),
            forall|j: int| 0 <= j < kept@.len() ==> found@.contains(#[trigger] kept@[j]),
        decreases found@.len() - i,
    {
        proof {
            assert(found@.take(i + 1).drop_last() =~= found@.take(i as int));
            assert(found@.take(i + 1).last() == found@[i as int]);
            assert(found@.contains(found@[i as int]));
        }
        if let Some(text) = &texts[i] {
            match openable.ask_at(program, text.as_str(), now) {
                Some(opens) => {
                    if opens {
                        kept.push(found[i]);
                    }
                },
                None => {
                    unanswered = true;
                },
            }
        }
        i = i + 1;
    }
    assert(found@.take(i as int) =~= found@);
    (kept, unanswered)
}

/// The contents of texts which may be missing.
pub open spec fn text_views(texts: Seq<Option<String>>) -> Seq<Option<Seq<char>>> {
    texts.map_values(
        |text: Option<String>|
            match text {
                Some(text) => Some(text@),
                None => None,
            },
    )
}

/// Read the texts of matches.
fn read_texts(term: &Terminal, found: &Vec<Match>) -> (texts: Vec<Option<String>>)
    requires
        forall|i: int| 0 <= i < found@.len() ==> term@.has_match(#[trigger] found@[i]),
    ensures
        texts@.len() == found@.len(),
        text_views(texts@) == match_texts(term@, found@),
{
    let mut texts: Vec<Option<String>> = Vec::new();
    let mut i: usize = 0;
    while i < found.len()
        invariant
            i <= found@.len(),
            forall|j: int| 0 <= j < found@.len() ==> term@.has_match(#[trigger] found@[j]),
            text_views(texts@) == match_texts(term@, found@).take(i as int),
            texts@.len() == i,
        decreases found@.len() - i,
    {
        let ghost before = texts@;
        let text = term.text(found[i]);
        texts.push(text);
        i = i + 1;
        proof {
            assert(match_texts(term@, found@)[i - 1] == term@.text(found@[i - 1]));
            assert(text_views(texts@) =~= text_views(before).push(term@.text(found@[i - 1])));
            assert(text_views(texts@) =~= match_texts(term@, found@).take(i as int));
        }
    }
    assert(match_texts(term@, found@).take(i as int) =~= match_texts(term@, found@));
    texts
}

/// Find everything on the screen which a hint is about.
fn find_candidates(term: &Terminal, hint: &Hint) -> (found: Vec<Match>)
    ensures
        found@ == candidates(term@, hint),
        forall|i: int| 0 <= i < found@.len() ==> term@.has_match(#[trigger] found@[i]),
{
    // Add escape sequence hyperlinks.
    let mut found: Vec<Match> = if hint.content.hyperlinks {
        visible_unique_hyperlinks_iter(term)
    } else {
        Vec::new()
    };
    let ghost links = found@;

    // Add visible regex matches.
    if let Some(pattern) = &hint.content.regex {
        let mut matches = visible_regex_match_iter(term, pattern.as_str());

        // Apply post-processing and search for sub-matches if necessary.
        if hint.post_processing {
            let ghost all = matches@;
            let mut i: usize = 0;
            assert(links + all_processed(term@, pattern@, all.take(0)) =~= links);
            while i < matches.len()
                invariant
                    i <= matches@.len(),
                    all == matches@,
                    forall|j: int| 0 <= j < all.len() ==> term@.has_match(#[trigger] all[j]),
                    found@ == links + all_processed(term@, pattern@, all.take(i as int)),
                    forall|j: int| 0 <= j < found@.len() ==> term@.has_match(#[trigger] found@[j]),
                decreases matches@.len() - i,
            {
                let ghost before = found@;
                let mut processed = HintPostProcessor::new(term, pattern.as_str(), matches[i])
                    .collect();
                let ghost added = processed@;
                found.append(&mut processed);
                proof {
                    assert(all.take(i + 1).drop_last() =~= all.take(i as int));
                    assert(all.take(i + 1).last() == all[i as int]);
                    assert(found@ =~= links + all_processed(term@, pattern@, all.take(i + 1)));
                    assert forall|j: int| 0 <= j < found@.len() implies term@.has_match(
                        #[trigger] found@[j],
                    ) by {
                        if j < before.len() {
                            assert(found@[j] == before[j]);
                        } else {
                            assert(found@[j] == added[j - before.len()]);
                        }
                    }
                }
                i = i + 1;
            }
            assert(all.take(i as int) =~= all);
        } else {
            let ghost added = matches@;
            found.append(&mut matches);
            assert forall|j: int| 0 <= j < found@.len() implies term@.has_match(
                #[trigger] found@[j],
            ) by {
                if j < links.len() {
                    assert(found@[j] == links[j]);
                } else {
                    assert(found@[j] == added[j - links.len()]);
                }
            }
        }
    } else {
        assert(found@ =~= links + Seq::empty());
    }
    found
}

/// Find what is offered for a hint on the screen, and tell if an answer is missing.
pub(crate) fn find_offer(
    term: &Terminal,
    config: &UiConfig,
    hint: &Hint,
    openable: &mut Openable,
    now: u128,
) -> (found: (Vec<Match>, bool))
    requires
        old(openable).wf(),
    ensures
        final(openable).wf(),
        ({
            let offer = offer(
                term@,
                config.hints.dan_openable_command,
                hint,
                old(openable)@,
                now as int,
            );
            &&& final(openable)@ == offer.openable
            &&& found.0@ == offer.found
            &&& found.1 == offer.unanswered
        }),
        forall|i: int| 0 <= i < found.0@.len() ==> term@.has_match(#[trigger] found.0@[i]),
{
    if hint.dan_openable {
        match openable_command(config) {
            Some(program) => {
                let found = find_candidates(term, hint);
                if hint.content.regex.is_some() {
                    let texts = read_texts(term, &found);
                    let kept = retain_openable(openable, program, &found, &texts, now);
                    assert forall|i: int| 0 <= i < kept.0@.len() implies term@.has_match(
                        #[trigger] kept.0@[i],
                    ) by {
                        assert(found@.contains(kept.0@[i]));
                    }
                    kept
                } else {
                    (found, false)
                }
            },
            None => (Vec::new(), false),
        }
    } else {
        (find_candidates(term, hint), false)
    }
}

/// The program is known to open the text of a match.
pub open spec fn would_open(openable: OpenableView, text: Option<Seq<char>>) -> bool {
    match text {
        Some(text) => openable.reply(text) == Some(true),
        None => false,
    }
}

/// It is not known yet if the program would open the text of a match.
pub open spec fn is_unknown(openable: OpenableView, text: Option<Seq<char>>) -> bool {
    match text {
        Some(text) => openable.reply(text) is None,
        None => false,
    }
}

/// Exactly those matches are offered whose text the program is known to open, and an answer is
/// missing exactly if it is not known about some text. What is said about any text stays the same
/// while the program is asked, so that neither depends on the order of the matches.
pub proof fn offered_matches_would_be_opened(
    openable: OpenableView,
    program: CommandLine,
    found: Seq<Match>,
    texts: Seq<Option<Seq<char>>>,
    now: int,
)
    requires
        found.len() <= texts.len(),
    ensures
        ({
            let offer = retained(openable, program, found, texts, now);
            &&& offer.found == Seq::new(found.len(), |i: int| i).filter(
                |i: int| would_open(openable, texts[i]),
            ).map_values(|i: int| found[i])
            &&& offer.unanswered <==> exists|i: int|
                0 <= i < found.len() && is_unknown(openable, #[trigger] texts[i])
            &&& offer.openable.answers == openable.answers
            &&& offer.openable.event_proxy == openable.event_proxy
            &&& forall|text: Seq<char>|
                offer.openable.reply(text) == #[trigger] openable.reply(text)
        }),
    decreases found.len(),
{
    let offer = retained(openable, program, found, texts, now);
    let indices = Seq::new(found.len(), |i: int| i);
    let known = |i: int| would_open(openable, texts[i]);
    reveal(Seq::filter);
    if found.len() > 0 {
        let front = found.drop_last();
        let last = found.len() - 1;
        let before = retained(openable, program, front, texts, now);
        offered_matches_would_be_opened(openable, program, front, texts, now);
        let front_indices = Seq::new(front.len(), |i: int| i);
        assert(indices.drop_last() =~= front_indices);
        assert(indices.last() == last);
        let kept = front_indices.filter(known);
        assert forall|k: int| 0 <= k < kept.len() implies front[kept[k]] == found[kept[k]] by {
            assert(kept.contains(kept[k]));
            front_indices.lemma_filter_contains_rev(known, kept[k]);
            let x = choose|x: int| 0 <= x < front_indices.len() && front_indices[x] == kept[k];
        }
        assert(before.found =~= kept.map_values(|i: int| found[i]));
        assert(indices.filter(known) =~= if known(last) {
            kept.push(last)
        } else {
            kept
        });
        match texts[last] {
            Some(text) => {
                crate::openable::asking_changes_no_answer(before.openable, program, text, now);
                assert(before.openable.reply(text) == openable.reply(text));
            },
            None => {},
        }
        assert(offer.found =~= indices.filter(known).map_values(|i: int| found[i]));
        if exists|i: int| 0 <= i < found.len() && is_unknown(openable, #[trigger] texts[i]) {
            let i = choose|i: int| 0 <= i < found.len() && is_unknown(openable, #[trigger] texts[i]);
            assert(i == last || i < front.len());
        }
        if offer.unanswered && !before.unanswered {
            assert(is_unknown(openable, texts[last]));
        }
        if before.unanswered {
            let i = choose|i: int| 0 <= i < front.len() && is_unknown(openable, #[trigger] texts[i]);
            assert(i < found.len());
        }
    } else {
        assert(indices =~= Seq::empty());
        assert(offer.found =~= indices.filter(known).map_values(|i: int| found[i]));
    }
}

/// A screen full of matches costs at most one batch of questions, and none while a batch is in
/// flight.
pub proof fn a_screen_costs_one_batch(
    openable: OpenableView,
    program: CommandLine,
    found: Seq<Match>,
    texts: Seq<Option<Seq<char>>>,
    now: int,
)
    ensures
        ({
            let after = retained(openable, program, found, texts, now).openable;
            &&& openable.outgoing.len() <= after.outgoing.len() <= openable.outgoing.len() + 1
            &&& openable.waiting ==> after.waiting && after.outgoing == openable.outgoing
            &&& !after.waiting ==> after.outgoing == openable.outgoing
        }),
    decreases found.len(),
{
    if found.len() > 0 {
        a_screen_costs_one_batch(openable, program, found.drop_last(), texts, now);
    }
}

/// Without a program which could be asked, hints for what a program would open offer nothing, and no
/// answer is waited for.
pub proof fn openable_hints_need_a_program(
    screen: Screen,
    hint: &Hint,
    openable: OpenableView,
    now: int,
)
    requires
        hint.dan_openable,
    ensures
        offer(screen, None, hint, openable, now).found.len() == 0,
        !offer(screen, None, hint, openable, now).unanswered,
        offer(screen, None, hint, openable, now).openable == openable,
{
}

/// What is offered depends on the screen and on the answers alone, not on the time or on the
/// questions which are on their way. Offering something does not change any answer.
pub proof fn offers_depend_on_answers_alone(
    screen: Screen,
    command: Option<Program>,
    hint: &Hint,
    openable: OpenableView,
    now: int,
    other: OpenableView,
    later: int,
)
    requires
        other.answers == openable.answers,
    ensures
        ({
            let first = offer(screen, command, hint, openable, now);
            let second = offer(screen, command, hint, other, later);
            &&& second.found == first.found
            &&& second.unanswered == first.unanswered
            &&& first.openable.answers == openable.answers
        }),
{
    let found = candidates(screen, hint);
    let texts = match_texts(screen, found);
    let first = offer(screen, command, hint, openable, now);
    let second = offer(screen, command, hint, other, later);
    if let Some(program) = command {
        if hint.dan_openable && hint.content.regex is Some {
            offered_matches_would_be_opened(openable, program@, found, texts, now);
            offered_matches_would_be_opened(other, program@, found, texts, later);
            let known = |i: int| would_open(openable, texts[i]);
            let known_later = |i: int| would_open(other, texts[i]);
            assert(known =~= known_later);
            assert forall|i: int| is_unknown(openable, #[trigger] texts[i]) == is_unknown(
                other,
                texts[i],
            ) by {}
            if first.unanswered {
                let i = choose|i: int|
                    0 <= i < found.len() && is_unknown(openable, #[trigger] texts[i]);
                assert(is_unknown(other, texts[i]));
            }
            if second.unanswered {
                let i = choose|i: int|
                    0 <= i < found.len() && is_unknown(other, #[trigger] texts[i]);
                assert(is_unknown(openable, texts[i]));
            }
        }
    }
}

proof fn lemma_all_processed(
    screen: Screen,
    pattern: Seq<char>,
    found: Seq<Match>,
    bounds: Match,
    left: Match,
)
    requires
        found.contains(bounds),
        screen.processed(pattern, bounds).contains(left),
    ensures
        all_processed(screen, pattern, found).contains(left),
    decreases found.len(),
{
    let front = all_processed(screen, pattern, found.drop_last());
    let back = screen.processed(pattern, found.last());
    let i = choose|i: int| 0 <= i < found.len() && found[i] == bounds;
    if i == found.len() - 1 {
        let k = choose|k: int| 0 <= k < back.len() && back[k] == left;
        assert((front + back)[front.len() + k] == left);
    } else {
        assert(found.drop_last()[i] == bounds);
        lemma_all_processed(screen, pattern, found.drop_last(), bounds, left);
        let k = choose|k: int| 0 <= k < front.len() && front[k] == left;
        assert((front + back)[k] == left);
    }
}

/// The text at a point which matches a hint is one of the matches which the hint is about.
pub proof fn match_at_is_a_candidate(screen: Screen, hint: &Hint, point: Point)
    requires
        hint.content.regex is Some,
    ensures
        screen.match_at(
            point,
            hint.content.regex.unwrap()@,
            hint.post_processing,
        ) matches Some(bounds) ==> {
            &&& bounds.covers(point)
            &&& candidates(screen, hint).contains(bounds)
        },
{
    let pattern = (&hint.content.regex).unwrap()@;
    let visible = screen.visible_matches(pattern);
    let links = if hint.content.hyperlinks {
        screen.visible_links()
    } else {
        Seq::empty()
    };
    let texts = if hint.post_processing {
        all_processed(screen, pattern, visible)
    } else {
        visible
    };
    crate::index::lemma_first_covering(visible, point);
    if let Some(bounds) = screen.match_at(point, pattern, hint.post_processing) {
        if hint.post_processing {
            let whole = crate::index::first_covering(visible, point).unwrap();
            crate::index::lemma_first_covering(screen.processed(pattern, whole), point);
            lemma_all_processed(screen, pattern, visible, whole, bounds);
        }
        let k = choose|k: int| 0 <= k < texts.len() && texts[k] == bounds;
        assert((links + texts)[links.len() + k] == bounds);
    }
}

proof fn lemma_only_processed(screen: Screen, pattern: Seq<char>, found: Seq<Match>, left: Match)
    requires
        all_processed(screen, pattern, found).contains(left),
    ensures
        exists|k: int|
            0 <= k < found.len() && screen.processed(pattern, #[trigger] found[k]).contains(left),
    decreases found.len(),
{
    if found.len() > 0 {
        let front = all_processed(screen, pattern, found.drop_last());
        let back = screen.processed(pattern, found.last());
        let i = choose|i: int| 0 <= i < (front + back).len() && (front + back)[i] == left;
        if i < front.len() {
            assert(front[i] == left);
            lemma_only_processed(screen, pattern, found.drop_last(), left);
            let k = choose|k: int|
                0 <= k < found.drop_last().len() && screen.processed(
                    pattern,
                    #[trigger] found.drop_last()[k],
                ).contains(left);
            assert(found[k] == found.drop_last()[k]);
        } else {
            assert(back[i - front.len()] == left);
            assert(screen.processed(pattern, found[found.len() - 1]).contains(left));
        }
    }
}

/// A hint for hyperlinks is about every hyperlink which is visible, whether or not it is about text
/// as well. Hyperlinks come before text.
pub proof fn every_visible_link_is_a_candidate(screen: Screen, hint: &Hint, k: int)
    requires
        hint.content.hyperlinks,
        0 <= k < screen.visible_links().len(),
    ensures
        candidates(screen, hint).contains(screen.visible_links()[k]),
        candidates(screen, hint)[k] == screen.visible_links()[k],
{
    assert(candidates(screen, hint)[k] == screen.visible_links()[k]);
}

/// A hint for text is about every visible text which matches its regular expression, whether or not
/// it is about hyperlinks as well. With post-processing, it is about every part which is left of
/// these matches in their place.
pub proof fn every_visible_match_is_a_candidate(
    screen: Screen,
    hint: &Hint,
    pattern: Seq<char>,
    k: int,
)
    requires
        hint.content.regex is Some,
        hint.content.regex.unwrap()@ == pattern,
        0 <= k < screen.visible_matches(pattern).len(),
    ensures
        !hint.post_processing ==> candidates(screen, hint).contains(
            screen.visible_matches(pattern)[k],
        ),
        hint.post_processing ==> forall|left: Match|
            screen.processed(pattern, screen.visible_matches(pattern)[k]).contains(left)
                ==> #[trigger] candidates(screen, hint).contains(left),
{
    let visible = screen.visible_matches(pattern);
    let links = if hint.content.hyperlinks {
        screen.visible_links()
    } else {
        Seq::empty()
    };
    if hint.post_processing {
        let all = all_processed(screen, pattern, visible);
        assert forall|left: Match| screen.processed(pattern, visible[k]).contains(left) implies (
        #[trigger] candidates(screen, hint).contains(left)) by {
            assert(visible.contains(visible[k]));
            lemma_all_processed(screen, pattern, visible, visible[k], left);
            let i = choose|i: int| 0 <= i < all.len() && all[i] == left;
            assert(candidates(screen, hint)[links.len() + i] == left);
        }
    } else {
        assert(candidates(screen, hint)[links.len() + k] == visible[k]);
    }
}

/// A hint is about nothing but the hyperlinks and the text which are visible and which it asks for.
pub proof fn candidates_are_visible(screen: Screen, hint: &Hint, pattern: Seq<char>, bounds: Match)
    requires
        candidates(screen, hint).contains(bounds),
        hint.content.regex is Some ==> hint.content.regex.unwrap()@ == pattern,
    ensures
        ({
            ||| hint.content.hyperlinks && screen.visible_links().contains(bounds)
            ||| {
                &&& hint.content.regex is Some
                &&& !hint.post_processing
                &&& screen.visible_matches(pattern).contains(bounds)
            }
            ||| {
                &&& hint.content.regex is Some
                &&& hint.post_processing
                &&& exists|k: int|
                    0 <= k < screen.visible_matches(pattern).len() && screen.processed(
                        pattern,
                        #[trigger] screen.visible_matches(pattern)[k],
                    ).contains(bounds)
            }
        }),
{
    let all = candidates(screen, hint);
    let links = if hint.content.hyperlinks {
        screen.visible_links()
    } else {
        Seq::empty()
    };
    let i = choose|i: int| 0 <= i < all.len() && all[i] == bounds;
    if i < links.len() {
        assert(links[i] == bounds);
    } else if hint.content.regex is Some {
        let visible = screen.visible_matches(pattern);
        if hint.post_processing {
            let left = all_processed(screen, pattern, visible);
            assert(left[i - links.len()] == bounds);
            lemma_only_processed(screen, pattern, visible, bounds);
        } else {
            assert(visible[i - links.len()] == bounds);
        }
    }
}

/// A hint which leaves nothing to a program offers all it is about, and asks nothing. So does a hint
/// which is about hyperlinks alone, if there is a program.
pub proof fn other_hints_offer_everything(
    screen: Screen,
    command: Option<Program>,
    hint: &Hint,
    openable: OpenableView,
    now: int,
)
    requires
        !hint.dan_openable || (hint.content.regex is None && command is Some),
    ensures
        offer(screen, command, hint, openable, now).found == candidates(screen, hint),
        !offer(screen, command, hint, openable, now).unanswered,
        offer(screen, command, hint, openable, now).openable == openable,
{
}

/// Whatever else it asks for, a hint for text which a program would open offers a match exactly if
/// the answer about its text is known and is yes. Text with line breaks is never offered, and an
/// answer is waited for exactly if there is none about some other text.
pub proof fn a_match_is_offered_if_it_would_open(
    screen: Screen,
    program: Program,
    hint: &Hint,
    openable: OpenableView,
    now: int,
    bounds: Match,
)
    requires
        hint.dan_openable,
        hint.content.regex is Some,
    ensures
        ({
            let offered = offer(screen, Some(program), hint, openable, now);
            &&& offered.found.contains(bounds) <==> {
                &&& candidates(screen, hint).contains(bounds)
                &&& screen.text(bounds) matches Some(text)
                &&& !text.contains('\n')
                &&& openable.answers.contains_key(text)
                &&& openable.answers[text].0
            }
            &&& offered.unanswered <==> exists|other: Match|
                candidates(screen, hint).contains(other) && (#[trigger] screen.text(
                    other,
                ) matches Some(text) && !text.contains('\n') && !openable.answers.contains_key(text))
        }),
{
    let found = candidates(screen, hint);
    let texts = match_texts(screen, found);
    let offered = offer(screen, Some(program), hint, openable, now);
    offered_matches_would_be_opened(openable, program@, found, texts, now);
    let indices = Seq::new(found.len(), |i: int| i);
    let known = |i: int| would_open(openable, texts[i]);
    let kept = indices.filter(known);
    assert(offered.found == kept.map_values(|i: int| found[i]));
    assert forall|i: int| 0 <= i < found.len() implies #[trigger] texts[i] == screen.text(
        found[i],
    ) by {}
    if offered.found.contains(bounds) {
        let k = choose|k: int| 0 <= k < offered.found.len() && offered.found[k] == bounds;
        indices.lemma_filter_pred(known, k);
        assert(kept.contains(kept[k]));
        indices.lemma_filter_contains_rev(known, kept[k]);
        assert(found[kept[k]] == bounds);
    }
    if found.contains(bounds) && would_open(openable, screen.text(bounds)) {
        let i = choose|i: int| 0 <= i < found.len() && found[i] == bounds;
        assert(texts[i] == screen.text(bounds));
        assert(indices[i] == i);
        indices.lemma_filter_contains(known, i);
        let k = choose|k: int| 0 <= k < kept.len() && kept[k] == i;
        assert(offered.found[k] == bounds);
    }
    if offered.unanswered {
        let i = choose|i: int| 0 <= i < found.len() && is_unknown(openable, #[trigger] texts[i]);
        assert(found.contains(found[i]));
        assert(screen.text(found[i]) is Some);
    }
    if exists|other: Match|
        found.contains(other) && (#[trigger] screen.text(other) matches Some(text)
            && !text.contains('\n') && !openable.answers.contains_key(text)) {
        let other = choose|other: Match|
            found.contains(other) && (#[trigger] screen.text(other) matches Some(text)
                && !text.contains('\n') && !openable.answers.contains_key(text));
        let i = choose|i: int| 0 <= i < found.len() && found[i] == other;
        assert(is_unknown(openable, texts[i]));
    }
}

/// `text` is asked about: it waits for the next batch, or is part of the batch which was sent last.
spec fn is_asked(openable: OpenableView, sent: nat, text: Seq<char>) -> bool {
    ||| openable.unanswered.contains(text)
    ||| openable.outgoing.len() > sent && openable.outgoing.last().questions.contains(text)
}

proof fn lemma_is_asked(
    openable: OpenableView,
    program: CommandLine,
    found: Seq<Match>,
    texts: Seq<Option<Seq<char>>>,
    now: int,
    i: int,
    text: Seq<char>,
)
    requires
        0 <= i < found.len() <= texts.len(),
        texts[i] == Some(text),
        !text.contains('\n'),
        !openable.answers.contains_key(text) || now - openable.answers[text].1 >= 1_000_000_000,
    ensures
        is_asked(
            retained(openable, program, found, texts, now).openable,
            openable.outgoing.len(),
            text,
        ),
    decreases found.len(),
{
    let front = found.drop_last();
    let last = found.len() - 1;
    let before = retained(openable, program, front, texts, now).openable;
    let after = retained(openable, program, found, texts, now).openable;
    let sent = openable.outgoing.len();
    a_screen_costs_one_batch(openable, program, front, texts, now);
    a_screen_costs_one_batch(openable, program, found, texts, now);
    offered_matches_would_be_opened(openable, program, front, texts, now);
    if let Some(asked) = texts[last] {
        let queue = before.unanswered;
        if i < last {
            lemma_is_asked(openable, program, front, texts, now, i, text);
        } else {
            assert(!before.is_fresh(text, now));
        }
        if after != before {
            let queued = if queue.contains(asked) {
                queue
            } else {
                queue.push(asked)
            };
            if queue.contains(text) {
                let k = choose|k: int| 0 <= k < queue.len() && queue[k] == text;
                assert(queued[k] == text);
            } else if i == last {
                assert(queued[queue.len() as int] == text);
            }
            assert(queue.contains(text) || i == last ==> queued.contains(text));
            if after.outgoing.len() > before.outgoing.len() {
                assert(after.outgoing.last().questions == queued);
            }
        }
    } else {
        lemma_is_asked(openable, program, front, texts, now, i, text);
    }
}

/// A hint for text which a program would open asks about all of its matches at once: every text
/// without line breaks about which nothing is known, or nothing more recent than a second, waits for
/// the next batch or is part of the batch which goes out.
pub proof fn every_match_is_asked_about(
    screen: Screen,
    program: Program,
    hint: &Hint,
    openable: OpenableView,
    now: int,
    bounds: Match,
    text: Seq<char>,
)
    requires
        hint.dan_openable,
        hint.content.regex is Some,
        candidates(screen, hint).contains(bounds),
        screen.text(bounds) == Some(text),
        !text.contains('\n'),
        !openable.answers.contains_key(text) || now - openable.answers[text].1 >= 1_000_000_000,
    ensures
        ({
            let after = offer(screen, Some(program), hint, openable, now).openable;
            ||| after.unanswered.contains(text)
            ||| {
                &&& after.outgoing.len() == openable.outgoing.len() + 1
                &&& after.outgoing.last().questions.contains(text)
                &&& after.outgoing.last().program == program@
            }
        }),
{
    let found = candidates(screen, hint);
    let texts = match_texts(screen, found);
    let i = choose|i: int| 0 <= i < found.len() && found[i] == bounds;
    assert(texts[i] == Some(text));
    lemma_is_asked(openable, program@, found, texts, now, i, text);
    a_screen_costs_one_batch(openable, program@, found, texts, now);
    lemma_batch_program(openable, program@, found, texts, now);
}

proof fn lemma_batch_program(
    openable: OpenableView,
    program: CommandLine,
    found: Seq<Match>,
    texts: Seq<Option<Seq<char>>>,
    now: int,
)
    ensures
        ({
            let after = retained(openable, program, found, texts, now).openable;
            after.outgoing.len() > openable.outgoing.len() ==> after.outgoing.last().program
                == program
        }),
    decreases found.len(),
{
    if found.len() > 0 {
        lemma_batch_program(openable, program, found.drop_last(), texts, now);
    }
}

/// Every match is asked about with its own text.
pub proof fn texts_belong_to_their_matches(screen: Screen, found: Seq<Match>, i: int)
    requires
        0 <= i < found.len(),
    ensures
        match_texts(screen, found).len() == found.len(),
        match_texts(screen, found)[i] == screen.text(found[i]),
{
}

/// `text` is the text of one of the first matches, has no line break, and has no answer which is less
/// than a second old.
spec fn is_in_doubt(
    openable: OpenableView,
    texts: Seq<Option<Seq<char>>>,
    count: nat,
    now: int,
    text: Seq<char>,
) -> bool {
    &&& exists|i: int| 0 <= i < count && #[trigger] texts[i] == Some(text)
    &&& !text.contains('\n')
    &&& !openable.answers.contains_key(text) || now - openable.answers[text].1 >= 1_000_000_000
}

proof fn lemma_only_doubts(
    openable: OpenableView,
    program: CommandLine,
    found: Seq<Match>,
    texts: Seq<Option<Seq<char>>>,
    now: int,
    text: Seq<char>,
)
    requires
        found.len() <= texts.len(),
        is_asked(
            retained(openable, program, found, texts, now).openable,
            openable.outgoing.len(),
            text,
        ),
    ensures
        openable.unanswered.contains(text) || is_in_doubt(
            openable,
            texts,
            found.len(),
            now,
            text,
        ),
    decreases found.len(),
{
    if found.len() > 0 {
        let front = found.drop_last();
        let last = found.len() - 1;
        let sent = openable.outgoing.len();
        let before = retained(openable, program, front, texts, now).openable;
        let after = retained(openable, program, found, texts, now).openable;
        offered_matches_would_be_opened(openable, program, front, texts, now);
        a_screen_costs_one_batch(openable, program, front, texts, now);
        if is_asked(before, sent, text) {
            lemma_only_doubts(openable, program, front, texts, now, text);
            if is_in_doubt(openable, texts, front.len(), now, text) {
                let i = choose|i: int| 0 <= i < front.len() && #[trigger] texts[i] == Some(text);
                assert(0 <= i < found.len() && texts[i] == Some(text));
            }
        } else if let Some(asked) = texts[last] {
            let queue = before.unanswered;
            let queued = if queue.contains(asked) {
                queue
            } else {
                queue.push(asked)
            };
            assert(queued.contains(text) ==> queue.contains(text) || text == asked);
            assert(text == asked);
            assert(texts[last] == Some(text));
        }
    }
}

/// A hint for text which a program would open asks about nothing but its matches, and about none whose
/// text spans a line break or has an answer which is less than a second old: every other question
/// waited before.
pub proof fn nothing_else_is_asked_about(
    screen: Screen,
    program: Program,
    hint: &Hint,
    openable: OpenableView,
    now: int,
    text: Seq<char>,
)
    requires
        hint.dan_openable,
        hint.content.regex is Some,
        ({
            let after = offer(screen, Some(program), hint, openable, now).openable;
            ||| after.unanswered.contains(text)
            ||| after.outgoing.len() > openable.outgoing.len()
                && after.outgoing.last().questions.contains(text)
        }),
        !openable.unanswered.contains(text),
    ensures
        exists|bounds: Match|
            candidates(screen, hint).contains(bounds) && #[trigger] screen.text(bounds) == Some(
                text,
            ),
        !text.contains('\n'),
        !openable.answers.contains_key(text) || now - openable.answers[text].1 >= 1_000_000_000,
{
    let found = candidates(screen, hint);
    let texts = match_texts(screen, found);
    lemma_only_doubts(openable, program@, found, texts, now, text);
    let i = choose|i: int| 0 <= i < found.len() && #[trigger] texts[i] == Some(text);
    assert(found.contains(found[i]));
    assert(screen.text(found[i]) == Some(text));
}

} // verus!
