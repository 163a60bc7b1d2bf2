//! Highlighting of matches under the mouse.
use std::rc::Rc;
use vstd::prelude::*;
use winit::keyboard::ModifiersState;

use crate::config::{openable_command, Hint, HintMouse, Program, UiConfig};
use crate::engine;
use crate::hint::{HintMatch, HintMatchView};
use crate::hyperlinks::hyperlink_at;
use crate::index::Point;
use crate::modifiers;
use crate::openable::{Openable, OpenableView};
use crate::regex::regex_match_at;
use crate::screen::Screen;
use crate::standard;
use crate::terminal::Terminal;

verus! {

/// What is highlighted, and what is known of the questions afterwards.
pub struct Highlight {
    /// Match which is highlighted.
    pub found: Option<HintMatchView>,
    /// What is known of the questions afterwards.
    pub openable: OpenableView,
}

/// The modifiers for `hint` are held down.
///
/// While the application captures the mouse, a hint without modifiers would be indistinguishable from
/// a plain click, so shift is required to disambiguate. A hint with its own modifiers cannot be
/// confused with a plain click and stays available.
pub open spec fn is_available(hint: &Hint, held: ModifiersState, mouse_mode: bool) -> bool {
    match hint.mouse {
        Some(mouse) => {
            let wanted = modifiers::modifier_bits(mouse.mods);
            &&& mouse.enabled
            &&& wanted.subset_of(modifiers::modifier_bits(held))
            &&& !mouse_mode || wanted != Set::<int>::empty() || modifiers::shift_bits().subset_of(
                modifiers::modifier_bits(held),
            )
        },
        None => false,
    }
}

/// What `hint` highlights at a point. Hyperlinks take precedence over text.
pub open spec fn hint_highlight(
    screen: Screen,
    command: Option<Program>,
    hint: Rc<Hint>,
    point: Point,
    openable: OpenableView,
    now: int,
) -> Highlight {
    let nothing = Highlight { found: None, openable };
    let link = if hint.content.hyperlinks {
        screen.link_at(point)
    } else {
        None
    };
    let text = match hint.content.regex {
        Some(pattern) => screen.match_at(point, pattern@, hint.post_processing),
        None => None,
    };
    match (hint.dan_openable, command, link, text) {
        (true, None, _, _) => nothing,
        (_, _, Some((link, bounds)), _) => Highlight {
            found: Some(HintMatchView { bounds, hyperlink: Some(link), hint }),
            openable,
        },
        (_, _, None, None) => nothing,
        (false, _, None, Some(bounds)) => Highlight {
            found: Some(HintMatchView { bounds, hyperlink: None, hint }),
            openable,
        },
        (true, Some(program), None, Some(bounds)) => match screen.text(bounds) {
            Some(text) => Highlight {
                found: if openable.reply(text) == Some(true) {
                    Some(HintMatchView { bounds, hyperlink: None, hint })
                } else {
                    None
                },
                openable: openable.asked(program@, text, now),
            },
            None => nothing,
        },
    }
}

/// What the first of `hints` which has something to highlight at a point highlights there.
pub open spec fn highlight(
    screen: Screen,
    mouse_mode: bool,
    command: Option<Program>,
    hints: Seq<Rc<Hint>>,
    point: Point,
    held: ModifiersState,
    openable: OpenableView,
    now: int,
) -> Highlight
    decreases hints.len(),
{
    if hints.len() == 0 {
        Highlight { found: None, openable }
    } else {
        let first = if is_available(&*hints[0], held, mouse_mode) {
            hint_highlight(screen, command, hints[0], point, openable, now)
        } else {
            Highlight { found: None, openable }
        };
        if first.found is Some {
            first
        } else {
            highlight(
                screen,
                mouse_mode,
                command,
                hints.drop_first(),
                point,
                held,
                first.openable,
                now,
            )
        }
    }
}

/// Check if the modifiers for a hint are held down.
fn modifiers_match(hint: &Hint, mouse_mods: ModifiersState, mouse_mode: bool) -> (available: bool)
    ensures
        available == is_available(hint, mouse_mods, mouse_mode),
{
    match hint.mouse {
        Some(mouse) => mouse.enabled && modifiers::contains(mouse_mods, mouse.mods) && (!mouse_mode
            || !modifiers::is_empty(mouse.mods) || modifiers::contains(
            mouse_mods,
            modifiers::shift(),
        )),
        None => false,
    }
}

/// Check if a hint highlights something at the specified point.
fn hint_highlighted_at(
    term: &Terminal,
    config: &UiConfig,
    hint: &Rc<Hint>,
    point: Point,
    openable: &mut Openable,
    now: u128,
) -> (found: Option<HintMatch>)
    requires
        old(openable).wf(),
        reads_hyperlink(config.hints.dan_openable_command, &**hint) ==> term@.has(point),
    ensures
        final(openable).wf(),
        ({
            let highlight = hint_highlight(
                term@,
                config.hints.dan_openable_command,
                *hint,
                point,
                old(openable)@,
                now as int,
            );
            &&& crate::hint::match_view(found) == highlight.found
            &&& final(openable)@ == highlight.openable
        }),
{
    let program = openable_command(config);
    if hint.dan_openable && program.is_none() {
        return None;
    }
    if hint.content.hyperlinks {
        if let Some((hyperlink, bounds)) = hyperlink_at(term, point) {
            return Some(HintMatch::new(bounds, Some(hyperlink), standard::share(hint)));
        }
    }
    let bounds = match &hint.content.regex {
        Some(pattern) => match regex_match_at(
            term,
            point,
            pattern.as_str(),
            hint.post_processing,
        ) {
            Some(bounds) => bounds,
            None => return None,
        },
        None => return None,
    };
    if hint.dan_openable {
        if let Some(program) = program {
            match term.text(bounds) {
                Some(text) => {
                    if openable.ask_at(program, text.as_str(), now) != Some(true) {
                        return None;
                    }
                },
                None => return None,
            }
        }
    }
    Some(HintMatch::new(bounds, None, standard::share(hint)))
}

/// The application captures the mouse.
pub open spec fn captures_mouse(term: &Terminal) -> bool {
    !engine::mode_bits(term.mode()).disjoint(engine::mouse_bits())
}

/// `hint` reads the hyperlink of the cell under the mouse.
pub open spec fn reads_hyperlink(command: Option<Program>, hint: &Hint) -> bool {
    hint.content.hyperlinks && !(hint.dan_openable && command is None)
}

/// Number of the first of `hints` which highlights something at a point or reads the hyperlink there,
/// from number `from` on. Without one, the number of hints.
pub open spec fn deciding_hint(
    screen: Screen,
    mouse_mode: bool,
    command: Option<Program>,
    hints: Seq<Rc<Hint>>,
    point: Point,
    held: ModifiersState,
    openable: OpenableView,
    from: int,
) -> int
    decreases hints.len() - from,
{
    if from >= hints.len() {
        from
    } else if is_available(&*hints[from], held, mouse_mode) && (reads_hyperlink(
        command,
        &*hints[from],
    ) || hint_highlight(screen, command, hints[from], point, openable, 0).found is Some) {
        from
    } else {
        deciding_hint(screen, mouse_mode, command, hints, point, held, openable, from + 1)
    }
}

/// The hyperlink of a cell is looked for which there is not: no hint in front of one which reads it
/// highlights anything.
pub open spec fn misses_cell(
    term: &Terminal,
    config: &UiConfig,
    point: Point,
    held: ModifiersState,
    openable: OpenableView,
) -> bool {
    let hints = config.hints.enabled@;
    let command = config.hints.dan_openable_command;
    let i = deciding_hint(
        term@,
        captures_mouse(term),
        command,
        hints,
        point,
        held,
        openable,
        0,
    );
    &&& !term@.has(point)
    &&& i < hints.len()
    &&& reads_hyperlink(command, &*hints[i])
}

proof fn lemma_deciding_hint(
    screen: Screen,
    mouse_mode: bool,
    command: Option<Program>,
    hints: Seq<Rc<Hint>>,
    point: Point,
    held: ModifiersState,
    openable: OpenableView,
    from: int,
)
    requires
        0 <= from <= hints.len(),
    ensures
        from <= deciding_hint(
            screen,
            mouse_mode,
            command,
            hints,
            point,
            held,
            openable,
            from,
        ) <= hints.len(),
    decreases hints.len() - from,
{
    if from < hints.len() {
        lemma_deciding_hint(screen, mouse_mode, command, hints, point, held, openable, from + 1);
    }
}

/// What a hint highlights depends on the answers alone.
proof fn lemma_same_highlight(
    screen: Screen,
    command: Option<Program>,
    hint: Rc<Hint>,
    point: Point,
    openable: OpenableView,
    now: int,
    other: OpenableView,
    later: int,
)
    requires
        other.answers == openable.answers,
    ensures
        hint_highlight(screen, command, hint, point, openable, now).found == hint_highlight(
            screen,
            command,
            hint,
            point,
            other,
            later,
        ).found,
        hint_highlight(screen, command, hint, point, openable, now).openable.answers
            == openable.answers,
{
}

/// Check if text at a point is highlighted by a hint which does not read the hyperlink there.
fn highlights_text(
    term: &Terminal,
    config: &UiConfig,
    hint: &Rc<Hint>,
    point: Point,
    openable: &Openable,
) -> (found: bool)
    requires
        openable.wf(),
        !reads_hyperlink(config.hints.dan_openable_command, &**hint),
    ensures
        found == (hint_highlight(
            term@,
            config.hints.dan_openable_command,
            *hint,
            point,
            openable@,
            0,
        ).found is Some),
{
    if hint.dan_openable && openable_command(config).is_none() {
        return false;
    }
    match &hint.content.regex {
        Some(pattern) => match regex_match_at(
            term,
            point,
            pattern.as_str(),
            hint.post_processing,
        ) {
            Some(bounds) => if hint.dan_openable {
                match term.text(bounds) {
                    Some(text) => openable.reply(text.as_str()) == Some(true),
                    None => false,
                }
            } else {
                true
            },
            None => false,
        },
        None => false,
    }
}

/// Check if the hyperlink of a cell would be looked for which there is not.
fn looks_outside(
    term: &Terminal,
    config: &UiConfig,
    point: Point,
    mouse_mods: ModifiersState,
    openable: &Openable,
) -> (outside: bool)
    requires
        openable.wf(),
    ensures
        outside == misses_cell(term, config, point, mouse_mods, openable@),
{
    if term.has_point(point) {
        return false;
    }
    let mouse_mode: bool = engine::mode_intersects(term.term_mode(), engine::mouse_mode());
    let ghost command = config.hints.dan_openable_command;
    let ghost hints = config.hints.enabled@;
    let mut i: usize = 0;
    while i < config.hints.enabled.len()
        invariant
            i <= hints.len(),
            hints == config.hints.enabled@,
            command == config.hints.dan_openable_command,
            openable.wf(),
            !term@.has(point),
            mouse_mode == captures_mouse(term),
            deciding_hint(
                term@,
                mouse_mode,
                command,
                hints,
                point,
                mouse_mods,
                openable@,
                i as int,
            ) == deciding_hint(
                term@,
                captures_mouse(term),
                command,
                hints,
                point,
                mouse_mods,
                openable@,
                0,
            ),
        decreases hints.len() - i,
    {
        let hint = &config.hints.enabled[i];
        if modifiers_match(&**hint, mouse_mods, mouse_mode) {
            if hint.content.hyperlinks && !(hint.dan_openable && openable_command(
                config,
            ).is_none()) {
                return true;
            }
            if highlights_text(term, config, hint, point, openable) {
                return false;
            }
        }
        i = i + 1;
    }
    false
}

/// Check if there is a hint highlighted at the specified point, which may be anywhere.
///
/// There is no answer if the hyperlink of a cell is looked for which there is not.
pub fn try_highlighted_at(
    term: &Terminal,
    config: &UiConfig,
    point: Point,
    mouse_mods: ModifiersState,
    openable: &mut Openable,
) -> (found: Option<Option<HintMatch>>)
    requires
        old(openable).wf(),
    ensures
        final(openable).wf(),
        found is None <==> misses_cell(term, config, point, mouse_mods, old(openable)@),
        found is None ==> final(openable)@ == old(openable)@,
        found matches Some(found) ==> exists|now: u128|
            {
                let highlight = #[trigger] highlight(
                    term@,
                    captures_mouse(term),
                    config.hints.dan_openable_command,
                    config.hints.enabled@,
                    point,
                    mouse_mods,
                    old(openable)@,
                    now as int,
                );
                &&& crate::hint::match_view(found) == highlight.found
                &&& final(openable)@ == highlight.openable
            },
{
    if looks_outside(term, config, point, mouse_mods, openable) {
        None
    } else {
        Some(highlighted_at(term, config, point, mouse_mods, openable))
    }
}

/// Check if there is a hint highlighted at the specified point.
pub fn highlighted_at(
    term: &Terminal,
    config: &UiConfig,
    point: Point,
    mouse_mods: ModifiersState,
    openable: &mut Openable,
) -> (found: Option<HintMatch>)
    requires
        old(openable).wf(),
        !misses_cell(term, config, point, mouse_mods, old(openable)@),
    ensures
        final(openable).wf(),
        exists|now: u128|
            {
                let highlight = #[trigger] highlight(
                    term@,
                    captures_mouse(term),
                    config.hints.dan_openable_command,
                    config.hints.enabled@,
                    point,
                    mouse_mods,
                    old(openable)@,
                    now as int,
                );
                &&& crate::hint::match_view(found) == highlight.found
                &&& final(openable)@ == highlight.openable
            },
{
    let now: u128 = openable.clock();
    highlighted_at_time(term, config, point, mouse_mods, openable, now)
}

/// Check if there is a hint highlighted at the specified point, at `now`.
pub fn highlighted_at_time(
    term: &Terminal,
    config: &UiConfig,
    point: Point,
    mouse_mods: ModifiersState,
    openable: &mut Openable,
    now: u128,
) -> (found: Option<HintMatch>)
    requires
        old(openable).wf(),
        !misses_cell(term, config, point, mouse_mods, old(openable)@),
    ensures
        final(openable).wf(),
        ({
            let highlight = highlight(
                term@,
                captures_mouse(term),
                config.hints.dan_openable_command,
                config.hints.enabled@,
                point,
                mouse_mods,
                old(openable)@,
                now as int,
            );
            &&& crate::hint::match_view(found) == highlight.found
            &&& final(openable)@ == highlight.openable
        }),
{
    let mouse_mode: bool = engine::mode_intersects(term.term_mode(), engine::mouse_mode());
    let ghost command = config.hints.dan_openable_command;
    let ghost hints = config.hints.enabled@;
    let ghost expected = highlight(
        term@,
        mouse_mode,
        command,
        hints,
        point,
        mouse_mods,
        old(openable)@,
        now as int,
    );
    let ghost deciding = deciding_hint(
        term@,
        mouse_mode,
        command,
        hints,
        point,
        mouse_mods,
        old(openable)@,
        0,
    );
    let mut i: usize = 0;
    proof {
        assert(hints.skip(0) =~= hints);
        lemma_deciding_hint(
            term@,
            mouse_mode,
            command,
            hints,
            point,
            mouse_mods,
            old(openable)@,
            0,
        );
    }
    while i < config.hints.enabled.len()
        invariant
            i <= hints.len(),
            hints == config.hints.enabled@,
            command == config.hints.dan_openable_command,
            openable.wf(),
            openable@.answers == old(openable)@.answers,
            term@.has(point) || deciding == hints.len() || !reads_hyperlink(
                command,
                &*hints[deciding],
            ),
            0 <= deciding <= hints.len(),
            term@.has(point) || deciding == deciding_hint(
                term@,
                mouse_mode,
                command,
                hints,
                point,
                mouse_mods,
                old(openable)@,
                i as int,
            ),
            mouse_mode == captures_mouse(term),
            expected == highlight(
                term@,
                captures_mouse(term),
                command,
                hints,
                point,
                mouse_mods,
                old(openable)@,
                now as int,
            ),
            expected == highlight(
                term@,
                mouse_mode,
                command,
                hints.skip(i as int),
                point,
                mouse_mods,
                openable@,
                now as int,
            ),
        decreases hints.len() - i,
    {
        proof {
            assert(hints.skip(i as int)[0] == hints[i as int]);
            assert(hints.skip(i as int).drop_first() =~= hints.skip(i + 1));
            lemma_same_highlight(
                term@,
                command,
                hints[i as int],
                point,
                openable@,
                now as int,
                old(openable)@,
                0,
            );
        }
        let hint = &config.hints.enabled[i];

        // Check if all required modifiers are pressed.
        if modifiers_match(&**hint, mouse_mods, mouse_mode) {
            let found = hint_highlighted_at(term, config, hint, point, openable, now);
            if found.is_some() {
                return found;
            }
        }
        i = i + 1;
    }
    None
}

/// Applications which capture the mouse take no click away from a hint with modifiers of its own: it
/// is available exactly as without them.
pub proof fn hints_with_modifiers_stay_available(hint: &Hint, mouse: HintMouse, held: ModifiersState)
    requires
        hint.mouse == Some(mouse),
        modifiers::modifier_bits(mouse.mods) != Set::<int>::empty(),
    ensures
        is_available(hint, held, true) == is_available(hint, held, false),
{
}

/// A hint without modifiers of its own is available without any modifier, except while an
/// application captures the mouse: it needs shift then.
pub proof fn hints_without_modifiers_need_shift(hint: &Hint, mouse: HintMouse, held: ModifiersState)
    requires
        hint.mouse == Some(mouse),
        mouse.enabled,
        modifiers::modifier_bits(mouse.mods) == Set::<int>::empty(),
    ensures
        is_available(hint, held, false),
        is_available(hint, held, true) == modifiers::shift_bits().subset_of(
            modifiers::modifier_bits(held),
        ),
{
}

/// What is highlighted belongs to one of the hints which are available, and covers the point. It is
/// the hyperlink there, or one of the matches which the hint is about.
pub proof fn highlights_cover_the_point(
    screen: Screen,
    mouse_mode: bool,
    command: Option<Program>,
    hints: Seq<Rc<Hint>>,
    point: Point,
    held: ModifiersState,
    openable: OpenableView,
    now: int,
)
    requires
        screen.wf(),
        screen.has(point),
    ensures
        highlight(
            screen,
            mouse_mode,
            command,
            hints,
            point,
            held,
            openable,
            now,
        ).found matches Some(found) ==> {
            &&& hints.contains(found.hint)
            &&& is_available(&*found.hint, held, mouse_mode)
            &&& found.bounds.covers(point)
            &&& match found.hyperlink {
                Some(link) => {
                    &&& found.hint.content.hyperlinks
                    &&& screen.link_at(point) == Some((link, found.bounds))
                },
                None => crate::offer::candidates(screen, &*found.hint).contains(found.bounds),
            }
        },
    decreases hints.len(),
{
    if hints.len() > 0 {
        let first = if is_available(&*hints[0], held, mouse_mode) {
            hint_highlight(screen, command, hints[0], point, openable, now)
        } else {
            Highlight { found: None, openable }
        };
        match first.found {
            Some(found) => {
                assert(hints[0] == found.hint);
                if found.hyperlink is Some {
                    crate::hyperlinks::link_range_is_shared(screen, point, point);
                } else {
                    crate::offer::match_at_is_a_candidate(screen, &*hints[0], point);
                }
            },
            None => {
                let rest = hints.drop_first();
                highlights_cover_the_point(
                    screen,
                    mouse_mode,
                    command,
                    rest,
                    point,
                    held,
                    first.openable,
                    now,
                );
                let total = highlight(
                    screen,
                    mouse_mode,
                    command,
                    hints,
                    point,
                    held,
                    openable,
                    now,
                );
                if let Some(found) = total.found {
                    let k = choose|k: int| 0 <= k < rest.len() && rest[k] == found.hint;
                    assert(hints[k + 1] == found.hint);
                }
            },
        }
    }
}

/// A hint for what a program would open highlights text only if the program is known to open it, and
/// nothing at all without a program.
pub proof fn openable_hints_highlight_what_would_be_opened(
    screen: Screen,
    command: Option<Program>,
    hint: Rc<Hint>,
    point: Point,
    openable: OpenableView,
    now: int,
)
    requires
        hint.dan_openable,
    ensures
        hint_highlight(screen, command, hint, point, openable, now).found matches Some(found) ==> {
            &&& command is Some
            &&& found.hyperlink is None ==> crate::offer::would_open(
                openable,
                screen.text(found.bounds),
            )
        },
        hint_highlight(screen, command, hint, point, openable, now).openable.answers
            == openable.answers,
{
}

/// A hint is available only if its binding is enabled and all of its modifiers are held down, whatever
/// the application does. Nothing more is needed while the application leaves the mouse alone, with any
/// modifier of its own, or while shift, the modifier with the bit 2, is held down.
pub proof fn a_hint_needs_its_binding(
    hint: &Hint,
    mouse: HintMouse,
    held: ModifiersState,
    mouse_mode: bool,
)
    ensures
        hint.mouse is None ==> !is_available(hint, held, mouse_mode),
        hint.mouse == Some(mouse) && !mouse.enabled ==> !is_available(hint, held, mouse_mode),
        hint.mouse == Some(mouse) && (exists|bit: int|
            modifiers::modifier_bits(mouse.mods).contains(bit) && !modifiers::modifier_bits(
                held,
            ).contains(bit)) ==> !is_available(hint, held, mouse_mode),
        hint.mouse == Some(mouse) && mouse_mode && (forall|bit: int|
            !modifiers::modifier_bits(mouse.mods).contains(bit)) && !modifiers::modifier_bits(
            held,
        ).contains(2) ==> !is_available(hint, held, mouse_mode),
        hint.mouse == Some(mouse) && mouse.enabled && (forall|bit: int|
            modifiers::modifier_bits(mouse.mods).contains(bit) ==> modifiers::modifier_bits(
                held,
            ).contains(bit)) && (!mouse_mode || modifiers::modifier_bits(held).contains(2)
            || exists|bit: int| modifiers::modifier_bits(mouse.mods).contains(bit))
            ==> is_available(hint, held, mouse_mode),
{
    let wanted = modifiers::modifier_bits(mouse.mods);
    let down = modifiers::modifier_bits(held);
    if forall|bit: int| !wanted.contains(bit) {
        assert(wanted =~= Set::<int>::empty());
    }
    if exists|bit: int| wanted.contains(bit) {
        let bit = choose|bit: int| wanted.contains(bit);
        assert(!Set::<int>::empty().contains(bit));
    }
    assert(modifiers::shift_bits().contains(2));
    if down.contains(2) {
        assert(modifiers::shift_bits().subset_of(down));
    }
    if exists|bit: int| wanted.contains(bit) && !down.contains(bit) {
        assert(!wanted.subset_of(down));
    }
    if forall|bit: int| wanted.contains(bit) ==> down.contains(bit) {
        assert(wanted.subset_of(down));
    }
}

/// The application captures the mouse exactly if one of the modes with the bits 3, 6 and 13 is on,
/// which report clicks, motion and drags.
pub proof fn mouse_modes_capture_the_mouse(term: &Terminal)
    ensures
        captures_mouse(term) <==> {
            ||| engine::mode_bits(term.mode()).contains(3)
            ||| engine::mode_bits(term.mode()).contains(6)
            ||| engine::mode_bits(term.mode()).contains(13)
        },
{
    let bits = engine::mode_bits(term.mode());
    let mouse = engine::mouse_bits();
    assert(mouse.contains(3) && mouse.contains(6) && mouse.contains(13));
    if captures_mouse(term) {
        let bit = choose|bit: int| bits.contains(bit) && mouse.contains(bit);
        assert(bit == 3 || bit == 6 || bit == 13);
    }
}

/// What is highlighted belongs to a hint whose binding is enabled and whose modifiers are all held
/// down.
pub proof fn highlights_need_their_modifiers(
    screen: Screen,
    mouse_mode: bool,
    command: Option<Program>,
    hints: Seq<Rc<Hint>>,
    point: Point,
    held: ModifiersState,
    openable: OpenableView,
    now: int,
)
    ensures
        highlight(
            screen,
            mouse_mode,
            command,
            hints,
            point,
            held,
            openable,
            now,
        ).found matches Some(found) ==> {
            &&& hints.contains(found.hint)
            &&& found.hint.mouse matches Some(mouse)
            &&& mouse.enabled
            &&& modifiers::modifier_bits(mouse.mods).subset_of(modifiers::modifier_bits(held))
        },
    decreases hints.len(),
{
    if hints.len() > 0 {
        let first = if is_available(&*hints[0], held, mouse_mode) {
            hint_highlight(screen, command, hints[0], point, openable, now)
        } else {
            Highlight { found: None, openable }
        };
        if first.found is Some {
            assert(hints.contains(hints[0]));
        } else {
            let rest = hints.drop_first();
            highlights_need_their_modifiers(
                screen,
                mouse_mode,
                command,
                rest,
                point,
                held,
                first.openable,
                now,
            );
            let total = highlight(screen, mouse_mode, command, hints, point, held, openable, now);
            if let Some(found) = total.found {
                let k = choose|k: int| 0 <= k < rest.len() && rest[k] == found.hint;
                assert(hints[k + 1] == found.hint);
            }
        }
    }
}

/// The first hint which is available and has something to highlight decides: what it highlights is
/// what is highlighted.
pub proof fn the_first_hint_decides(
    screen: Screen,
    mouse_mode: bool,
    command: Option<Program>,
    hints: Seq<Rc<Hint>>,
    point: Point,
    held: ModifiersState,
    openable: OpenableView,
    now: int,
    i: int,
)
    requires
        0 <= i < hints.len(),
        is_available(&*hints[i], held, mouse_mode),
        hint_highlight(screen, command, hints[i], point, openable, now).found is Some,
        forall|j: int|
            0 <= j < i ==> !is_available(&*(#[trigger] hints[j]), held, mouse_mode)
                || hint_highlight(screen, command, hints[j], point, openable, now).found is None,
    ensures
        highlight(screen, mouse_mode, command, hints, point, held, openable, now).found
            == hint_highlight(screen, command, hints[i], point, openable, now).found,
    decreases i,
{
    if i > 0 {
        let first = if is_available(&*hints[0], held, mouse_mode) {
            hint_highlight(screen, command, hints[0], point, openable, now)
        } else {
            Highlight { found: None, openable }
        };
        assert(first.found is None);
        let rest = hints.drop_first();
        let after = first.openable;
        lemma_same_highlight(screen, command, hints[0], point, openable, now, openable, now);
        lemma_same_highlight(screen, command, hints[i], point, openable, now, after, now);
        assert forall|j: int| 0 <= j < i - 1 implies !is_available(
            &*(#[trigger] rest[j]),
            held,
            mouse_mode,
        ) || hint_highlight(screen, command, rest[j], point, after, now).found is None by {
            assert(rest[j] == hints[j + 1]);
            lemma_same_highlight(screen, command, hints[j + 1], point, openable, now, after, now);
        }
        the_first_hint_decides(
            screen,
            mouse_mode,
            command,
            rest,
            point,
            held,
            after,
            now,
            i - 1,
        );
    }
}

/// Nothing is highlighted if no hint is both available and has something to highlight.
pub proof fn nothing_else_is_highlighted(
    screen: Screen,
    mouse_mode: bool,
    command: Option<Program>,
    hints: Seq<Rc<Hint>>,
    point: Point,
    held: ModifiersState,
    openable: OpenableView,
    now: int,
)
    requires
        forall|j: int|
            0 <= j < hints.len() ==> !is_available(&*(#[trigger] hints[j]), held, mouse_mode)
                || hint_highlight(screen, command, hints[j], point, openable, now).found is None,
    ensures
        highlight(screen, mouse_mode, command, hints, point, held, openable, now).found is None,
    decreases hints.len(),
{
    if hints.len() > 0 {
        let first = if is_available(&*hints[0], held, mouse_mode) {
            hint_highlight(screen, command, hints[0], point, openable, now)
        } else {
            Highlight { found: None, openable }
        };
        assert(first.found is None);
        let rest = hints.drop_first();
        let after = first.openable;
        lemma_same_highlight(screen, command, hints[0], point, openable, now, openable, now);
        assert forall|j: int| 0 <= j < rest.len() implies !is_available(
            &*(#[trigger] rest[j]),
            held,
            mouse_mode,
        ) || hint_highlight(screen, command, rest[j], point, after, now).found is None by {
            assert(rest[j] == hints[j + 1]);
            lemma_same_highlight(screen, command, hints[j + 1], point, openable, now, after, now);
        }
        nothing_else_is_highlighted(
            screen,
            mouse_mode,
            command,
            rest,
            point,
            held,
            after,
            now,
        );
    }
}

/// A hint for hyperlinks highlights the one under the mouse, all of it, before any text, and asks
/// nothing about it.
pub proof fn hyperlinks_are_highlighted(
    screen: Screen,
    command: Option<Program>,
    hint: Rc<Hint>,
    point: Point,
    openable: OpenableView,
    now: int,
)
    requires
        hint.content.hyperlinks,
        screen.link_at(point) is Some,
        !hint.dan_openable || command is Some,
    ensures
        hint_highlight(screen, command, hint, point, openable, now).found == Some(
            (HintMatchView {
                bounds: screen.link_at(point).unwrap().1,
                hyperlink: Some(screen.link_at(point).unwrap().0),
                hint,
            }),
        ),
        hint_highlight(screen, command, hint, point, openable, now).openable == openable,
{
}

/// Where there is no hyperlink which it is about, a hint for text highlights the match under the
/// mouse. If it leaves this to a program, the answer about the text must be known and be yes.
pub proof fn matches_are_highlighted(
    screen: Screen,
    command: Option<Program>,
    hint: Rc<Hint>,
    point: Point,
    openable: OpenableView,
    now: int,
    pattern: Seq<char>,
    bounds: crate::index::Match,
)
    requires
        !hint.content.hyperlinks || screen.link_at(point) is None,
        hint.content.regex is Some,
        hint.content.regex.unwrap()@ == pattern,
        screen.match_at(point, pattern, hint.post_processing) == Some(bounds),
        !hint.dan_openable || command is Some,
    ensures
        hint_highlight(screen, command, hint, point, openable, now).found
            == if !hint.dan_openable || (screen.text(bounds) matches Some(text) && !text.contains(
            '\n',
        ) && openable.answers.contains_key(text) && openable.answers[text].0) {
            Some((HintMatchView { bounds, hyperlink: None, hint }))
        } else {
            None
        },
        !hint.dan_openable ==> hint_highlight(
            screen,
            command,
            hint,
            point,
            openable,
            now,
        ).openable == openable,
{
}

/// Text under the mouse is asked about as soon as a hint leaves it to a program, if nothing is known
/// about it, or nothing more recent than a second: it waits for the next batch, or goes out.
pub proof fn text_under_the_mouse_is_asked_about(
    screen: Screen,
    program: Program,
    hint: Rc<Hint>,
    point: Point,
    openable: OpenableView,
    now: int,
    pattern: Seq<char>,
    bounds: crate::index::Match,
    text: Seq<char>,
)
    requires
        hint.dan_openable,
        !hint.content.hyperlinks || screen.link_at(point) is None,
        hint.content.regex is Some,
        hint.content.regex.unwrap()@ == pattern,
        screen.match_at(point, pattern, hint.post_processing) == Some(bounds),
        screen.text(bounds) == Some(text),
        !text.contains('\n'),
        !openable.answers.contains_key(text) || now - openable.answers[text].1 >= 1_000_000_000,
    ensures
        ({
            let after = hint_highlight(
                screen,
                Some(program),
                hint,
                point,
                openable,
                now,
            ).openable;
            ||| after.unanswered.contains(text)
            ||| {
                &&& after.outgoing.len() == openable.outgoing.len() + 1
                &&& after.outgoing.last().questions.contains(text)
                &&& after.outgoing.last().program == program@
            }
        }),
{
    let queue = openable.unanswered;
    assert(queue.push(text)[queue.len() as int] == text);
}

proof fn lemma_decides(
    screen: Screen,
    mouse_mode: bool,
    command: Option<Program>,
    hints: Seq<Rc<Hint>>,
    point: Point,
    held: ModifiersState,
    openable: OpenableView,
    from: int,
    i: int,
)
    requires
        0 <= from <= i <= hints.len(),
        i < hints.len() ==> is_available(&*hints[i], held, mouse_mode) && (reads_hyperlink(
            command,
            &*hints[i],
        ) || hint_highlight(screen, command, hints[i], point, openable, 0).found is Some),
        forall|j: int|
            from <= j < i ==> !is_available(&*(#[trigger] hints[j]), held, mouse_mode) || (
            !reads_hyperlink(command, &*hints[j]) && hint_highlight(
                screen,
                command,
                hints[j],
                point,
                openable,
                0,
            ).found is None),
    ensures
        deciding_hint(screen, mouse_mode, command, hints, point, held, openable, from) == i,
    decreases i - from,
{
    if from < i {
        lemma_decides(screen, mouse_mode, command, hints, point, held, openable, from + 1, i);
    }
}

/// The hyperlink of a cell is looked for which there is not, exactly if there is no such cell, hint
/// `i` is available, is about hyperlinks and does not lack a program, and no hint in front of it
/// decides before.
pub proof fn a_cell_is_missed_by_the_first_hint(
    term: &Terminal,
    config: &UiConfig,
    point: Point,
    held: ModifiersState,
    openable: OpenableView,
    hints: Seq<Rc<Hint>>,
    command: Option<Program>,
    i: int,
)
    requires
        hints == config.hints.enabled@,
        command == config.hints.dan_openable_command,
        0 <= i <= hints.len(),
        i < hints.len() ==> is_available(&*hints[i], held, captures_mouse(term)) && ((
        hints[i].content.hyperlinks && (!hints[i].dan_openable || command is Some))
            || hint_highlight(term@, command, hints[i], point, openable, 0).found is Some),
        forall|j: int|
            0 <= j < i ==> !is_available(&*(#[trigger] hints[j]), held, captures_mouse(term)) || ((
            !hints[j].content.hyperlinks || (hints[j].dan_openable && command is None))
                && hint_highlight(term@, command, hints[j], point, openable, 0).found is None),
    ensures
        misses_cell(term, config, point, held, openable) <==> {
            &&& !term@.has(point)
            &&& i < hints.len()
            &&& hints[i].content.hyperlinks
            &&& !hints[i].dan_openable || command is Some
        },
{
    lemma_decides(
        term@,
        captures_mouse(term),
        command,
        hints,
        point,
        held,
        openable,
        0,
        i,
    );
}

/// Without a match under the mouse, without a text of this match, or without a program for a hint which
/// leaves it to one, a hint highlights nothing and asks nothing.
pub proof fn nothing_is_asked_without_a_match(
    screen: Screen,
    command: Option<Program>,
    hint: Rc<Hint>,
    point: Point,
    openable: OpenableView,
    now: int,
    pattern: Seq<char>,
)
    requires
        hint.content.regex is Some ==> hint.content.regex.unwrap()@ == pattern,
        (hint.dan_openable && command is None) || ((!hint.content.hyperlinks || screen.link_at(
            point,
        ) is None) && (hint.content.regex is None || match screen.match_at(
            point,
            pattern,
            hint.post_processing,
        ) {
            Some(bounds) => hint.dan_openable && screen.text(bounds) is None,
            None => true,
        })),
    ensures
        hint_highlight(screen, command, hint, point, openable, now).found is None,
        hint_highlight(screen, command, hint, point, openable, now).openable == openable,
{
}

/// Hints are tried one after another: with more hints behind others, those are tried if the others
/// highlight nothing, with what is known from asking for the others. A hint on its own is tried
/// exactly if it is available.
pub proof fn hints_are_tried_in_order(
    screen: Screen,
    mouse_mode: bool,
    command: Option<Program>,
    hints: Seq<Rc<Hint>>,
    more: Seq<Rc<Hint>>,
    hint: Rc<Hint>,
    point: Point,
    held: ModifiersState,
    openable: OpenableView,
    now: int,
)
    ensures
        ({
            let all = hints + more;
            let first = highlight(screen, mouse_mode, command, hints, point, held, openable, now);
            highlight(screen, mouse_mode, command, all, point, held, openable, now)
                == if first.found is Some {
                first
            } else {
                highlight(
                    screen,
                    mouse_mode,
                    command,
                    more,
                    point,
                    held,
                    first.openable,
                    now,
                )
            }
        }),
        highlight(screen, mouse_mode, command, seq![hint], point, held, openable, now)
            == if is_available(&*hint, held, mouse_mode) {
            hint_highlight(screen, command, hint, point, openable, now)
        } else {
            (Highlight { found: None, openable })
        },
    decreases hints.len(),
{
    let all = hints + more;
    reveal_with_fuel(highlight, 2);
    assert(seq![hint].drop_first() =~= Seq::empty());
    if hints.len() > 0 {
        let first = if is_available(&*hints[0], held, mouse_mode) {
            hint_highlight(screen, command, hints[0], point, openable, now)
        } else {
            Highlight { found: None, openable }
        };
        assert(all[0] == hints[0]);
        assert(all.drop_first() =~= hints.drop_first() + more);
        hints_are_tried_in_order(
            screen,
            mouse_mode,
            command,
            hints.drop_first(),
            more,
            hint,
            point,
            held,
            first.openable,
            now,
        );
    } else {
        assert(all =~= more);
    }
}

/// Text under the mouse is not asked about if it spans a line break, or if the answer about it is less
/// than a second old: nothing changes then.
pub proof fn settled_text_is_not_asked_about(
    screen: Screen,
    program: Program,
    hint: Rc<Hint>,
    point: Point,
    openable: OpenableView,
    now: int,
    pattern: Seq<char>,
    bounds: crate::index::Match,
    text: Seq<char>,
)
    requires
        hint.content.regex is Some,
        hint.content.regex.unwrap()@ == pattern,
        screen.match_at(point, pattern, hint.post_processing) == Some(bounds),
        screen.text(bounds) == Some(text),
        text.contains('\n') || (openable.answers.contains_key(text) && now
            - openable.answers[text].1 < 1_000_000_000),
    ensures
        hint_highlight(screen, Some(program), hint, point, openable, now).openable == openable,
{
}

} // verus!
