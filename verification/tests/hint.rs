use std::rc::Rc;

use alacritty_terminal::event::VoidListener;
use alacritty_terminal::grid::Dimensions;
use alacritty_terminal::index::{self, Column, Line};
use alacritty_terminal::term::cell::{Flags, Hyperlink as CellHyperlink};
use alacritty_terminal::term::search::{RegexIter, RegexSearch};
use alacritty_terminal::term::test::mock_term;
use alacritty_terminal::term::{Term, TermMode};
use alacritty_terminal::vte::ansi::{Handler, NamedPrivateMode};
use winit::keyboard::ModifiersState;

use hints::arrange::arrange;
use hints::config::{
    openable_command, Hint, HintAction, HintContent, HintInternalAction, HintMouse, Hints, Program,
    UiConfig,
};
use hints::highlight::{highlighted_at, highlighted_at_time, try_highlighted_at};
use hints::hyperlinks::{hyperlink_at, visible_unique_hyperlinks_iter};
use hints::index::{Match, Point};
use hints::labels::HintLabels;
use hints::openable::{EventProxy, Openable};
use hints::post_process::{hint_post_processing, HintPostProcessor};
use hints::regex::{regex_match_at, visible_regex_match_iter};
use hints::state::HintState;
use hints::terminal::{Cell, Hyperlink, Terminal};

const ALPHABET: &str = "jfkdls;ahgurieowpq";

const URL_REGEX: &str = "(ipfs:|ipns:|magnet:|mailto:|gemini://|gopher://|https://|http://|news:|file:|git://|ssh:|ftp://)[^\u{0000}-\u{001F}\u{007F}-\u{009F}<>\"\\s{-}\\^⟨⟩`\\\\]+";

/// Tab stops in every eighth column.
fn tab_stops(columns: usize) -> Vec<bool> {
    (0..columns).map(|column| column % 8 == 0).collect()
}

/// Make a terminal without modes.
fn plain(rows: Vec<Vec<Cell>>, screen_lines: usize, display_offset: usize) -> Terminal {
    let tabs = tab_stops(rows[0].len());
    Terminal::new(rows, screen_lines, display_offset, tabs, TermMode::default()).unwrap()
}

/// Take over the contents of a terminal.
fn terminal(term: &Term<VoidListener>) -> Terminal {
    let grid = term.grid();
    let mut rows = Vec::new();
    let mut line = grid.topmost_line();
    while line <= grid.bottommost_line() {
        let mut row = Vec::new();
        for column in 0..grid.columns() {
            let cell = &grid[line][Column(column)];
            row.push(Cell {
                c: cell.c,
                zerowidth: cell.zerowidth().unwrap_or_default().to_vec(),
                wrapline: cell.flags.contains(Flags::WRAPLINE),
                wide: cell.flags.contains(Flags::WIDE_CHAR),
                wide_spacer: cell.flags.contains(Flags::WIDE_CHAR_SPACER),
                leading_spacer: cell.flags.contains(Flags::LEADING_WIDE_CHAR_SPACER),
                hyperlink: cell
                    .hyperlink()
                    .map(|link| Hyperlink::new(link.id().into(), link.uri().into())),
            });
        }
        rows.push(row);
        line = line + 1;
    }
    let tabs = tab_stops(grid.columns());
    Terminal::new(rows, grid.screen_lines(), grid.display_offset(), tabs, *term.mode()).unwrap()
}

fn point(line: i32, column: usize) -> Point {
    Point::new(line, column)
}

/// A match in one line.
fn range(line: i32, start: usize, end: usize) -> Match {
    Match::new(point(line, start), point(line, end))
}

#[test]
fn hint_label_generation() {
    let mut generator = HintLabels::new("0123", 50);

    assert_eq!(generator.next(), vec!['0']);
    assert_eq!(generator.next(), vec!['1']);

    assert_eq!(generator.next(), vec!['2', '0']);
    assert_eq!(generator.next(), vec!['2', '1']);
    assert_eq!(generator.next(), vec!['3', '0']);
    assert_eq!(generator.next(), vec!['3', '1']);

    assert_eq!(generator.next(), vec!['2', '2', '0']);
    assert_eq!(generator.next(), vec!['2', '2', '1']);
    assert_eq!(generator.next(), vec!['2', '3', '0']);
    assert_eq!(generator.next(), vec!['2', '3', '1']);
    assert_eq!(generator.next(), vec!['3', '2', '0']);
    assert_eq!(generator.next(), vec!['3', '2', '1']);
    assert_eq!(generator.next(), vec!['3', '3', '0']);
    assert_eq!(generator.next(), vec!['3', '3', '1']);

    assert_eq!(generator.next(), vec!['2', '2', '2', '0']);
    assert_eq!(generator.next(), vec!['2', '2', '2', '1']);
    assert_eq!(generator.next(), vec!['2', '2', '3', '0']);
    assert_eq!(generator.next(), vec!['2', '2', '3', '1']);
    assert_eq!(generator.next(), vec!['2', '3', '2', '0']);
    assert_eq!(generator.next(), vec!['2', '3', '2', '1']);
    assert_eq!(generator.next(), vec!['2', '3', '3', '0']);
    assert_eq!(generator.next(), vec!['2', '3', '3', '1']);
    assert_eq!(generator.next(), vec!['3', '2', '2', '0']);
    assert_eq!(generator.next(), vec!['3', '2', '2', '1']);
    assert_eq!(generator.next(), vec!['3', '2', '3', '0']);
    assert_eq!(generator.next(), vec!['3', '2', '3', '1']);
    assert_eq!(generator.next(), vec!['3', '3', '2', '0']);
    assert_eq!(generator.next(), vec!['3', '3', '2', '1']);
    assert_eq!(generator.next(), vec!['3', '3', '3', '0']);
    assert_eq!(generator.next(), vec!['3', '3', '3', '1']);
}

#[test]
fn closed_bracket_does_not_result_in_infinite_iterator() {
    let term = terminal(&mock_term(" ) "));

    let mut count = 0;
    let mut post_processor =
        HintPostProcessor::new(&term, "[^/ ]", Match::new(point(0, 1), point(0, 1)));
    if post_processor.next().is_some() {
        count += 1;
    }

    assert_eq!(count, 0);
}

#[test]
fn collect_unique_hyperlinks() {
    let mut term = mock_term("000\r\n111");
    term.goto(0, 0);

    let hyperlink_foo = CellHyperlink::new(Some("1"), String::from("foo"));
    let hyperlink_bar = CellHyperlink::new(Some("2"), String::from("bar"));

    // Create 2 hyperlinks on the first line.
    term.set_hyperlink(Some(hyperlink_foo.clone().into()));
    term.input('b');
    term.input('a');
    term.set_hyperlink(Some(hyperlink_bar.clone().into()));
    term.input('r');
    term.set_hyperlink(Some(hyperlink_foo.clone().into()));
    term.goto(1, 0);

    // Ditto for the second line.
    term.set_hyperlink(Some(hyperlink_foo.into()));
    term.input('b');
    term.input('a');
    term.set_hyperlink(Some(hyperlink_bar.into()));
    term.input('r');
    term.set_hyperlink(None);

    let mut unique_hyperlinks = visible_unique_hyperlinks_iter(&terminal(&term)).into_iter();
    assert_eq!(Some(Match::new(point(0, 0), point(0, 1))), unique_hyperlinks.next());
    assert_eq!(Some(Match::new(point(0, 2), point(0, 2))), unique_hyperlinks.next());
    assert_eq!(None, unique_hyperlinks.next());
}

#[test]
fn mouse_mode_only_reserves_shift_for_modifierless_hints() {
    let mut term = mock_term("https://example.org");
    term.set_private_mode(NamedPrivateMode::ReportMouseClicks.into());
    let term = terminal(&term);
    let point = Point::new(0, 0);

    // A hint with its own modifiers cannot be confused with a plain click, so it stays available
    // while the application captures the mouse.
    let config = config_with_hint_mods(ModifiersState::CONTROL);
    assert!(highlighted_at(
        &term,
        &config,
        point,
        ModifiersState::CONTROL,
        &mut Openable::default()
    )
    .is_some());

    // A hint without modifiers would swallow every click, so shift is still required.
    let config = config_with_hint_mods(ModifiersState::empty());
    assert!(highlighted_at(
        &term,
        &config,
        point,
        ModifiersState::empty(),
        &mut Openable::default()
    )
    .is_none());
    assert!(highlighted_at(
        &term,
        &config,
        point,
        ModifiersState::SHIFT,
        &mut Openable::default()
    )
    .is_some());
}

#[test]
fn modifierless_hints_need_no_shift_outside_mouse_mode() {
    let term = terminal(&mock_term("https://example.org"));
    let point = Point::new(0, 0);

    let config = config_with_hint_mods(ModifiersState::empty());
    assert!(highlighted_at(
        &term,
        &config,
        point,
        ModifiersState::empty(),
        &mut Openable::default()
    )
    .is_some());
}

/// Build a config whose only hint is for hyperlinks and web addresses, and requires the given mouse
/// modifiers.
fn config_with_hint_mods(mods: ModifiersState) -> UiConfig {
    config_with(Hint {
        content: HintContent { regex: Some(URL_REGEX.into()), hyperlinks: true },
        action: HintAction::Command(Program::Just("xdg-open".into())),
        post_processing: true,
        persist: false,
        dan_openable: false,
        mouse: Some(HintMouse { enabled: true, mods }),
    })
}

/// Build a config with a single hint.
fn config_with(hint: Hint) -> UiConfig {
    UiConfig {
        hints: Hints {
            alphabet: ALPHABET.into(),
            enabled: vec![Rc::new(hint)],
            dan_openable_command: None,
        },
    }
}

/// A hint for text which is selected with the keyboard.
fn text_hint(regex: &str) -> Hint {
    Hint {
        content: HintContent { regex: Some(regex.into()), hyperlinks: false },
        action: HintAction::Action(HintInternalAction::Copy),
        post_processing: false,
        persist: false,
        dan_openable: false,
        mouse: None,
    }
}

#[test]
fn openable_hints_highlight_only_what_the_program_would_open() {
    let point = Point::new(0, 0);
    let config = config_with_openable_hint();
    let mut openable = Openable::default();
    openable.answer(vec![
        ("src/main.rs:91-95".into(), true),
        ("operator_commands.go:245-249.".into(), false),
    ]);

    let term = terminal(&mock_term("src/main.rs:91-95"));
    assert!(
        highlighted_at(&term, &config, point, ModifiersState::CONTROL, &mut openable).is_some()
    );

    let term = terminal(&mock_term("operator_commands.go:245-249."));
    assert!(
        highlighted_at(&term, &config, point, ModifiersState::CONTROL, &mut openable).is_none()
    );
}

#[test]
fn openable_hints_highlight_nothing_until_the_program_answers() {
    let point = Point::new(0, 0);
    let config = config_with_openable_hint();
    let mut openable = Openable::default();

    let term = terminal(&mock_term("src/main.rs:91-95"));
    assert!(
        highlighted_at(&term, &config, point, ModifiersState::CONTROL, &mut openable).is_none()
    );
}

#[test]
fn an_openable_hint_and_its_command_are_read_from_the_config() {
    let config = UiConfig {
        hints: Hints {
            alphabet: ALPHABET.into(),
            enabled: vec![Rc::new(Hint {
                content: HintContent { regex: Some(".".into()), hyperlinks: false },
                action: HintAction::Action(HintInternalAction::Select),
                post_processing: false,
                persist: false,
                dan_openable: true,
                mouse: None,
            })],
            dan_openable_command: Some(Program::WithArgs {
                program: "/bin/sh".into(),
                args: vec!["-c".into(), "openable".into()],
            }),
        },
    };

    let command = openable_command(&config).expect("command in config");
    assert_eq!(command.program(), "/bin/sh");
    assert_eq!(command.args(), ["-c", "openable"]);
    assert!(config.hints.enabled[0].dan_openable);
}

#[test]
fn hint_mode_waits_for_an_answer_rather_than_ending() {
    let config = config_with_openable_hint();
    let term = terminal(&mock_term("src/main.rs:91-95"));
    let mut hint_state = HintState::new(config.hints.alphabet());
    hint_state.start(config.hints.enabled[0].clone());

    hint_state.update_matches(&term, &config);
    assert!(hint_state.active(), "hint mode ended before anything answered");
    assert!(hint_state.matches().is_empty());

    hint_state.openable.answer(vec![("src/main.rs:91-95".into(), true)]);
    hint_state.update_matches(&term, &config);
    assert_eq!(hint_state.matches().len(), 1);
    assert_eq!(hint_state.labels().len(), 1);
}

#[test]
fn hint_mode_ends_when_the_program_would_open_nothing_visible() {
    let config = config_with_openable_hint();
    let term = terminal(&mock_term("src/main.rs:91-95"));
    let mut hint_state = HintState::new(config.hints.alphabet());
    hint_state.start(config.hints.enabled[0].clone());

    hint_state.openable.answer(vec![("src/main.rs:91-95".into(), false)]);
    hint_state.update_matches(&term, &config);

    assert!(!hint_state.active());
}

/// Build a config whose only hint offers path-shaped text its program would open.
fn config_with_openable_hint() -> UiConfig {
    UiConfig {
        hints: Hints {
            alphabet: ALPHABET.into(),
            enabled: vec![Rc::new(Hint {
                content: HintContent {
                    regex: Some("[A-Za-z0-9._/:()-]+".into()),
                    hyperlinks: false,
                },
                action: HintAction::Action(HintInternalAction::Select),
                post_processing: false,
                persist: false,
                dan_openable: true,
                mouse: Some(HintMouse { enabled: true, mods: ModifiersState::CONTROL }),
            })],
            dan_openable_command: Some(Program::Just("true".into())),
        },
    }
}

#[test]
fn visible_regex_match_covers_entire_viewport() {
    let content = "I'm a match!\r\n".repeat(4096);
    // The Term returned from this call will have a viewport starting at 0 and ending at 4096.
    // That's good enough for this test, since it only cares about visible content.
    let term = terminal(&mock_term(&content));

    // The iterator should match everything in the viewport.
    assert_eq!(visible_regex_match_iter(&term, "match!").len(), 4096);
}

/// A terminal with scrollback. Lines which end with a `+` are wrapped, the `+` is no part of them.
fn scrolled(lines: &[&str], screen_lines: usize, display_offset: usize) -> Terminal {
    let width = lines.iter().map(|line| line.trim_end_matches('+').len()).max().unwrap();
    let mut rows = Vec::new();
    for line in lines {
        let mut row: Vec<Cell> = line.trim_end_matches('+').chars().map(Cell::new).collect();
        while row.len() < width {
            row.push(Cell::new(' '));
        }
        row[width - 1].wrapline = line.ends_with('+');
        rows.push(row);
    }
    plain(rows, screen_lines, display_offset)
}

/// A terminal in which `columns` of the first line have a hyperlink.
fn linked(content: &str, links: &[(usize, &str)]) -> Terminal {
    let mut rows = vec![content.chars().map(Cell::new).collect::<Vec<_>>()];
    for (column, uri) in links {
        rows[0][*column].hyperlink = Some(Hyperlink::new("id".into(), uri.to_string()));
    }
    plain(rows, 1, 0)
}

#[test]
fn labels_run_out_without_a_head() {
    let mut generator = HintLabels::new("a", 50);
    assert!(generator.has_next());
    assert_eq!(generator.next(), vec!['a']);
    assert!(!generator.has_next());

    let mut generator = HintLabels::new("abc", 250);
    assert_eq!(generator.next(), vec!['a']);
    assert_eq!(generator.next(), vec!['b']);
    assert_eq!(generator.next(), vec!['c']);
    assert!(!generator.has_next());
}

#[test]
fn labels_may_have_a_single_tail() {
    let mut generator = HintLabels::new("abc", 0);
    assert_eq!(generator.next(), vec!['a']);
    assert_eq!(generator.next(), vec!['b', 'a']);
    assert_eq!(generator.next(), vec!['c', 'a']);
    assert_eq!(generator.next(), vec!['b', 'b', 'a']);
    assert!(generator.has_next());
}

#[test]
fn post_processing_cuts_delimiters_and_brackets() {
    let term = terminal(&mock_term("(https://a.org/b_(c)), https://d.org?!."));
    let processed = |start, end| hint_post_processing(&term, &range(0, start, end));

    // The last bracket is unmatched, the one before it is not.
    assert_eq!(processed(1, 21), Some(range(0, 1, 19)));
    // Delimiters at the end are cut off.
    assert_eq!(processed(23, 38), Some(range(0, 23, 35)));
    // Nothing is left when the bracket comes first.
    assert_eq!(processed(20, 21), None);
    // A match is not trimmed away.
    assert_eq!(processed(38, 38), Some(range(0, 38, 38)));
}

#[test]
fn the_first_cell_is_kept() {
    let term = terminal(&mock_term(")a"));
    assert_eq!(hint_post_processing(&term, &range(0, 0, 1)), Some(range(0, 0, 0)));
}

#[test]
fn post_processing_searches_behind_brackets() {
    let term = terminal(&mock_term("foo)bar. "));
    let matches = HintPostProcessor::new(&term, "[^ ]+", range(0, 0, 7)).collect();
    // The delimiter which was cut off is searched, too.
    assert_eq!(matches, [range(0, 0, 2), range(0, 4, 6), range(0, 7, 7)]);
}

#[test]
fn post_processing_ends_in_the_last_cell() {
    let term = terminal(&mock_term("ab"));
    let matches = HintPostProcessor::new(&term, "[a-z]", range(0, 1, 1)).collect();
    assert_eq!(matches, [range(0, 1, 1)]);

    let term = terminal(&mock_term("a)"));
    assert!(HintPostProcessor::new(&term, "[^ ]", range(0, 1, 1)).collect().is_empty());
}

#[test]
fn matches_outside_of_the_viewport_are_left_out() {
    let lines = ["a1", "b2", "c3", "d4"];
    let matches = |offset| visible_regex_match_iter(&scrolled(&lines, 2, offset), "[0-9]");

    assert_eq!(matches(0), [range(0, 1, 1), range(1, 1, 1)]);
    assert_eq!(matches(1), [range(-1, 1, 1), range(0, 1, 1)]);
    assert_eq!(matches(2), [range(-2, 1, 1), range(-1, 1, 1)]);
}

#[test]
fn matches_may_wrap_out_of_the_viewport() {
    let lines = ["xab+", "cd+", "ef ", "ghi"];

    let above = visible_regex_match_iter(&scrolled(&lines, 2, 0), "ab[a-f]+");
    assert!(above.is_empty());
    let above = visible_regex_match_iter(&scrolled(&lines, 3, 0), "ab[a-f ]+");
    assert_eq!(above, [Match::new(point(-1, 1), point(1, 2))]);
    let below = visible_regex_match_iter(&scrolled(&lines, 1, 3), "ab[a-f ]+");
    assert_eq!(below, [Match::new(point(-3, 1), point(-1, 2))]);
}

#[test]
fn patterns_which_are_no_expressions_match_nothing() {
    let term = terminal(&mock_term("a(b"));
    assert!(visible_regex_match_iter(&term, "(").is_empty());
    assert_eq!(regex_match_at(&term, point(0, 0), "(", true), None);
    let matches = HintPostProcessor::new(&term, "(", range(0, 1, 2)).collect();
    assert_eq!(matches, [range(0, 1, 2)]);

    let config = config_with(text_hint("("));
    let mut hint_state = HintState::new(ALPHABET);
    hint_state.start(config.hints.enabled[0].clone());
    hint_state.update_matches(&term, &config);
    assert!(!hint_state.active());
}

#[test]
fn matches_are_found_by_any_of_their_cells() {
    let term = terminal(&mock_term("see (https://a.org) now"));
    for column in 5..18 {
        let found = regex_match_at(&term, point(0, column), URL_REGEX, true);
        assert_eq!(found, Some(range(0, 5, 17)));
    }
    assert_eq!(regex_match_at(&term, point(0, 4), URL_REGEX, true), None);
    assert_eq!(regex_match_at(&term, point(0, 18), URL_REGEX, true), None);
    assert_eq!(regex_match_at(&term, point(0, 18), URL_REGEX, false), Some(range(0, 5, 18)));
}

#[test]
fn hyperlinks_end_at_a_gap() {
    let term = linked("abcdef", &[(0, "x"), (1, "x"), (3, "x"), (4, "y")]);
    let at = |column| hyperlink_at(&term, point(0, column)).map(|(link, bounds)| {
        (link.uri().to_string(), bounds)
    });

    assert_eq!(at(0), Some(("x".into(), range(0, 0, 1))));
    assert_eq!(at(1), at(0));
    assert_eq!(at(2), None);
    assert_eq!(at(3), Some(("x".into(), range(0, 3, 3))));
    assert_eq!(at(4), Some(("y".into(), range(0, 4, 4))));
    assert_eq!(at(5), None);

    // The second place of a hyperlink is not offered.
    assert_eq!(visible_unique_hyperlinks_iter(&term), [range(0, 0, 1), range(0, 4, 4)]);
}

#[test]
fn hyperlinks_with_other_ids_are_other_hyperlinks() {
    let mut rows = vec![vec![Cell::new('a'), Cell::new('b')]];
    rows[0][0].hyperlink = Some(Hyperlink::new("1".into(), "x".into()));
    rows[0][1].hyperlink = Some(Hyperlink::new("2".into(), "x".into()));
    let term = plain(rows, 1, 0);

    assert_eq!(visible_unique_hyperlinks_iter(&term), [range(0, 0, 0), range(0, 1, 1)]);
}

#[test]
fn matches_are_arranged_by_their_start() {
    let found = vec![range(1, 0, 1), range(0, 2, 3), range(0, 2, 5), range(0, 2, 4), range(0, 1, 9)];
    assert_eq!(arrange(&found), [range(0, 1, 9), range(0, 2, 5), range(1, 0, 1)]);
    assert!(arrange(&vec![]).is_empty());
}

#[test]
fn text_follows_wrapped_lines_and_wide_characters() {
    let term = terminal(&mock_term("ab\n全\r\ncd"));
    assert_eq!(
        term.text(Match::new(point(0, 0), point(1, 1))).as_deref(),
        Some("ab全")
    );
    assert_eq!(
        term.text(Match::new(point(1, 0), point(2, 1))).as_deref(),
        Some("全\ncd")
    );

    let mut rows = vec![vec![Cell::new('e'), Cell::new('x')]];
    rows[0][0].zerowidth = vec!['\u{301}', '\u{302}'];
    let term = plain(rows, 1, 0);
    assert_eq!(term.text(range(0, 0, 1)).as_deref(), Some("e\u{301}\u{302}x"));
}

#[test]
fn a_placeholder_above_everything_has_no_text() {
    let mut rows = vec![vec![Cell::new('a'), Cell::new('b')], vec![Cell::new('全'), Cell::new(' ')]];
    rows[0][1].leading_spacer = true;
    rows[1][0].wide = true;
    rows[1][1].wide_spacer = true;
    let term = plain(rows, 2, 0);

    assert_eq!(term.text(range(0, 0, 1)), None);
    assert_eq!(term.text(range(0, 0, 0)).as_deref(), Some("a"));
}

#[test]
fn wide_characters_are_searched_with_their_placeholder() {
    let row = |text: &str| text.chars().map(Cell::new).collect::<Vec<_>>();
    let mut rows = vec![row("ab "), row("全 c")];
    rows[0][2].leading_spacer = true;
    rows[0][2].wrapline = true;
    rows[1][0].wide = true;
    rows[1][1].wide_spacer = true;
    rows[1][2].wrapline = true;
    let term = plain(rows, 2, 0);

    let found = |start, end| term.regex_search_right("[^ ]+", start, end);
    let placeholder = Match::new(point(0, 2), point(1, 2));
    assert_eq!(found(point(1, 0), point(1, 2)), Some(placeholder));
    assert_eq!(found(point(0, 2), point(1, 2)), Some(placeholder));
    assert_eq!(found(point(0, 0), point(1, 2)), Some(Match::new(point(0, 0), point(1, 2))));
    // Up to the wide character, the search ends with its placeholder.
    assert_eq!(found(point(0, 0), point(1, 0)), Some(Match::new(point(0, 0), point(1, 1))));
}

#[test]
fn text_cannot_start_in_front_of_a_line() {
    let row = |text: &str| text.chars().map(Cell::new).collect::<Vec<_>>();
    let mut rows = vec![row("abc"), row("def"), row("ghi")];
    rows[1][0].wide_spacer = true;
    let term = plain(rows, 3, 0);

    assert_eq!(term.text(Match::new(point(0, 0), point(1, 2))), None);
    assert_eq!(term.text(range(1, 0, 2)), None);
    assert_eq!(term.text(range(1, 1, 2)).as_deref(), Some("ef"));
    assert_eq!(term.text(Match::new(point(1, 1), point(2, 0))).as_deref(), Some("ef\ng"));
}

#[test]
fn searches_end_in_any_terminal() {
    let mut rows: Vec<Vec<Cell>> = (0..6).map(|_| vec![Cell::new('a'), Cell::new('b')]).collect();
    for line in [0, 2, 3, 4, 5] {
        rows[line][1].wrapline = true;
    }
    for line in [0, 1, 2] {
        rows[line][1].leading_spacer = true;
    }
    for line in [1, 3] {
        rows[line][1].wide_spacer = true;
    }
    let term = plain(rows, 6, 0);

    let found = visible_regex_match_iter(&term, ".+");
    assert_eq!(found[0], range(0, 0, 0));
    assert_eq!(found[1], Match::new(point(0, 1), point(1, 1)));
    assert!(found.len() <= 12);
    assert_eq!(term.regex_search_right("b", point(0, 0), point(5, 1)), Some(range(4, 1, 1)));
}

#[test]
fn shifted_placeholders_are_searched_like_in_the_terminal() {
    let mut term = mock_term("abc   \r\nxyz   ");
    term.goto(0, 0);
    for c in "abcde全 gh".chars() {
        term.input(c);
    }
    // The placeholder in the last column moves to the left.
    term.goto(0, 1);
    term.delete_chars(2);
    assert!(term.grid()[Line(0)][Column(3)].flags.contains(Flags::LEADING_WIDE_CHAR_SPACER));
    let copy = terminal(&term);

    for pattern in ["[a-z]+", "[^ ]+", "全", " "] {
        let mut regex = RegexSearch::new(pattern).unwrap();
        let start = index::Point::new(Line(0), Column(0));
        let end = index::Point::new(term.bottommost_line(), term.last_column());
        let found: Vec<_> =
            RegexIter::new(start, end, index::Direction::Right, &term, &mut regex).collect();
        let copied = copy.regex_matches(pattern, point(0, 0), point(1, 5));

        assert_eq!(copied.len(), found.len());
        for (copied, found) in copied.iter().zip(found) {
            assert_eq!(copied.start, point(found.start().line.0, found.start().column.0));
            assert_eq!(copied.end, point(found.end().line.0, found.end().column.0));
            assert_eq!(
                copy.text(*copied),
                Some(term.bounds_to_string(*found.start(), *found.end()))
            );
        }
    }
}

#[test]
fn searches_are_limited_above_and_below_the_viewport() {
    let mut lines = vec!["xxx+"; 150];
    lines.push("xxx");

    let found = visible_regex_match_iter(&scrolled(&lines, 1, 0), "x+");
    assert_eq!(found, [Match::new(point(-100, 0), point(0, 2))]);
    let found = visible_regex_match_iter(&scrolled(&lines, 1, 150), "x+");
    assert_eq!(found, [Match::new(point(-150, 0), point(-50, 2))]);
}

#[test]
fn copies_are_searched_like_the_terminal() {
    let contents = [
        "https://a.org/(b) and\nmore text\r\n  indented",
        "全角 text\n全 wrapped\r\ntab",
        "one line",
        "aa\nbb\ncc\r\ndd",
    ];
    for content in contents {
        let term = mock_term(content);
        let copy = terminal(&term);
        for pattern in ["[^ ]+", "[a-z]", "全.", "a|b+", "x"] {
            let mut regex = RegexSearch::new(pattern).unwrap();
            let start = index::Point::new(Line(0), Column(0));
            let end = index::Point::new(term.bottommost_line(), term.last_column());
            let found: Vec<_> =
                RegexIter::new(start, end, index::Direction::Right, &term, &mut regex).collect();
            let copied = visible_regex_match_iter(&copy, pattern);

            assert_eq!(copied.len(), found.len());
            for (copied, found) in copied.iter().zip(found) {
                assert_eq!(copied.start, point(found.start().line.0, found.start().column.0));
                assert_eq!(copied.end, point(found.end().line.0, found.end().column.0));
                assert_eq!(
                    copy.text(*copied),
                    Some(term.bounds_to_string(*found.start(), *found.end()))
                );
            }
        }
    }
}

#[test]
fn text_has_tabs() {
    let mut term = mock_term("x       y");
    term.grid_mut()[Line(0)][Column(0)].c = '\t';
    let text = terminal(&term).text(range(0, 0, 8));
    assert_eq!(text.as_deref(), Some("\ty"));

    // Cells up to the next tab stop are part of the tab.
    let row = |text: &str| text.chars().map(Cell::new).collect::<Vec<_>>();
    let with_tabs = |tabs| {
        let rows = vec![row("\t     y")];
        let term = Terminal::new(rows, 1, 0, tabs, TermMode::default()).unwrap();
        term.text(range(0, 0, 6)).unwrap()
    };
    assert_eq!(with_tabs(tab_stops(7)), "\ty");
    assert_eq!(with_tabs(vec![false, false, false, false, true, false, true]), "\t  y");
    assert_eq!(with_tabs(vec![false; 7]), "\ty");
}

#[test]
fn terminals_may_have_a_single_column() {
    let term = scrolled(&["a", "b", "c"], 3, 0);
    assert_eq!(
        visible_regex_match_iter(&term, "[a-z]+"),
        [range(0, 0, 0), range(1, 0, 0), range(2, 0, 0)]
    );
}

#[test]
fn terminals_have_a_rectangle_of_cells() {
    let row = |len: usize| (0..len).map(|_| Cell::new('x')).collect::<Vec<_>>();
    let fits = |rows, screen_lines, display_offset, columns| {
        let mode = TermMode::default();
        Terminal::new(rows, screen_lines, display_offset, tab_stops(columns), mode).is_some()
    };

    assert!(!fits(vec![], 0, 0, 0));
    assert!(!fits(vec![row(0)], 1, 0, 0));
    assert!(!fits(vec![row(2), row(3)], 1, 0, 2));
    assert!(!fits(vec![row(2)], 0, 0, 2));
    assert!(!fits(vec![row(2)], 2, 0, 2));
    assert!(!fits(vec![row(2), row(2)], 1, 2, 2));
    assert!(!fits(vec![row(2), row(2)], 1, 1, 3));
    assert!(fits(vec![row(2), row(2)], 1, 1, 2));
}

#[test]
fn typing_a_label_selects_a_match() {
    let config = config_with(text_hint("[a-z]+"));
    let term = terminal(&mock_term("one two three four five six"));
    let mut hint_state = HintState::new("0123");
    hint_state.start(config.hints.enabled[0].clone());
    hint_state.update_matches(&term, &config);

    let labels: Vec<String> = hint_state.labels().iter().map(|label| label.iter().collect()).collect();
    assert_eq!(labels, ["31", "30", "21", "20", "1", "0"]);
    assert_eq!(hint_state.matches()[1], range(0, 4, 6));

    // The first key leaves the second one of all labels which start with it.
    assert!(hint_state.keyboard_input(&term, &config, '3').is_none());
    hint_state.update_matches(&term, &config);
    let labels: Vec<String> = hint_state.labels().iter().map(|label| label.iter().collect()).collect();
    assert_eq!(labels, ["1", "0", "", "", "", ""]);

    // A key which is no part of a label changes nothing.
    assert!(hint_state.keyboard_input(&term, &config, 'x').is_none());
    assert!(hint_state.active());

    let selected = hint_state.keyboard_input(&term, &config, '0').unwrap();
    assert_eq!(*selected.bounds(), range(0, 4, 6));
    assert_eq!(*selected.action(), HintAction::Action(HintInternalAction::Copy));
    assert!(selected.hyperlink().is_none());
    assert_eq!(selected.text(&term).as_deref(), Some("two"));
    assert_eq!(selected.clone(), selected);

    assert!(!hint_state.active());
    assert!(hint_state.matches().is_empty());
    assert!(hint_state.labels().is_empty());
}

#[test]
fn keys_can_be_taken_back() {
    let config = config_with(text_hint("[a-z]"));
    let term = terminal(&mock_term("a b c"));
    for backspace in ['\x08', '\x1f'] {
        let mut hint_state = HintState::new("0123");
        hint_state.start(config.hints.enabled[0].clone());
        assert!(hint_state.keyboard_input(&term, &config, '2').is_none());
        assert!(hint_state.keyboard_input(&term, &config, backspace).is_none());
        // There is nothing left to take back.
        assert!(hint_state.keyboard_input(&term, &config, backspace).is_none());
        let selected = hint_state.keyboard_input(&term, &config, '1').unwrap();
        assert_eq!(*selected.bounds(), range(0, 2, 2));
    }
}

#[test]
fn escape_cancels_the_selection() {
    let config = config_with(text_hint("[a-z]"));
    let term = terminal(&mock_term("a b c"));
    for cancel in ['\x1b', '\x03'] {
        let mut hint_state = HintState::new("0123");
        assert!(!hint_state.active());
        hint_state.start(config.hints.enabled[0].clone());
        hint_state.update_matches(&term, &config);
        assert_eq!(hint_state.matches().len(), 3);

        assert!(hint_state.keyboard_input(&term, &config, cancel).is_none());
        assert!(!hint_state.active());
        assert!(hint_state.matches().is_empty());
        assert!(hint_state.keyboard_input(&term, &config, '0').is_none());
    }
}

#[test]
fn persistent_hints_go_on() {
    let mut hint = text_hint("[a-z]");
    hint.persist = true;
    let config = config_with(hint);
    let term = terminal(&mock_term("a b c"));
    let mut hint_state = HintState::new("0123");
    hint_state.start(config.hints.enabled[0].clone());

    assert!(hint_state.keyboard_input(&term, &config, '2').is_none());
    assert!(hint_state.keyboard_input(&term, &config, '0').is_some());
    assert!(hint_state.active());
    let selected = hint_state.keyboard_input(&term, &config, '0').unwrap();
    assert_eq!(*selected.bounds(), range(0, 4, 4));
}

#[test]
fn another_alphabet_starts_over() {
    let config = config_with(text_hint("[a-z]"));
    let term = terminal(&mock_term("a b c"));
    let mut hint_state = HintState::new("0123");
    hint_state.start(config.hints.enabled[0].clone());

    assert!(hint_state.keyboard_input(&term, &config, '2').is_none());
    hint_state.update_alphabet("0123");
    hint_state.update_matches(&term, &config);
    assert_eq!(hint_state.labels()[0], ['0']);

    hint_state.update_alphabet("xy");
    hint_state.update_matches(&term, &config);
    assert_eq!(*hint_state.labels(), [vec!['y', 'y', 'x'], vec!['y', 'x'], vec!['x']]);
}

#[test]
fn small_alphabets_leave_matches_without_a_label() {
    let config = config_with(text_hint("[a-z]"));
    let term = terminal(&mock_term("a b c"));
    let mut hint_state = HintState::new("x");
    hint_state.start(config.hints.enabled[0].clone());
    hint_state.update_matches(&term, &config);
    assert_eq!(*hint_state.labels(), [vec![], vec![], vec!['x']]);

    hint_state.update_alphabet("");
    hint_state.update_matches(&term, &config);
    assert_eq!(*hint_state.labels(), [vec![], vec![], vec![]] as [Vec<char>; 3]);
}

#[test]
fn selected_text_is_validated_again() {
    let config = config_with(text_hint("[a-z]+"));
    let term = terminal(&mock_term("one two"));
    let mut hint_state = HintState::new(ALPHABET);
    hint_state.start(config.hints.enabled[0].clone());
    let selected = hint_state.keyboard_input(&term, &config, 'j').unwrap();
    assert_eq!(selected.text(&term).as_deref(), Some("two"));

    // Other text in the same place is fine, anything else is not.
    let changed = terminal(&mock_term("one six"));
    assert_eq!(selected.text(&changed).as_deref(), Some("six"));
    let changed = terminal(&mock_term("onetwo "));
    assert_eq!(selected.text(&changed), None);
    let changed = terminal(&mock_term("one 222"));
    assert_eq!(selected.text(&changed), None);
}

#[test]
fn selected_hyperlinks_are_validated_again() {
    let config = config_with_hint_mods(ModifiersState::empty());
    let term = linked("see here", &[(4, "x"), (5, "x")]);
    let mut openable = Openable::default();
    let mods = ModifiersState::empty();
    let found = highlighted_at(&term, &config, point(0, 5), mods, &mut openable).unwrap();

    assert_eq!(*found.bounds(), range(0, 4, 5));
    assert_eq!(found.hyperlink().unwrap().uri(), "x");
    assert_eq!(found.text(&term).as_deref(), Some("x"));
    assert_eq!(found.text(&linked("see here", &[(4, "y"), (5, "y")])), None);
    assert_eq!(found.text(&linked("see here", &[(4, "x"), (5, "x"), (6, "x")])), None);
    assert_eq!(found.text(&linked("see here", &[(5, "x")])), None);
}

#[test]
fn hyperlinks_are_highlighted_wherever_they_are() {
    let config = config_with_hint_mods(ModifiersState::empty());
    let term = linked("https://a.org", &[(0, "x"), (2, "x")]);
    let mut openable = Openable::default();
    let mods = ModifiersState::empty();
    let x = Hyperlink::new("id".into(), "x".into());
    let y = Hyperlink::new("id".into(), "y".into());

    // Hyperlinks take precedence over text.
    let link = highlighted_at(&term, &config, point(0, 0), mods, &mut openable).unwrap();
    assert_eq!(*link.bounds(), range(0, 0, 0));
    assert!(link.should_highlight(point(0, 9), Some(&x)));
    assert!(!link.should_highlight(point(0, 0), Some(&y)));
    assert!(!link.should_highlight(point(0, 0), None));

    let text = highlighted_at(&term, &config, point(0, 1), mods, &mut openable).unwrap();
    assert_eq!(*text.bounds(), range(0, 0, 12));
    assert!(text.should_highlight(point(0, 12), None));
    assert!(!text.should_highlight(point(1, 0), None));
    assert!(!text.should_highlight(point(0, 1), Some(&x)));
}

#[test]
fn points_outside_matter_where_a_hyperlink_is_read() {
    let term = terminal(&mock_term("https://a.org/b\nhttps://c.org/d"));
    let mut config = config_with_hint_mods(ModifiersState::CONTROL);
    let mut openable = Openable::default();
    let outside = point(0, 99);

    // Nothing is read for a hint which is not available.
    let mods = ModifiersState::empty();
    assert_eq!(try_highlighted_at(&term, &config, outside, mods, &mut openable), Some(None));
    assert!(highlighted_at(&term, &config, outside, mods, &mut openable).is_none());
    let mods = ModifiersState::CONTROL;
    assert_eq!(try_highlighted_at(&term, &config, outside, mods, &mut openable), None);
    let inside = try_highlighted_at(&term, &config, point(0, 0), mods, &mut openable);
    assert!(inside.unwrap().is_some());

    // Nor is it for a hint which comes too late: the point is between the ends of a match.
    let mut first = text_hint("[^ ]+");
    first.mouse = Some(HintMouse { enabled: true, mods });
    config.hints.enabled.insert(0, Rc::new(first));
    let found = highlighted_at(&term, &config, outside, mods, &mut openable).unwrap();
    assert_eq!(*found.bounds(), Match::new(point(0, 0), point(1, 14)));
    let again = try_highlighted_at(&term, &config, outside, mods, &mut openable).unwrap();
    assert_eq!(again, Some(found));
}

#[test]
fn unanswered_text_outside_is_not_highlighted() {
    let term = terminal(&mock_term("abc\ndef"));
    let mut config = config_with_hint_mods(ModifiersState::CONTROL);
    config.hints.dan_openable_command = Some(Program::Just("true".into()));
    config.hints.enabled.insert(0, config_with_openable_hint().hints.enabled.remove(0));
    let mut openable = Openable::default();
    let mods = ModifiersState::CONTROL;

    // The hint for hyperlinks is only reached if the text is not opened.
    assert_eq!(try_highlighted_at(&term, &config, point(0, 9), mods, &mut openable), None);
    assert!(openable.unanswered().is_empty());
    openable.answer(vec![("abcdef".into(), true)]);
    let found = try_highlighted_at(&term, &config, point(0, 9), mods, &mut openable);
    assert!(found.unwrap().is_some());
}

#[test]
fn hints_need_their_modifiers() {
    let term = terminal(&mock_term("https://a.org"));
    let mut openable = Openable::default();
    let both = ModifiersState::CONTROL | ModifiersState::ALT;
    let mut config = config_with_hint_mods(both);
    let mut found = |config: &UiConfig, mods| {
        highlighted_at(&term, config, point(0, 0), mods, &mut openable).is_some()
    };

    assert!(found(&config, both));
    assert!(found(&config, both | ModifiersState::SUPER));
    assert!(!found(&config, ModifiersState::CONTROL));
    assert!(!found(&config, ModifiersState::empty()));

    Rc::get_mut(&mut config.hints.enabled[0]).unwrap().mouse =
        Some(HintMouse { enabled: false, mods: both });
    assert!(!found(&config, both));
    Rc::get_mut(&mut config.hints.enabled[0]).unwrap().mouse = None;
    assert!(!found(&config, both));
}

#[test]
fn only_modes_for_the_mouse_capture_it() {
    let config = config_with_hint_mods(ModifiersState::empty());
    let captures = |mode| {
        let rows = vec!["https://a.org".chars().map(Cell::new).collect()];
        let term = Terminal::new(rows, 1, 0, tab_stops(13), mode).unwrap();
        let mods = ModifiersState::empty();
        highlighted_at(&term, &config, point(0, 0), mods, &mut Openable::default()).is_none()
    };

    assert!(captures(TermMode::MOUSE_REPORT_CLICK));
    assert!(captures(TermMode::MOUSE_MOTION));
    assert!(captures(TermMode::MOUSE_DRAG | TermMode::VI));
    assert!(!captures(TermMode::empty()));
    assert!(!captures(TermMode::all() - TermMode::MOUSE_MODE));
}

#[test]
fn the_first_hint_with_a_match_is_highlighted() {
    let mut config = config_with_hint_mods(ModifiersState::empty());
    for regex in ["[0-9]+", "[a-z]+"] {
        let mut hint = text_hint(regex);
        hint.mouse = Some(HintMouse { enabled: true, mods: ModifiersState::empty() });
        config.hints.enabled.push(Rc::new(hint));
    }
    let term = terminal(&mock_term("abc123"));
    let mut openable = Openable::default();
    let mut at = |column| {
        let mods = ModifiersState::empty();
        highlighted_at(&term, &config, point(0, column), mods, &mut openable)
            .map(|found| *found.bounds())
    };

    assert_eq!(at(1), Some(range(0, 0, 2)));
    assert_eq!(at(4), Some(range(0, 3, 5)));
}

#[test]
fn openable_hints_match_nothing_without_a_program() {
    let mut config = config_with_openable_hint();
    config.hints.dan_openable_command = None;
    let term = terminal(&mock_term("src/main.rs"));
    let mut hint_state = HintState::new(ALPHABET);
    hint_state.openable.answer(vec![("src/main.rs".into(), true)]);

    let mods = ModifiersState::CONTROL;
    let found = highlighted_at(&term, &config, point(0, 0), mods, &mut hint_state.openable);
    assert!(found.is_none());
    assert!(hint_state.openable.unanswered().is_empty());

    hint_state.start(config.hints.enabled[0].clone());
    hint_state.update_matches(&term, &config);
    assert!(!hint_state.active());
}

#[test]
fn a_screen_of_matches_is_asked_about_in_two_batches() {
    let config = config_with_openable_hint();
    let term = terminal(&mock_term("a b c b"));
    let mut hint_state = HintState::new(ALPHABET);
    hint_state.openable.set_event_proxy(EventProxy { window_id: 1 });
    hint_state.start(config.hints.enabled[0].clone());

    hint_state.update_matches_at(&term, &config, 0);
    assert!(hint_state.active());
    let batches = hint_state.openable.take_outgoing();
    assert_eq!(batches.len(), 1);
    assert_eq!(batches[0].questions, ["a"]);

    hint_state.openable.answer_at(vec![("a".into(), true)], 1);
    hint_state.update_matches_at(&term, &config, 2);
    assert_eq!(*hint_state.matches(), [range(0, 0, 0)]);
    let batches = hint_state.openable.take_outgoing();
    assert_eq!(batches.len(), 1);
    assert_eq!(batches[0].questions, ["b", "c"]);

    // Labels appear as answers arrive.
    hint_state.openable.answer_at(vec![("b".into(), true), ("c".into(), false)], 3);
    hint_state.update_matches_at(&term, &config, 4);
    assert_eq!(*hint_state.matches(), [range(0, 0, 0), range(0, 2, 2), range(0, 6, 6)]);
    assert!(hint_state.openable.take_outgoing().is_empty());

    // Updating again changes nothing.
    hint_state.update_matches_at(&term, &config, 5);
    assert_eq!(hint_state.matches().len(), 3);
    let selected = hint_state.keyboard_input_at(&term, &config, 'f', 6).unwrap();
    assert_eq!(*selected.bounds(), range(0, 2, 2));
}

#[test]
fn highlighting_asks_about_text_under_the_mouse() {
    let config = config_with_openable_hint();
    let term = terminal(&mock_term("a b"));
    let mut openable = Openable::default();
    let mods = ModifiersState::CONTROL;

    assert!(highlighted_at_time(&term, &config, point(0, 1), mods, &mut openable, 0).is_none());
    assert!(openable.unanswered().is_empty());
    assert!(highlighted_at_time(&term, &config, point(0, 2), mods, &mut openable, 0).is_none());
    assert_eq!(*openable.unanswered(), ["b"]);
    openable.answer_at(vec![("b".into(), true)], 1);
    assert!(highlighted_at_time(&term, &config, point(0, 2), mods, &mut openable, 2).is_some());
    assert!(openable.unanswered().is_empty());
}

#[test]
fn hints_offer_hyperlinks_and_text() {
    let mut hint = text_hint("[a-z]+");
    hint.content.hyperlinks = true;
    hint.post_processing = true;
    let config = config_with(hint);
    let term = linked("ab cd ef", &[(1, "x"), (4, "y"), (5, "y")]);
    let mut hint_state = HintState::new("01234567");
    hint_state.start(config.hints.enabled[0].clone());
    hint_state.update_matches(&term, &config);

    assert_eq!(
        *hint_state.matches(),
        [range(0, 0, 1), range(0, 1, 1), range(0, 3, 4), range(0, 4, 5), range(0, 6, 7)]
    );

    // The hyperlink of the first cell is part of what is selected.
    let selected = hint_state.keyboard_input(&term, &config, '1').unwrap();
    assert_eq!(selected.hyperlink().unwrap().uri(), "y");
    assert_eq!(selected.text(&term).as_deref(), Some("y"));
}

#[test]
fn scrollback_is_part_of_the_terminal() {
    let mut term = mock_term("ab");
    term.grid_mut().update_history(10);
    term.goto(0, 0);
    for c in "xy".chars() {
        term.input(c);
    }
    term.linefeed();
    let term = terminal(&term);

    assert!(term.has_point(point(-1, 1)));
    assert!(!term.has_point(point(-2, 0)));
    assert_eq!(term.character(point(-1, 0)), 'x');
    assert_eq!(Line(term.topmost_line()), Line(-1));
}
