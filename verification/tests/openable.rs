use hints::config::Program;
use hints::openable::{
    answers_in, question_arguments, read_answers, EventProxy, Openable, ANSWER_LIFETIME,
    ANSWER_RETENTION,
};

fn yes(text: &str) -> (String, bool) {
    (text.into(), true)
}

fn no(text: &str) -> (String, bool) {
    (text.into(), false)
}

/// Without a proxy to deliver answers through, as in a test, nothing is asked and every question is
/// unanswered.
#[test]
fn a_question_has_no_answer_until_it_is_answered() {
    let program = Program::Just("true".into());
    let mut openable = Openable::default();

    assert_eq!(openable.ask(&program, "src/main.rs"), None);

    openable.answer(vec![("src/main.rs".into(), true)]);
    assert_eq!(openable.ask(&program, "src/main.rs"), Some(true));
}

#[test]
fn a_refused_answer_is_remembered() {
    let program = Program::Just("true".into());
    let mut openable = Openable::default();

    openable.answer(vec![("prose".into(), false)]);
    assert_eq!(openable.ask(&program, "prose"), Some(false));
}

#[test]
fn a_question_is_asked_once_per_batch() {
    let program = Program::Just("true".into());
    let mut openable = Openable::default();

    openable.ask(&program, "src/main.rs");
    openable.ask(&program, "src/main.rs");
    openable.ask(&program, "app.py");

    assert_eq!(*openable.unanswered(), ["src/main.rs", "app.py"]);
}

#[test]
fn text_spanning_a_line_break_is_refused_without_asking() {
    let program = Program::Just("true".into());
    let mut openable = Openable::default();

    assert_eq!(openable.ask(&program, "src/ma\nin.rs"), Some(false));
    assert!(openable.unanswered().is_empty());
}

#[test]
fn answers_are_used_while_they_are_renewed() {
    let program = Program::Just("true".into());
    let mut openable = Openable::default();
    openable.answer_at(vec![yes("a")], 100);

    // Nobody is asked as long as the answer is recent.
    assert_eq!(openable.ask_at(&program, "a", 100 + ANSWER_LIFETIME - 1), Some(true));
    assert!(openable.unanswered().is_empty());

    // The old answer is still used when a new one is needed.
    assert_eq!(openable.ask_at(&program, "a", 100 + ANSWER_LIFETIME), Some(true));
    assert_eq!(*openable.unanswered(), ["a"]);

    openable.answer_at(vec![no("a")], 200 + ANSWER_LIFETIME);
    assert!(openable.unanswered().is_empty());
    assert_eq!(openable.ask_at(&program, "a", 201 + ANSWER_LIFETIME), Some(false));
}

#[test]
fn answers_nobody_asks_about_are_forgotten() {
    let program = Program::Just("true".into());
    let mut openable = Openable::default();
    openable.answer_at(vec![yes("old"), yes("asked"), no("recent")], 0);
    openable.answer_at(vec![no("recent")], 5);

    assert_eq!(openable.ask_at(&program, "asked", ANSWER_RETENTION), Some(true));
    openable.answer_at(vec![yes("other")], ANSWER_RETENTION);

    assert_eq!(openable.ask_at(&program, "old", ANSWER_RETENTION), None);
    assert_eq!(openable.ask_at(&program, "asked", ANSWER_RETENTION), Some(true));
    assert_eq!(openable.ask_at(&program, "recent", ANSWER_RETENTION), Some(false));
    assert_eq!(openable.ask_at(&program, "other", ANSWER_RETENTION), Some(true));
}

#[test]
fn answers_are_kept_for_a_minute() {
    let program = Program::Just("true".into());
    let mut openable = Openable::default();
    openable.answer_at(vec![yes("a")], 0);

    openable.answer_at(vec![], 59_999_999_999);
    assert_eq!(openable.ask_at(&program, "b", 59_999_999_999), None);
    openable.answer_at(vec![no("b")], 59_999_999_999);
    openable.answer_at(vec![], 60_000_000_000);
    assert_eq!(openable.ask_at(&program, "a", 60_000_000_000), None);
    assert_eq!(openable.ask_at(&program, "b", 60_000_000_000), Some(false));
}

#[test]
fn the_later_of_two_answers_counts() {
    let program = Program::Just("true".into());
    let mut openable = Openable::default();
    openable.answer_at(vec![yes("a"), no("b"), no("a")], 0);

    assert_eq!(openable.ask_at(&program, "a", 0), Some(false));
    assert_eq!(openable.ask_at(&program, "b", 0), Some(false));
}

#[test]
fn one_batch_goes_out_at_a_time() {
    let program = Program::WithArgs { program: "opener".into(), args: vec!["--check".into()] };
    let proxy = EventProxy { window_id: 7 };
    let mut openable = Openable::default();

    // Questions are collected until there is somebody to deliver the answers to.
    assert_eq!(openable.ask_at(&program, "a", 0), None);
    assert!(openable.take_outgoing().is_empty());
    openable.set_event_proxy(proxy);

    assert_eq!(openable.ask_at(&program, "b", 0), None);
    assert!(openable.waiting());
    assert_eq!(openable.ask_at(&program, "c", 0), None);
    assert_eq!(openable.ask_at(&program, "d", 0), None);

    let batches = openable.take_outgoing();
    assert_eq!(batches.len(), 1);
    assert_eq!(batches[0].event_proxy, proxy);
    assert_eq!(batches[0].program.program(), "opener");
    assert_eq!(batches[0].program.args(), ["--check"]);
    assert_eq!(batches[0].questions, ["a", "b"]);
    assert!(openable.take_outgoing().is_empty());

    // What was asked in the meantime goes out with the next batch.
    openable.answer_at(vec![yes("a"), no("b")], 10);
    assert!(!openable.waiting());
    assert_eq!(*openable.unanswered(), ["c", "d"]);
    assert_eq!(openable.ask_at(&program, "a", 10), Some(true));
    assert!(openable.take_outgoing().is_empty());
    assert_eq!(openable.ask_at(&program, "c", 10), None);
    assert_eq!(openable.take_outgoing()[0].questions, ["c", "d"]);
}

#[test]
fn programs_are_asked_behind_a_separator() {
    let program = Program::WithArgs {
        program: "/bin/sh".into(),
        args: vec!["-c".into(), "openable".into()],
    };
    let questions = vec!["src/main.rs".into(), "-v".into()];

    assert_eq!(
        question_arguments(&program, &questions),
        ["-c", "openable", "--", "src/main.rs", "-v"]
    );
    assert_eq!(question_arguments(&Program::Just("true".into()), &vec![]), ["--"]);
}

#[test]
fn what_a_program_does_not_print_is_no() {
    let questions = vec!["src/main.rs".into(), "app.py".into()];

    let answers = read_answers(Some(b"src/main.rs\n"), questions);

    assert_eq!(answers, [yes("src/main.rs"), no("app.py")]);
}

#[test]
fn a_program_without_output_opens_nothing() {
    assert_eq!(read_answers(None, vec!["src/main.rs".into()]), [no("src/main.rs")]);
    assert_eq!(read_answers(Some(b""), vec!["src/main.rs".into()]), [no("src/main.rs")]);
}

#[test]
fn output_is_read_line_by_line() {
    let questions = || vec!["a".into(), "b".into(), "c\r".into(), "c".into(), "".into()];

    assert_eq!(
        answers_in("a\r\nb\nc\r", questions()),
        [yes("a"), yes("b"), yes("c\r"), no("c"), no("")]
    );
    assert_eq!(
        answers_in("c\r\r\n\nb a", questions()),
        [no("a"), no("b"), yes("c\r"), no("c"), yes("")]
    );
}

#[test]
fn output_which_is_no_text_is_replaced() {
    let questions = vec!["\u{fffd}x".into(), "x".into(), "\u{e9}".into()];

    let answers = read_answers(Some(b"\xffx\n\xc3\xa9"), questions);

    assert_eq!(answers, [yes("\u{fffd}x"), no("x"), yes("\u{e9}")]);
}
