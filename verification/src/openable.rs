//! Answers to "would this text open something?", asked of the program that would do the opening.
//!
//! The question cannot be answered here. What a relative path names depends on the directory of the
//! pane that printed it, and a terminal multiplexer's panes are invisible from out here; only the
//! program running them knows.
//!
//! Asking costs a process, so answers are remembered. A remembered answer is used past its
//! [`ANSWER_LIFETIME`] while a fresh one is fetched, since the alternative, dropping the highlight
//! until the answer comes back, shows the user a flicker every time it expires.
//!
//! No process is started in here: [`Openable`] decides which questions are asked and when, and
//! leaves the asking to whoever takes the batches out of it.
use std::time::Instant;
use vstd::prelude::*;

use crate::config::{CommandLine, Program};
use crate::standard;
use crate::text::{has_line_feed, same_characters, split_lines};

verus! {

/// How long an answer is used before it is asked again, in nanoseconds.
pub const ANSWER_LIFETIME: u128 = 1_000_000_000;

/// How long an answer nobody has asked about is kept, in nanoseconds.
pub const ANSWER_RETENTION: u128 = 60_000_000_000;

/// The event loop which answers are delivered to.
#[derive(Clone, Copy, Debug, PartialEq, Eq, Structural)]
pub struct EventProxy {
    /// Window the answers are for.
    pub window_id: u64,
}

/// Questions which are put to the program at once.
#[derive(Debug, PartialEq, Eq)]
pub struct Batch {
    /// Where the answers are delivered to.
    pub event_proxy: EventProxy,
    /// Program to be asked.
    pub program: Program,
    /// Texts which the program might open.
    pub questions: Vec<String>,
}

/// Contents of a batch.
pub struct BatchView {
    pub event_proxy: EventProxy,
    pub program: CommandLine,
    pub questions: Seq<Seq<char>>,
}

impl View for Batch {
    type V = BatchView;

    open spec fn view(&self) -> BatchView {
        BatchView {
            event_proxy: self.event_proxy,
            program: self.program@,
            questions: crate::config::texts(self.questions@),
        }
    }
}

/// An answer which is remembered.
struct Answer {
    /// Text which was asked about.
    text: String,
    /// The program would open it.
    opens: bool,
    /// When the answer came.
    at: u128,
}

/// No text has two answers.
spec fn are_unique(answers: Seq<Answer>) -> bool {
    forall|i: int, j: int|
        0 <= i < j < answers.len() ==> (#[trigger] answers[i]).text@ != (
        #[trigger] answers[j]).text@
}

/// One of the answers is about `text`.
spec fn has_text(answers: Seq<Answer>, text: Seq<char>) -> bool {
    exists|i: int| 0 <= i < answers.len() && (#[trigger] answers[i]).text@ == text
}

/// The answer for every text which has one, and when it came.
spec fn answer_map(answers: Seq<Answer>) -> Map<Seq<char>, (bool, int)> {
    Map::new(
        |text: Seq<char>| has_text(answers, text),
        |text: Seq<char>|
            {
                let i = choose|i: int| 0 <= i < answers.len() && (#[trigger] answers[i]).text@ == text;
                (answers[i].opens, answers[i].at as int)
            },
    )
}

proof fn lemma_answer(answers: Seq<Answer>, i: int)
    requires
        are_unique(answers),
        0 <= i < answers.len(),
    ensures
        answer_map(answers).contains_key(answers[i].text@),
        answer_map(answers)[answers[i].text@] == (answers[i].opens, answers[i].at as int),
{
    let text = answers[i].text@;
    let j = choose|j: int| 0 <= j < answers.len() && (#[trigger] answers[j]).text@ == text;
    assert(answers[i].text@ == text);
    if i < j {
        assert(answers[i].text@ != answers[j].text@);
    }
    if j < i {
        assert(answers[j].text@ != answers[i].text@);
    }
}

/// The time from `at` to `now`.
pub open spec fn age(at: int, now: int) -> int {
    if at < now {
        now - at
    } else {
        0
    }
}

/// `text` is one of the texts which were answered.
pub open spec fn is_answered(answers: Seq<(Seq<char>, bool)>, text: Seq<char>) -> bool {
    exists|i: int| 0 <= i < answers.len() && (#[trigger] answers[i]).0 == text
}

/// The contents of answers.
pub open spec fn replies(answers: Seq<(String, bool)>) -> Seq<(Seq<char>, bool)> {
    answers.map_values(|answer: (String, bool)| (answer.0@, answer.1))
}

/// `known` with all of `answers`, which came at `now`. Later answers replace earlier ones.
pub open spec fn with_answers(
    known: Map<Seq<char>, (bool, int)>,
    answers: Seq<(Seq<char>, bool)>,
    now: int,
) -> Map<Seq<char>, (bool, int)>
    decreases answers.len(),
{
    if answers.len() == 0 {
        known
    } else {
        with_answers(known, answers.drop_last(), now).insert(
            answers.last().0,
            (answers.last().1, now),
        )
    }
}

/// Questions which can be put to a program at once: every one is asked once, and fits in a line.
pub open spec fn are_questions(questions: Seq<Seq<char>>) -> bool {
    &&& questions.no_duplicates()
    &&& forall|i: int| 0 <= i < questions.len() ==> !(#[trigger] questions[i]).contains('\n')
}

/// What is known of the questions.
pub struct OpenableView {
    /// The answer for every text which has one, and when it came.
    pub answers: Map<Seq<char>, (bool, int)>,
    /// Questions which go out with the next batch.
    pub unanswered: Seq<Seq<char>>,
    /// A batch is in flight.
    pub waiting: bool,
    /// Where answers are delivered to.
    pub event_proxy: Option<EventProxy>,
    /// Batches which are to be asked.
    pub outgoing: Seq<BatchView>,
}

impl OpenableView {
    /// Nothing was asked yet.
    pub open spec fn empty() -> OpenableView {
        OpenableView {
            answers: Map::empty(),
            unanswered: Seq::empty(),
            waiting: false,
            event_proxy: None,
            outgoing: Seq::empty(),
        }
    }

    /// No question is asked twice at once, and no batch is without a question. While a batch is in
    /// flight, there is somebody to deliver the answers to.
    pub open spec fn is_orderly(self) -> bool {
        &&& are_questions(self.unanswered)
        &&& self.waiting ==> self.event_proxy is Some
        &&& forall|i: int|
            0 <= i < self.outgoing.len() ==> {
                &&& (#[trigger] self.outgoing[i]).questions.len() > 0
                &&& are_questions(self.outgoing[i].questions)
            }
    }

    /// The answer about `text` is recent.
    pub open spec fn is_fresh(self, text: Seq<char>, now: int) -> bool {
        self.answers.contains_key(text) && age(self.answers[text].1, now) < ANSWER_LIFETIME
    }

    /// What is said about `text`, if anything.
    pub open spec fn reply(self, text: Seq<char>) -> Option<bool> {
        if text.contains('\n') {
            Some(false)
        } else if self.answers.contains_key(text) {
            Some(self.answers[text].0)
        } else {
            None
        }
    }

    /// All questions are put to `program`, unless a batch is in flight or there is nobody to deliver
    /// the answers to.
    pub open spec fn sent(self, program: CommandLine) -> OpenableView {
        match self.event_proxy {
            Some(event_proxy) => if self.waiting || self.unanswered.len() == 0 {
                self
            } else {
                OpenableView {
                    unanswered: Seq::empty(),
                    waiting: true,
                    outgoing: self.outgoing.push(
                        BatchView { event_proxy, program, questions: self.unanswered },
                    ),
                    ..self
                }
            },
            None => self,
        }
    }

    /// `text` is one of the questions for the next batch, which goes out if it can.
    pub open spec fn enqueued(self, program: CommandLine, text: Seq<char>) -> OpenableView {
        let queued = OpenableView {
            unanswered: if self.unanswered.contains(text) {
                self.unanswered
            } else {
                self.unanswered.push(text)
            },
            ..self
        };
        queued.sent(program)
    }

    /// What changes when somebody asks about `text`.
    pub open spec fn asked(
        self,
        program: CommandLine,
        text: Seq<char>,
        now: int,
    ) -> OpenableView {
        if text.contains('\n') || self.is_fresh(text, now) {
            self
        } else {
            self.enqueued(program, text)
        }
    }

    /// What changes when answers come in.
    ///
    /// An old answer is dropped, unless a question about the same text waits for the next batch.
    pub open spec fn answered(self, answers: Seq<(Seq<char>, bool)>, now: int) -> OpenableView {
        let unanswered = self.unanswered.filter(|text: Seq<char>| !is_answered(answers, text));
        let known = with_answers(self.answers, answers, now);
        OpenableView {
            answers: Map::new(
                |text: Seq<char>|
                    known.contains_key(text) && (age(known[text].1, now) < ANSWER_RETENTION
                        || unanswered.contains(text)),
                |text: Seq<char>| known[text],
            ),
            unanswered,
            waiting: false,
            ..self
        }
    }
}

/// Answers which are known, and questions which are not answered yet.
pub struct Openable {
    answers: Vec<Answer>,
    unanswered: Vec<String>,
    waiting: bool,
    event_proxy: Option<EventProxy>,
    outgoing: Vec<Batch>,
    /// Moment from which time is measured.
    origin: Instant,
}

impl View for Openable {
    type V = OpenableView;

    closed spec fn view(&self) -> OpenableView {
        OpenableView {
            answers: answer_map(self.answers@),
            unanswered: crate::config::texts(self.unanswered@),
            waiting: self.waiting,
            event_proxy: self.event_proxy,
            outgoing: self.outgoing@.map_values(|batch: Batch| batch@),
        }
    }
}

impl Default for Openable {
    fn default() -> (openable: Self)
        ensures
            openable.wf(),
            openable@ == OpenableView::empty(),
    {
        let openable = Openable {
            answers: Vec::new(),
            unanswered: Vec::new(),
            waiting: false,
            event_proxy: None,
            outgoing: Vec::new(),
            origin: standard::now(),
        };
        proof {
            assert(openable@.answers =~= Map::empty());
            assert(openable@.unanswered =~= Seq::empty());
            assert(openable@.outgoing =~= Seq::empty());
        }
        openable
    }
}

/// The index of a text in a list.
fn position(list: &Vec<String>, text: &String) -> (found: Option<usize>)
    ensures
        found is Some <==> crate::config::texts(list@).contains(text@),
        found matches Some(i) ==> i < list@.len() && list@[i as int]@ == text@,
{
    let mut i: usize = 0;
    while i < list.len()
        invariant
            i <= list@.len(),
            forall|j: int| 0 <= j < i ==> (#[trigger] list@[j])@ != text@,
        decreases list@.len() - i,
    {
        if list[i] == *text {
            assert(crate::config::texts(list@)[i as int] == text@);
            return Some(i);
        }
        i = i + 1;
    }
    assert forall|j: int| 0 <= j < list@.len() implies crate::config::texts(list@)[j] != text@ by {
        assert(list@[j]@ != text@);
    }
    None
}

impl Openable {
    /// No text has two answers.
    pub closed spec fn has_unique_answers(&self) -> bool {
        are_unique(self.answers@)
    }

    /// No text has two answers, and no question is asked twice at once.
    pub open spec fn wf(&self) -> bool {
        self.has_unique_answers() && self@.is_orderly()
    }

    /// Set the proxy that answers are delivered through.
    pub fn set_event_proxy(&mut self, event_proxy: EventProxy)
        requires
            old(self).wf(),
        ensures
            final(self).wf(),
            final(self)@ == (OpenableView { event_proxy: Some(event_proxy), ..old(self)@ }),
    {
        self.event_proxy = Some(event_proxy);
    }

    /// Questions which go out with the next batch.
    pub fn unanswered(&self) -> (unanswered: &Vec<String>)
        ensures
            crate::config::texts(unanswered@) == self@.unanswered,
    {
        &self.unanswered
    }

    /// Check if a batch is in flight.
    pub fn waiting(&self) -> (waiting: bool)
        ensures
            waiting == self@.waiting,
    {
        self.waiting
    }

    /// Take out the batches which are to be asked.
    ///
    /// The answers to each of them are to be handed to [`Openable::answer`].
    pub fn take_outgoing(&mut self) -> (outgoing: Vec<Batch>)
        requires
            old(self).wf(),
        ensures
            final(self).wf(),
            final(self)@ == (OpenableView { outgoing: Seq::empty(), ..old(self)@ }),
            outgoing@.map_values(|batch: Batch| batch@) == old(self)@.outgoing,
    {
        let mut outgoing: Vec<Batch> = Vec::new();
        std::mem::swap(&mut outgoing, &mut self.outgoing);
        assert(self@.outgoing =~= Seq::empty());
        outgoing
    }

    /// Time since the first moment which was measured, in nanoseconds.
    pub(crate) fn clock(&self) -> (now: u128) {
        standard::elapsed(&self.origin)
    }

    /// The index of the answer about a text.
    fn find(&self, text: &String) -> (found: Option<usize>)
        ensures
            found is Some <==> has_text(self.answers@, text@),
            found matches Some(i) ==> i < self.answers@.len() && self.answers@[i as int].text@
                == text@,
    {
        let mut i: usize = 0;
        while i < self.answers.len()
            invariant
                i <= self.answers@.len(),
                forall|j: int| 0 <= j < i ==> (#[trigger] self.answers@[j]).text@ != text@,
            decreases self.answers@.len() - i,
        {
            if self.answers[i].text == *text {
                return Some(i);
            }
            i = i + 1;
        }
        None
    }

    /// What is said about a text, without asking anybody.
    pub(crate) fn reply(&self, text: &str) -> (reply: Option<bool>)
        requires
            self.wf(),
        ensures
            reply == self@.reply(text@),
    {
        if has_line_feed(text) {
            return Some(false);
        }
        match self.find(&text.to_owned()) {
            Some(i) => {
                proof {
                    lemma_answer(self.answers@, i as int);
                }
                Some(self.answers[i].opens)
            },
            None => None,
        }
    }

    /// Whether `program` would open `text`, or `None` until it has said.
    pub fn ask(&mut self, program: &Program, text: &str) -> (reply: Option<bool>)
        requires
            old(self).wf(),
        ensures
            final(self).wf(),
            reply == old(self)@.reply(text@),
            exists|now: u128|
                final(self)@ == #[trigger] old(self)@.asked(program@, text@, now as int),
    {
        let now: u128 = self.clock();
        self.ask_at(program, text, now)
    }

    /// Whether `program` would open `text`, when somebody asks at `now`.
    pub fn ask_at(&mut self, program: &Program, text: &str, now: u128) -> (reply: Option<bool>)
        requires
            old(self).wf(),
        ensures
            final(self).wf(),
            reply == old(self)@.reply(text@),
            final(self)@ == old(self)@.asked(program@, text@, now as int),
    {
        // Answers come back a line at a time, which cannot carry a newline.
        // Nothing spanning a line break is a path anyway.
        if has_line_feed(text) {
            return Some(false);
        }
        proof {
            asking_keeps_order(self@, program@, text@, now as int);
        }
        let question: String = text.to_owned();
        match self.find(&question) {
            Some(i) => {
                proof {
                    lemma_answer(self.answers@, i as int);
                }
                let opens: bool = self.answers[i].opens;
                let at: u128 = self.answers[i].at;
                if at < now && now - at >= ANSWER_LIFETIME {
                    self.enqueue(program, question);
                }
                Some(opens)
            },
            None => {
                self.enqueue(program, question);
                None
            },
        }
    }

    fn enqueue(&mut self, program: &Program, text: String)
        requires
            old(self).has_unique_answers(),
        ensures
            final(self).has_unique_answers(),
            final(self)@ == old(self)@.enqueued(program@, text@),
    {
        if position(&self.unanswered, &text).is_none() {
            let ghost before = self.unanswered@;
            self.unanswered.push(text);
            assert(crate::config::texts(self.unanswered@) =~= crate::config::texts(before).push(
                text@,
            ));
        }
        self.ask_program(program);
    }

    /// Put every question asked since the last batch to the program at once.
    ///
    /// One batch is in flight at a time, so a screen full of matches costs two processes rather
    /// than one per match.
    fn ask_program(&mut self, program: &Program)
        requires
            old(self).has_unique_answers(),
        ensures
            final(self).has_unique_answers(),
            final(self)@ == old(self)@.sent(program@),
    {
        if let Some(event_proxy) = self.event_proxy {
            if self.waiting || self.unanswered.is_empty() {
                return ;
            }
            let mut questions: Vec<String> = Vec::new();
            std::mem::swap(&mut questions, &mut self.unanswered);
            let batch = Batch { event_proxy, program: program.clone(), questions };
            self.waiting = true;
            let ghost before = self.outgoing@;
            self.outgoing.push(batch);
            proof {
                assert(self@.unanswered =~= Seq::empty());
                assert(self@.outgoing =~= before.map_values(|batch: Batch| batch@).push(batch@));
            }
        }
    }

    /// Record the answers to a batch of questions. Questions asked while that batch was in flight go
    /// out with the next one.
    pub fn answer(&mut self, answers: Vec<(String, bool)>)
        requires
            old(self).wf(),
        ensures
            final(self).wf(),
            exists|now: u128|
                final(self)@ == #[trigger] old(self)@.answered(replies(answers@), now as int),
    {
        let now: u128 = self.clock();
        self.answer_at(answers, now)
    }

    /// Record the answers to a batch of questions, which came in at `now`.
    pub fn answer_at(&mut self, answers: Vec<(String, bool)>, now: u128)
        requires
            old(self).wf(),
        ensures
            final(self).wf(),
            final(self)@ == old(self)@.answered(replies(answers@), now as int),
    {
        let ghost told = replies(answers@);
        proof {
            answering_keeps_order(self@, told, now as int);
        }
        self.drop_answered(&answers);
        self.remember(&answers, now);
        self.drop_old(now);
        self.waiting = false;
        assert(self@.answers =~= old(self)@.answered(told, now as int).answers);
    }

    /// Forget the questions which were answered.
    fn drop_answered(&mut self, answers: &Vec<(String, bool)>)
        requires
            old(self).has_unique_answers(),
        ensures
            final(self).has_unique_answers(),
            final(self)@ == (OpenableView {
                unanswered: old(self)@.unanswered.filter(
                    |text: Seq<char>| !is_answered(replies(answers@), text),
                ),
                ..old(self)@
            }),
    {
        let ghost told = replies(answers@);
        let ghost open = |text: Seq<char>| !is_answered(told, text);
        let ghost all = self@.unanswered;
        let mut kept: Vec<String> = Vec::new();
        let mut i: usize = 0;
        assert(all.take(0).filter(open) =~= Seq::empty());
        while i < self.unanswered.len()
            invariant
                i <= self.unanswered@.len(),
                *self == *old(self),
                told == replies(answers@),
                open == (|text: Seq<char>| !is_answered(told, text)),
                all == crate::config::texts(self.unanswered@),
                crate::config::texts(kept@) == all.take(i as int).filter(open),
            decreases self.unanswered@.len() - i,
        {
            let ghost text = self.unanswered@[i as int]@;
            let mut answered: bool = false;
            let mut j: usize = 0;
            while j < answers.len()
                invariant
                    i < self.unanswered@.len(),
                    j <= answers@.len(),
                    told == replies(answers@),
                    text == self.unanswered@[i as int]@,
                    answered == exists|k: int| 0 <= k < j && (#[trigger] told[k]).0 == text,
                decreases answers@.len() - j,
            {
                assert(told[j as int].0 == answers@[j as int].0@);
                if answers[j].0 == self.unanswered[i] {
                    answered = true;
                }
                j = j + 1;
            }
            assert(answered == is_answered(told, text));
            let ghost before = kept@;
            if !answered {
                kept.push(self.unanswered[i].clone());
                assert(crate::config::texts(kept@) =~= crate::config::texts(before).push(text));
            }
            proof {
                assert(all.take(i + 1).drop_last() =~= all.take(i as int));
                assert(all.take(i + 1).last() == text);
                reveal(Seq::filter);
            }
            i = i + 1;
        }
        assert(all.take(i as int) =~= all);
        self.unanswered = kept;
        assert(self@.unanswered =~= all.filter(
            |text: Seq<char>| !is_answered(replies(answers@), text),
        ));
    }

    /// Remember one answer.
    fn remember_one(&mut self, text: String, opens: bool, now: u128)
        requires
            old(self).has_unique_answers(),
        ensures
            final(self).has_unique_answers(),
            final(self)@ == (OpenableView {
                answers: old(self)@.answers.insert(text@, (opens, now as int)),
                ..old(self)@
            }),
    {
        let ghost before = self.answers@;
        let ghost content = text@;
        let answer = Answer { text, opens, at: now };
        match self.find(&answer.text) {
            Some(i) => {
                self.answers.set(i, answer);
                proof {
                    lemma_replaced(before, i as int, answer);
                }
            },
            None => {
                self.answers.push(answer);
                proof {
                    lemma_pushed(before, answer);
                }
            },
        }
    }

    /// Remember all answers.
    fn remember(&mut self, answers: &Vec<(String, bool)>, now: u128)
        requires
            old(self).has_unique_answers(),
        ensures
            final(self).has_unique_answers(),
            final(self)@ == (OpenableView {
                answers: with_answers(old(self)@.answers, replies(answers@), now as int),
                ..old(self)@
            }),
    {
        let ghost told = replies(answers@);
        let ghost before = self@.answers;
        let mut i: usize = 0;
        while i < answers.len()
            invariant
                i <= answers@.len(),
                self.has_unique_answers(),
                told == replies(answers@),
                before == old(self)@.answers,
                self@ == (OpenableView {
                    answers: with_answers(before, told.take(i as int), now as int),
                    ..old(self)@
                }),
            decreases answers@.len() - i,
        {
            self.remember_one(answers[i].0.clone(), answers[i].1, now);
            i = i + 1;
            proof {
                assert(told.take(i as int).drop_last() =~= told.take(i - 1));
                assert(told.take(i as int).last() == told[i - 1]);
            }
        }
        assert(told.take(i as int) =~= told);
    }

    /// Forget old answers, unless a question about the same text waits for the next batch.
    fn drop_old(&mut self, now: u128)
        requires
            old(self).has_unique_answers(),
        ensures
            final(self).has_unique_answers(),
            final(self)@ == (OpenableView {
                answers: final(self)@.answers,
                ..old(self)@
            }),
            final(self)@.answers == Map::new(
                |text: Seq<char>|
                    old(self)@.answers.contains_key(text) && (age(
                        old(self)@.answers[text].1,
                        now as int,
                    ) < ANSWER_RETENTION || old(self)@.unanswered.contains(text)),
                |text: Seq<char>| old(self)@.answers[text],
            ),
    {
        let ghost all = self.answers@;
        let ghost known = self@.answers;
        let ghost waiting = self@.unanswered;
        let mut kept: Vec<Answer> = Vec::new();
        while self.answers.len() > 0
            invariant
                self.answers@ == all.take(self.answers@.len() as int),
                self.answers@.len() <= all.len(),
                are_unique(all),
                known == answer_map(all),
                waiting == crate::config::texts(self.unanswered@),
                self.unanswered == old(self).unanswered,
                self.waiting == old(self).waiting,
                self.event_proxy == old(self).event_proxy,
                self.outgoing == old(self).outgoing,
                kept@ == kept_from(all, self.answers@.len() as int, waiting, now as int),
            decreases self.answers@.len(),
        {
            let ghost n = self.answers@.len() - 1;
            if let Some(answer) = self.answers.pop() {
                assert(answer == all[n]);
                assert(self.answers@ =~= all.take(n));
                let recent: bool = answer.at >= now || now - answer.at < ANSWER_RETENTION;
                let keep: bool = recent || position(&self.unanswered, &answer.text).is_some();
                assert(keep == is_kept(answer, waiting, now as int));
                if keep {
                    kept.push(answer);
                }
            }
        }
        self.answers = kept;
        proof {
            lemma_all_kept(all, waiting, now as int);
        }
    }
}

/// A question which is asked is still asked once, and fits in a line.
pub proof fn asking_keeps_order(known: OpenableView, program: CommandLine, text: Seq<char>, now: int)
    requires
        known.is_orderly(),
    ensures
        known.asked(program, text, now).is_orderly(),
{
    let questions = if known.unanswered.contains(text) {
        known.unanswered
    } else {
        known.unanswered.push(text)
    };
    if !text.contains('\n') {
        assert(are_questions(questions)) by {
            assert forall|i: int, j: int|
                0 <= i < questions.len() && 0 <= j < questions.len() && i
                    != j implies questions[i] != questions[j] by {
                if i == known.unanswered.len() {
                    assert(known.unanswered[j] == questions[j]);
                } else if j == known.unanswered.len() {
                    assert(known.unanswered[i] == questions[i]);
                }
            }
        }
        assert(questions.len() > 0) by {
            if known.unanswered.contains(text) {
                let i = choose|i: int| 0 <= i < questions.len() && known.unanswered[i] == text;
            }
        }
    }
}

proof fn lemma_filter_keeps_questions(questions: Seq<Seq<char>>, open: spec_fn(Seq<char>) -> bool)
    requires
        are_questions(questions),
    ensures
        are_questions(questions.filter(open)),
    decreases questions.len(),
{
    reveal(Seq::filter);
    if questions.len() > 0 {
        let before = questions.drop_last();
        let last = questions.last();
        lemma_filter_keeps_questions(before, open);
        let kept = before.filter(open);
        if open(last) {
            assert forall|i: int| 0 <= i < kept.len() implies kept[i] != last by {
                assert(kept.contains(kept[i]));
                before.lemma_filter_contains_rev(open, kept[i]);
                let j = choose|j: int| 0 <= j < before.len() && before[j] == kept[i];
                assert(questions[j] != questions[questions.len() - 1]);
            }
        }
    }
}

/// Answers do not make anybody ask a question twice at once.
pub proof fn answering_keeps_order(known: OpenableView, answers: Seq<(Seq<char>, bool)>, now: int)
    requires
        known.is_orderly(),
    ensures
        known.answered(answers, now).is_orderly(),
{
    lemma_filter_keeps_questions(
        known.unanswered,
        |text: Seq<char>| !is_answered(answers, text),
    );
}

/// Asking does not change what is said about any text, nor where answers are delivered to.
pub proof fn asking_changes_no_answer(
    known: OpenableView,
    program: CommandLine,
    text: Seq<char>,
    now: int,
)
    ensures
        known.asked(program, text, now).answers == known.answers,
        known.asked(program, text, now).event_proxy == known.event_proxy,
        forall|other: Seq<char>|
            known.asked(program, text, now).reply(other) == #[trigger] known.reply(other),
{
}

/// Text which spans a line break is refused, and nobody is asked about it.
pub proof fn line_breaks_are_refused(
    known: OpenableView,
    program: CommandLine,
    text: Seq<char>,
    now: int,
)
    requires
        text.contains('\n'),
    ensures
        known.reply(text) == Some(false),
        known.asked(program, text, now) == known,
{
}

/// A recent answer costs nothing: nobody is asked.
pub proof fn fresh_answers_are_not_asked_again(
    known: OpenableView,
    program: CommandLine,
    text: Seq<char>,
    now: int,
)
    requires
        known.is_fresh(text, now),
    ensures
        known.asked(program, text, now) == known,
{
}

/// A question without a recent answer waits for the next batch, or goes out at once. It goes out at
/// once, together with all other questions, if no batch is in flight and somebody is there to
/// deliver the answers to.
pub proof fn stale_answers_are_asked_again(
    known: OpenableView,
    program: CommandLine,
    text: Seq<char>,
    now: int,
)
    requires
        !text.contains('\n'),
        !known.is_fresh(text, now),
    ensures
        ({
            let asked = known.asked(program, text, now);
            if known.waiting || known.event_proxy is None {
                &&& asked.unanswered.contains(text)
                &&& asked.outgoing == known.outgoing
            } else {
                &&& asked.unanswered.len() == 0
                &&& asked.waiting
                &&& asked.outgoing.len() == known.outgoing.len() + 1
                &&& asked.outgoing.drop_last() == known.outgoing
                &&& asked.outgoing.last().event_proxy == known.event_proxy.unwrap()
                &&& asked.outgoing.last().program == program
                &&& asked.outgoing.last().questions.contains(text)
                &&& forall|i: int|
                    0 <= i < known.unanswered.len()
                        ==> asked.outgoing.last().questions.contains(
                        #[trigger] known.unanswered[i],
                    )
            }
        }),
{
    let asked = known.asked(program, text, now);
    let questions = if known.unanswered.contains(text) {
        known.unanswered
    } else {
        known.unanswered.push(text)
    };
    assert(questions.contains(text)) by {
        if !known.unanswered.contains(text) {
            assert(questions[known.unanswered.len() as int] == text);
        }
    }
    assert forall|i: int| 0 <= i < known.unanswered.len() implies questions.contains(
        #[trigger] known.unanswered[i],
    ) by {
        assert(questions[i] == known.unanswered[i]);
    }
    if !known.waiting && known.event_proxy is Some {
        assert(asked.outgoing.drop_last() =~= known.outgoing);
    }
}

/// One batch is in flight at a time.
pub proof fn one_batch_is_in_flight(
    known: OpenableView,
    program: CommandLine,
    text: Seq<char>,
    now: int,
)
    requires
        known.waiting,
    ensures
        known.asked(program, text, now).waiting,
        known.asked(program, text, now).outgoing == known.outgoing,
{
}

proof fn lemma_with_answers(
    known: Map<Seq<char>, (bool, int)>,
    answers: Seq<(Seq<char>, bool)>,
    now: int,
    text: Seq<char>,
)
    ensures
        !is_answered(answers, text) ==> {
            &&& with_answers(known, answers, now).contains_key(text) == known.contains_key(text)
            &&& known.contains_key(text) ==> with_answers(known, answers, now)[text] == known[text]
        },
        is_answered(answers, text) ==> {
            &&& with_answers(known, answers, now).contains_key(text)
            &&& with_answers(known, answers, now)[text].1 == now
            &&& exists|i: int|
                {
                    &&& 0 <= i < answers.len()
                    &&& (#[trigger] answers[i]).0 == text
                    &&& answers[i].1 == with_answers(known, answers, now)[text].0
                    &&& forall|j: int|
                        i < j < answers.len() ==> (#[trigger] answers[j]).0 != text
                }
        },
    decreases answers.len(),
{
    if answers.len() > 0 {
        let before = answers.drop_last();
        lemma_with_answers(known, before, now, text);
        assert forall|i: int| 0 <= i < before.len() implies before[i] == answers[i] by {}
        if answers.last().0 == text {
            assert(answers[answers.len() - 1].0 == text);
        } else if is_answered(answers, text) {
            let i = choose|i: int| 0 <= i < answers.len() && (#[trigger] answers[i]).0 == text;
            assert(before[i].0 == text);
            let k = choose|k: int|
                {
                    &&& 0 <= k < before.len()
                    &&& (#[trigger] before[k]).0 == text
                    &&& before[k].1 == with_answers(known, before, now)[text].0
                    &&& forall|j: int| k < j < before.len() ==> (#[trigger] before[j]).0 != text
                };
            assert(answers[k].0 == text);
            assert forall|j: int| k < j < answers.len() implies (#[trigger] answers[j]).0
                != text by {
                if j < before.len() {
                    assert(before[j].0 != text);
                }
            }
        } else {
            if is_answered(before, text) {
                let i = choose|i: int| 0 <= i < before.len() && (#[trigger] before[i]).0 == text;
                assert(answers[i].0 == text);
            }
        }
    }
}

/// An answer is remembered, whether it is yes or no: it is what is said about the text from then on.
/// If there are two answers about a text, the later one counts.
pub proof fn answers_are_remembered(
    known: OpenableView,
    answers: Seq<(Seq<char>, bool)>,
    now: int,
    i: int,
)
    requires
        0 <= i < answers.len(),
        !answers[i].0.contains('\n'),
        forall|j: int| i < j < answers.len() ==> (#[trigger] answers[j]).0 != answers[i].0,
    ensures
        known.answered(answers, now).reply(answers[i].0) == Some(answers[i].1),
        known.answered(answers, now).is_fresh(answers[i].0, now),
        !known.answered(answers, now).unanswered.contains(answers[i].0),
{
    let text = answers[i].0;
    lemma_with_answers(known.answers, answers, now, text);
    assert(is_answered(answers, text));
    let k = choose|k: int|
        {
            &&& 0 <= k < answers.len()
            &&& (#[trigger] answers[k]).0 == text
            &&& answers[k].1 == with_answers(known.answers, answers, now)[text].0
            &&& forall|j: int| k < j < answers.len() ==> (#[trigger] answers[j]).0 != text
        };
    assert(k == i) by {
        if k < i {
            assert(answers[i].0 != text);
        } else if i < k {
            assert(answers[k].0 != answers[i].0);
        }
    }
    let open = |text: Seq<char>| !is_answered(answers, text);
    if known.unanswered.filter(open).contains(text) {
        known.unanswered.lemma_filter_contains_rev(open, text);
        let j = choose|j: int|
            0 <= j < known.unanswered.filter(open).len() && known.unanswered.filter(open)[j] == text;
        known.unanswered.lemma_filter_pred(open, j);
    }
}

/// Nothing is said about a text until there is an answer about it.
pub proof fn other_answers_say_nothing(
    known: OpenableView,
    answers: Seq<(Seq<char>, bool)>,
    now: int,
    text: Seq<char>,
)
    requires
        known.reply(text) is None,
        !is_answered(answers, text),
    ensures
        known.answered(answers, now).reply(text) is None,
{
    lemma_with_answers(known.answers, answers, now, text);
}

/// Other answers change nothing about an answer which is recent enough, or which somebody has asked
/// about since: it is still used while a new one is on its way. All others are forgotten.
pub proof fn answers_in_use_are_kept(
    known: OpenableView,
    answers: Seq<(Seq<char>, bool)>,
    now: int,
    text: Seq<char>,
)
    requires
        known.answers.contains_key(text),
        !is_answered(answers, text),
    ensures
        ({
            let after = known.answered(answers, now);
            let used = age(known.answers[text].1, now) < ANSWER_RETENTION
                || known.unanswered.contains(text);
            &&& after.answers.contains_key(text) == used
            &&& used ==> after.answers[text] == known.answers[text]
            &&& used ==> after.reply(text) == known.reply(text)
        }),
{
    lemma_with_answers(known.answers, answers, now, text);
    let open = |text: Seq<char>| !is_answered(answers, text);
    if known.unanswered.contains(text) {
        let j = choose|j: int| 0 <= j < known.unanswered.len() && known.unanswered[j] == text;
        known.unanswered.lemma_filter_contains(open, j);
    }
    if known.unanswered.filter(open).contains(text) {
        known.unanswered.lemma_filter_contains_rev(open, text);
    }
}

/// A question which was asked while a batch was in flight goes out with the next one: the answers to
/// the batch leave it waiting, and asking about anything without a recent answer sends it.
pub proof fn questions_wait_for_the_next_batch(
    known: OpenableView,
    program: CommandLine,
    text: Seq<char>,
    asked_at: int,
    answers: Seq<(Seq<char>, bool)>,
    answered_at: int,
    next_program: CommandLine,
    next_text: Seq<char>,
    next_at: int,
)
    requires
        known.waiting,
        known.event_proxy is Some,
        !text.contains('\n'),
        !known.is_fresh(text, asked_at),
        !is_answered(answers, text),
        !next_text.contains('\n'),
        !known.asked(program, text, asked_at).answered(answers, answered_at).is_fresh(
            next_text,
            next_at,
        ),
    ensures
        ({
            let answered = known.asked(program, text, asked_at).answered(answers, answered_at);
            let next = answered.asked(next_program, next_text, next_at);
            &&& !answered.waiting
            &&& answered.unanswered.contains(text)
            &&& next.outgoing.len() == known.outgoing.len() + 1
            &&& next.outgoing.last().questions.contains(text)
            &&& next.outgoing.last().questions.contains(next_text)
        }),
{
    let asked = known.asked(program, text, asked_at);
    stale_answers_are_asked_again(known, program, text, asked_at);
    let answered = asked.answered(answers, answered_at);
    let open = |text: Seq<char>| !is_answered(answers, text);
    let j = choose|j: int| 0 <= j < asked.unanswered.len() && asked.unanswered[j] == text;
    asked.unanswered.lemma_filter_contains(open, j);
    assert(answered.unanswered.contains(text));
    stale_answers_are_asked_again(answered, next_program, next_text, next_at);
    let k = choose|k: int| 0 <= k < answered.unanswered.len() && answered.unanswered[k] == text;
    assert(answered.unanswered[k] == text);
}

/// An answer is recent, or a question about the same text waits.
spec fn is_kept(answer: Answer, waiting: Seq<Seq<char>>, now: int) -> bool {
    age(answer.at as int, now) < ANSWER_RETENTION || waiting.contains(answer.text@)
}

proof fn lemma_pushed(before: Seq<Answer>, answer: Answer)
    requires
        are_unique(before),
        !has_text(before, answer.text@),
    ensures
        are_unique(before.push(answer)),
        answer_map(before.push(answer)) == answer_map(before).insert(
            answer.text@,
            (answer.opens, answer.at as int),
        ),
{
    let after = before.push(answer);
    assert forall|i: int, j: int| 0 <= i < j < after.len() implies (#[trigger] after[i]).text@ != (
    #[trigger] after[j]).text@ by {
        assert(before[i].text@ == after[i].text@);
    }
    let expected = answer_map(before).insert(answer.text@, (answer.opens, answer.at as int));
    assert forall|text: Seq<char>| answer_map(after).contains_key(text) <==> expected.contains_key(
        text,
    ) by {
        if has_text(before, text) {
            let i = choose|i: int| 0 <= i < before.len() && (#[trigger] before[i]).text@ == text;
            assert(after[i].text@ == text);
        }
        if text == answer.text@ {
            assert(after[before.len() as int].text@ == text);
        }
        if has_text(after, text) {
            let i = choose|i: int| 0 <= i < after.len() && (#[trigger] after[i]).text@ == text;
            if i < before.len() {
                assert(before[i].text@ == text);
            }
        }
    }
    assert forall|text: Seq<char>| expected.contains_key(text) implies answer_map(after)[text]
        == expected[text] by {
        if text == answer.text@ {
            lemma_answer(after, before.len() as int);
        } else {
            let i = choose|i: int| 0 <= i < before.len() && (#[trigger] before[i]).text@ == text;
            lemma_answer(before, i);
            assert(after[i] == before[i]);
            lemma_answer(after, i);
        }
    }
    assert(answer_map(after) =~= expected);
}

proof fn lemma_replaced(before: Seq<Answer>, i: int, answer: Answer)
    requires
        are_unique(before),
        0 <= i < before.len(),
        before[i].text@ == answer.text@,
    ensures
        are_unique(before.update(i, answer)),
        answer_map(before.update(i, answer)) == answer_map(before).insert(
            answer.text@,
            (answer.opens, answer.at as int),
        ),
{
    let after = before.update(i, answer);
    assert forall|j: int| 0 <= j < before.len() implies (#[trigger] after[j]).text@
        == before[j].text@ by {}
    assert forall|j: int, k: int| 0 <= j < k < after.len() implies (#[trigger] after[j]).text@ != (
    #[trigger] after[k]).text@ by {
        assert(before[j].text@ != before[k].text@);
    }
    let expected = answer_map(before).insert(answer.text@, (answer.opens, answer.at as int));
    assert forall|text: Seq<char>| answer_map(after).contains_key(text) <==> expected.contains_key(
        text,
    ) by {
        if has_text(before, text) {
            let j = choose|j: int| 0 <= j < before.len() && (#[trigger] before[j]).text@ == text;
            assert(after[j].text@ == text);
        }
        if text == answer.text@ {
            assert(after[i].text@ == text);
        }
        if has_text(after, text) {
            let j = choose|j: int| 0 <= j < after.len() && (#[trigger] after[j]).text@ == text;
            assert(before[j].text@ == text);
        }
    }
    assert forall|text: Seq<char>| expected.contains_key(text) implies answer_map(after)[text]
        == expected[text] by {
        if text == answer.text@ {
            lemma_answer(after, i);
        } else {
            let j = choose|j: int| 0 <= j < before.len() && (#[trigger] before[j]).text@ == text;
            assert(j != i);
            lemma_answer(before, j);
            assert(after[j] == before[j]);
            lemma_answer(after, j);
        }
    }
    assert(answer_map(after) =~= expected);
}

/// The answers from index `n` on which are kept, the last one first.
spec fn kept_from(all: Seq<Answer>, n: int, waiting: Seq<Seq<char>>, now: int) -> Seq<Answer>
    decreases all.len() - n,
{
    if n >= all.len() {
        Seq::empty()
    } else if is_kept(all[n], waiting, now) {
        kept_from(all, n + 1, waiting, now).push(all[n])
    } else {
        kept_from(all, n + 1, waiting, now)
    }
}

/// One of the answers from index `n` on is `answer`, and is kept.
spec fn is_kept_from(
    all: Seq<Answer>,
    n: int,
    waiting: Seq<Seq<char>>,
    now: int,
    answer: Answer,
) -> bool {
    exists|i: int| n <= i < all.len() && #[trigger] all[i] == answer && is_kept(answer, waiting, now)
}

proof fn lemma_kept_from(all: Seq<Answer>, n: int, waiting: Seq<Seq<char>>, now: int)
    requires
        0 <= n <= all.len(),
        are_unique(all),
    ensures
        are_unique(kept_from(all, n, waiting, now)),
        forall|answer: Answer|
            kept_from(all, n, waiting, now).contains(answer) <==> #[trigger] is_kept_from(
                all,
                n,
                waiting,
                now,
                answer,
            ),
    decreases all.len() - n,
{
    let kept = kept_from(all, n, waiting, now);
    if n < all.len() {
        let rest = kept_from(all, n + 1, waiting, now);
        lemma_kept_from(all, n + 1, waiting, now);
        if is_kept(all[n], waiting, now) {
            assert forall|k: int| 0 <= k < rest.len() implies (#[trigger] rest[k]).text@
                != all[n].text@ by {
                assert(rest.contains(rest[k]));
                assert(is_kept_from(all, n + 1, waiting, now, rest[k]));
                let i = choose|i: int| n + 1 <= i < all.len() && #[trigger] all[i] == rest[k];
                assert(all[n].text@ != all[i].text@);
            }
            assert forall|i: int, j: int| 0 <= i < j < kept.len() implies (
            #[trigger] kept[i]).text@ != (#[trigger] kept[j]).text@ by {
                assert(rest[i] == kept[i]);
                if j < rest.len() {
                    assert(rest[j] == kept[j]);
                }
            }
        }
        assert forall|answer: Answer| kept.contains(answer) <==> #[trigger] is_kept_from(
            all,
            n,
            waiting,
            now,
            answer,
        ) by {
            assert(rest.contains(answer) <==> is_kept_from(all, n + 1, waiting, now, answer));
            if kept.contains(answer) {
                let k = choose|k: int| 0 <= k < kept.len() && kept[k] == answer;
                if k < rest.len() {
                    assert(rest[k] == answer);
                    let i = choose|i: int| n + 1 <= i < all.len() && #[trigger] all[i] == answer;
                    assert(n <= i && all[i] == answer);
                } else {
                    assert(all[n] == answer);
                }
            }
            if is_kept_from(all, n, waiting, now, answer) {
                let i = choose|i: int| n <= i < all.len() && #[trigger] all[i] == answer;
                if i == n {
                    assert(kept[kept.len() - 1] == answer);
                } else {
                    assert(is_kept_from(all, n + 1, waiting, now, answer));
                    let k = choose|k: int| 0 <= k < rest.len() && rest[k] == answer;
                    assert(kept[k] == answer);
                }
            }
        }
    }
}

proof fn lemma_all_kept(all: Seq<Answer>, waiting: Seq<Seq<char>>, now: int)
    requires
        are_unique(all),
    ensures
        are_unique(kept_from(all, 0, waiting, now)),
        answer_map(kept_from(all, 0, waiting, now)) == Map::new(
            |text: Seq<char>|
                answer_map(all).contains_key(text) && (age(answer_map(all)[text].1, now)
                    < ANSWER_RETENTION || waiting.contains(text)),
            |text: Seq<char>| answer_map(all)[text],
        ),
{
    let kept = kept_from(all, 0, waiting, now);
    lemma_kept_from(all, 0, waiting, now);
    let known = answer_map(all);
    let expected = Map::new(
        |text: Seq<char>|
            known.contains_key(text) && (age(known[text].1, now) < ANSWER_RETENTION
                || waiting.contains(text)),
        |text: Seq<char>| known[text],
    );
    assert forall|text: Seq<char>| #[trigger] answer_map(kept).contains_key(
        text,
    ) implies expected.contains_key(text) && answer_map(kept)[text] == expected[text] by {
        let k = choose|k: int| 0 <= k < kept.len() && (#[trigger] kept[k]).text@ == text;
        assert(kept.contains(kept[k]));
        assert(is_kept_from(all, 0, waiting, now, kept[k]));
        let i = choose|i: int| 0 <= i < all.len() && #[trigger] all[i] == kept[k];
        lemma_answer(all, i);
        lemma_answer(kept, k);
    }
    assert forall|text: Seq<char>| #[trigger] expected.contains_key(text) implies answer_map(
        kept,
    ).contains_key(text) by {
        let i = choose|i: int| 0 <= i < all.len() && (#[trigger] all[i]).text@ == text;
        lemma_answer(all, i);
        assert(is_kept_from(all, 0, waiting, now, all[i]));
        let k = choose|k: int| 0 <= k < kept.len() && kept[k] == all[i];
        assert(kept[k].text@ == text);
    }
    assert forall|text: Seq<char>| #[trigger] answer_map(kept).dom().contains(
        text,
    ) == expected.dom().contains(text) by {
        assert(answer_map(kept).contains_key(text) <==> expected.contains_key(text));
    }
    assert(answer_map(kept).dom() =~= expected.dom());
    assert(answer_map(kept) =~= expected);
}

/// The arguments with which `program` is asked about `questions`. The questions stand behind a
/// separator, so that none of them is taken for an option.
pub open spec fn question_args(program: CommandLine, questions: Seq<Seq<char>>) -> Seq<Seq<char>> {
    program.args + seq!["--"@] + questions
}

/// The answers to `questions` which a program gives with what it prints: it would open a text which is
/// one of the lines.
pub open spec fn answers_told(
    output: Seq<char>,
    questions: Seq<Seq<char>>,
) -> Seq<(Seq<char>, bool)> {
    questions.map_values(
        |question: Seq<char>| (question, crate::text::lines(output).contains(question)),
    )
}

/// Get the arguments with which a program is asked.
pub fn question_arguments(program: &Program, questions: &Vec<String>) -> (args: Vec<String>)
    ensures
        crate::config::texts(args@) == question_args(
            program@,
            crate::config::texts(questions@),
        ),
{
    let ghost asked = crate::config::texts(questions@);
    let mut args: Vec<String> = program.args();
    args.push("--".to_owned());
    let mut i: usize = 0;
    assert(crate::config::texts(args@) =~= question_args(program@, asked.take(0)));
    while i < questions.len()
        invariant
            i <= questions@.len(),
            asked == crate::config::texts(questions@),
            crate::config::texts(args@) == question_args(program@, asked.take(i as int)),
        decreases questions@.len() - i,
    {
        let ghost before = args@;
        args.push(questions[i].clone());
        i = i + 1;
        proof {
            assert(crate::config::texts(args@) =~= crate::config::texts(before).push(asked[i - 1]));
            assert(asked.take(i as int) =~= asked.take(i - 1).push(asked[i - 1]));
            assert(crate::config::texts(args@) =~= question_args(program@, asked.take(i as int)));
        }
    }
    assert(asked.take(i as int) =~= asked);
    args
}

/// Read which of `questions` a program would open from what it printed: it prints the texts which it
/// would open, one in each line. Silence is taken for "none", and so is a program which could not be
/// run.
pub fn read_answers(stdout: Option<&[u8]>, questions: Vec<String>) -> (answers: Vec<(String, bool)>)
    ensures
        replies(answers@) == crate::config::texts(questions@).map_values(
            |question: Seq<char>|
                (
                    question,
                    match stdout {
                        Some(stdout) => crate::text::lines(
                            standard::lossy_text(stdout@),
                        ).contains(question),
                        None => false,
                    },
                ),
        ),
        replies(answers@) == answers_told(
            match stdout {
                Some(stdout) => standard::lossy_text(stdout@),
                None => Seq::empty(),
            },
            crate::config::texts(questions@),
        ),
        stdout matches Some(stdout) ==> (vstd::utf8::valid_utf8(stdout@) ==> standard::lossy_text(
            stdout@,
        ) == vstd::utf8::decode_utf8(stdout@)),
{
    match stdout {
        Some(stdout) => {
            let output: String = standard::from_utf8_lossy(stdout);
            let answers = answers_in(output.as_str(), questions);
            assert(replies(answers@) =~= crate::config::texts(questions@).map_values(
                |question: Seq<char>|
                    (
                        question,
                        crate::text::lines(standard::lossy_text(stdout@)).contains(question),
                    ),
            ));
            answers
        },
        None => {
            proof {
                reveal_strlit("");
                assert(""@ =~= Seq::empty());
            }
            let answers = answers_in("", questions);
            assert(replies(answers@) =~= crate::config::texts(questions@).map_values(
                |question: Seq<char>| (question, false),
            ));
            answers
        },
    }
}

/// Read which of `questions` a program would open from the text it printed.
pub fn answers_in(output: &str, questions: Vec<String>) -> (answers: Vec<(String, bool)>)
    ensures
        replies(answers@) == crate::config::texts(questions@).map_values(
            |question: Seq<char>| (question, crate::text::lines(output@).contains(question)),
        ),
        replies(answers@) == answers_told(output@, crate::config::texts(questions@)),
{
    let openable = split_lines(output);
    let ghost asked = crate::config::texts(questions@);
    let ghost lines = crate::text::lines(output@);
    let ghost judge = |question: Seq<char>| (question, lines.contains(question));
    let mut answers: Vec<(String, bool)> = Vec::new();
    let mut i: usize = 0;
    assert(replies(answers@) =~= asked.take(0).map_values(judge));
    while i < questions.len()
        invariant
            i <= questions@.len(),
            asked == crate::config::texts(questions@),
            lines == crate::text::contents(openable@),
            judge == (|question: Seq<char>| (question, lines.contains(question))),
            replies(answers@) == asked.take(i as int).map_values(judge),
        decreases questions@.len() - i,
    {
        let question: String = questions[i].clone();
        let characters = crate::text::characters(question.as_str());
        let mut opens: bool = false;
        let mut j: usize = 0;
        while j < openable.len()
            invariant
                j <= openable@.len(),
                lines == crate::text::contents(openable@),
                characters@ == question@,
                opens == exists|k: int| 0 <= k < j && #[trigger] lines[k] == question@,
            decreases openable@.len() - j,
        {
            assert(lines[j as int] == openable@[j as int]@);
            if same_characters(&openable[j], &characters) {
                opens = true;
            }
            j = j + 1;
        }
        assert(opens == lines.contains(question@));
        let ghost before = answers@;
        answers.push((question, opens));
        i = i + 1;
        proof {
            assert(replies(answers@) =~= replies(before).push((question@, opens)));
            assert(asked.take(i as int) =~= asked.take(i - 1).push(question@));
            assert(replies(answers@) =~= asked.take(i as int).map_values(judge));
        }
    }
    assert(asked.take(i as int) =~= asked);
    answers
}

/// An answer is used for one second, which is a billion nanoseconds, and is asked again after that.
/// An answer with a later time is used, too.
pub proof fn answers_are_used_for_a_second(known: OpenableView, text: Seq<char>, now: int)
    ensures
        known.is_fresh(text, now) <==> known.answers.contains_key(text) && now
            - known.answers[text].1 < 1_000_000_000,
{
}

/// What is said about a text is the answer about it, however old it is. Nothing is said without an
/// answer, and text with line breaks is refused whatever the answers are.
pub proof fn the_answer_is_what_is_said(known: OpenableView, text: Seq<char>)
    ensures
        known.reply(text) is None <==> !text.contains('\n') && !known.answers.contains_key(text),
        known.reply(text) == Some(true) <==> {
            &&& !text.contains('\n')
            &&& known.answers.contains_key(text)
            &&& known.answers[text].0
        },
{
}

/// Nobody is asked about text with line breaks, or about text with an answer which is less than a
/// second old. Any other text joins the queue behind all questions which wait, unless it waits
/// already. The whole queue goes out as one batch to the program if no batch is in flight and
/// somebody is there to deliver the answers to; otherwise it waits, and nothing goes out.
pub proof fn questions_join_the_queue(
    known: OpenableView,
    program: CommandLine,
    text: Seq<char>,
    now: int,
)
    ensures
        ({
            let asked = known.asked(program, text, now);
            let settled = text.contains('\n') || (known.answers.contains_key(text) && now
                - known.answers[text].1 < 1_000_000_000);
            let queue = if known.unanswered.contains(text) {
                known.unanswered
            } else {
                known.unanswered.push(text)
            };
            &&& asked.answers == known.answers
            &&& asked.event_proxy == known.event_proxy
            &&& settled ==> asked == known
            &&& !settled && (known.waiting || known.event_proxy is None) ==> {
                &&& asked.unanswered == queue
                &&& asked.waiting == known.waiting
                &&& asked.outgoing == known.outgoing
            }
            &&& !settled && !known.waiting && known.event_proxy is Some ==> {
                &&& asked.unanswered.len() == 0
                &&& asked.waiting
                &&& asked.outgoing == known.outgoing.push(
                    (BatchView {
                        event_proxy: known.event_proxy.unwrap(),
                        program,
                        questions: queue,
                    }),
                )
            }
        }),
{
    if known.unanswered.contains(text) {
        assert(known.unanswered.len() > 0);
    }
}

/// Answers which come in end the wait for the batch. The questions which they answer do not wait any
/// longer, and the others keep their order. Neither what is on its way nor where answers are delivered
/// to changes.
pub proof fn answers_end_the_wait(
    known: OpenableView,
    answers: Seq<(Seq<char>, bool)>,
    now: int,
    text: Seq<char>,
)
    ensures
        ({
            let after = known.answered(answers, now);
            &&& !after.waiting
            &&& after.event_proxy == known.event_proxy
            &&& after.outgoing == known.outgoing
            &&& after.unanswered == known.unanswered.filter(
                |question: Seq<char>|
                    forall|i: int| 0 <= i < answers.len() ==> (#[trigger] answers[i]).0 != question,
            )
            &&& after.unanswered.contains(text) <==> {
                &&& known.unanswered.contains(text)
                &&& forall|i: int| 0 <= i < answers.len() ==> (#[trigger] answers[i]).0 != text
            }
        }),
{
    let after = known.answered(answers, now);
    let open = |question: Seq<char>| !is_answered(answers, question);
    let other = |question: Seq<char>|
        forall|i: int| 0 <= i < answers.len() ==> (#[trigger] answers[i]).0 != question;
    assert forall|question: Seq<char>| #[trigger] open(question) == other(question) by {
        if is_answered(answers, question) {
            let i = choose|i: int| 0 <= i < answers.len() && (#[trigger] answers[i]).0 == question;
            assert(answers[i].0 == question);
        }
    }
    assert(open =~= other);
    if known.unanswered.contains(text) && !is_answered(answers, text) {
        let j = choose|j: int| 0 <= j < known.unanswered.len() && known.unanswered[j] == text;
        known.unanswered.lemma_filter_contains(open, j);
    }
    if after.unanswered.contains(text) {
        known.unanswered.lemma_filter_contains_rev(open, text);
        let j = choose|j: int| 0 <= j < after.unanswered.len() && after.unanswered[j] == text;
        known.unanswered.lemma_filter_pred(open, j);
        assert(open(text));
        assert(other(text));
    }
}

/// The answers which are known afterwards are those which came in, with the time at which they came,
/// and those from before which are less than a minute old, which is sixty billion nanoseconds, or
/// about which somebody still asks.
pub proof fn answers_are_kept_for_a_minute(
    known: OpenableView,
    answers: Seq<(Seq<char>, bool)>,
    now: int,
    text: Seq<char>,
)
    ensures
        ({
            let after = known.answered(answers, now).answers;
            let told = exists|i: int| 0 <= i < answers.len() && (#[trigger] answers[i]).0 == text;
            &&& told ==> {
                &&& after.contains_key(text)
                &&& after[text].1 == now
                &&& exists|i: int|
                    {
                        &&& 0 <= i < answers.len()
                        &&& (#[trigger] answers[i]).0 == text
                        &&& answers[i].1 == after[text].0
                        &&& forall|j: int|
                            i < j < answers.len() ==> (#[trigger] answers[j]).0 != text
                    }
            }
            &&& !told ==> {
                &&& after.contains_key(text) <==> known.answers.contains_key(text) && (now
                    - known.answers[text].1 < 60_000_000_000 || known.unanswered.contains(text))
                &&& after.contains_key(text) ==> after[text] == known.answers[text]
            }
        }),
{
    lemma_with_answers(known.answers, answers, now, text);
    answers_end_the_wait(known, answers, now, text);
    if !is_answered(answers, text) && known.answers.contains_key(text) {
        answers_in_use_are_kept(known, answers, now, text);
    }
}

/// A program is asked with its own arguments, two dashes and the questions, in this order.
pub proof fn questions_follow_two_dashes(program: CommandLine, questions: Seq<Seq<char>>, i: int)
    requires
        0 <= i < question_args(program, questions).len(),
    ensures
        question_args(program, questions).len() == program.args.len() + 1 + questions.len(),
        i < program.args.len() ==> question_args(program, questions)[i] == program.args[i],
        i == program.args.len() ==> question_args(program, questions)[i] == seq!['-', '-'],
        i > program.args.len() ==> question_args(program, questions)[i] == questions[i - 1
            - program.args.len()],
{
    reveal_strlit("--");
    assert("--"@ =~= seq!['-', '-']);
}

/// Every answer is told as it is, in the same place.
pub proof fn replies_are_told_as_they_are(answers: Seq<(String, bool)>, i: int)
    requires
        0 <= i < answers.len(),
    ensures
        replies(answers).len() == answers.len(),
        replies(answers)[i].0 == answers[i].0@,
        replies(answers)[i].1 == answers[i].1,
{
}

/// Every question gets an answer, in its place. It is yes if the program prints the text in a line of
/// its own, wherever in its output, and no if the program prints nothing.
pub proof fn programs_answer_in_lines(
    before: Seq<char>,
    behind: Seq<char>,
    questions: Seq<Seq<char>>,
    i: int,
)
    requires
        0 <= i < questions.len(),
        !questions[i].contains('\n'),
        before.len() == 0 || before[before.len() - 1] == '\n',
    ensures
        ({
            let text = questions[i];
            let output = before + text.push('\n') + behind;
            &&& answers_told(output, questions).len() == questions.len()
            &&& answers_told(output, questions)[i].0 == text
            &&& text.len() == 0 || text.last() != '\r' ==> answers_told(output, questions)[i].1
            &&& answers_told(before + text.push('\r').push('\n') + behind, questions)[i].1
            &&& text.len() > 0 ==> answers_told(before + text, questions)[i].1
            &&& !answers_told(Seq::empty(), questions)[i].1
        }),
{
    crate::text::printed_lines_are_lines(before, questions[i], behind);
    assert(crate::text::lines(Seq::empty()) =~= Seq::empty());
}

/// The answer is no if none of the lines which the program prints is the text.
pub proof fn other_lines_are_no_answer(
    output: Seq<char>,
    questions: Seq<Seq<char>>,
    i: int,
)
    requires
        0 <= i < questions.len(),
        forall|k: int|
            0 <= k < crate::text::lines(output).len() ==> #[trigger] crate::text::lines(output)[k]
                != questions[i],
    ensures
        !answers_told(output, questions)[i].1,
{
}

} // verus!
