//! Selection of matches with the keyboard.
use std::rc::Rc;
use vstd::prelude::*;

use crate::arrange::arrange;
use crate::config::{Hint, Program, UiConfig};
use crate::hint::{HintMatch, HintMatchView};
use crate::index::Match;
use crate::labels::{HintLabels, HINT_SPLIT_PERCENTAGE};
use crate::offer::find_offer;
use crate::openable::{Openable, OpenableView};
use crate::screen::Screen;
use crate::standard;
use crate::terminal::Terminal;
use crate::text::characters;

verus! {

/// What is left to be typed of label number `position` when `keys` were pressed. Nothing is left of
/// a label which does not start with them, or of one which the alphabet is too small for.
pub open spec fn label_left(alphabet: Seq<char>, keys: Seq<char>, position: nat) -> Seq<char> {
    let split = crate::labels::split_index(alphabet.len(), HINT_SPLIT_PERCENTAGE as nat);
    let label = crate::labels::label(alphabet, split, position);
    if crate::labels::has_label(alphabet.len(), split, position) && keys.is_prefix_of(label) {
        label.skip(keys.len() as int)
    } else {
        Seq::empty()
    }
}

/// What is left to be typed for each of `count` matches. The last match has the first label.
pub open spec fn labels_left(alphabet: Seq<char>, keys: Seq<char>, count: nat) -> Seq<Seq<char>> {
    Seq::new(count, |i: int| label_left(alphabet, keys, (count - 1 - i) as nat))
}

/// The last of `labels` which starts with `c`.
pub open spec fn last_starting(labels: Seq<Seq<char>>, c: char) -> Option<int>
    decreases labels.len(),
{
    if labels.len() == 0 {
        None
    } else if labels.last().len() > 0 && labels.last()[0] == c {
        Some(labels.len() - 1)
    } else {
        last_starting(labels.drop_last(), c)
    }
}

/// Progress of a hint selection.
pub struct SelectionView {
    /// Hint currently in use.
    pub hint: Option<Rc<Hint>>,
    /// Alphabet for hint labels.
    pub alphabet: Seq<char>,
    /// Visible matches.
    pub matches: Seq<Match>,
    /// What is left to be typed for each visible match.
    pub labels: Seq<Seq<char>>,
    /// Keys pressed for hint selection.
    pub keys: Seq<char>,
}

impl SelectionView {
    /// Every match has a label, and the matches come in the order in which they start. Without a hint
    /// there is neither a match nor a key.
    pub open spec fn wf(self) -> bool {
        &&& self.labels.len() == self.matches.len()
        &&& forall|i: int, j: int|
            0 <= i < j < self.matches.len() ==> (#[trigger] self.matches[i]).start.precedes(
                (#[trigger] self.matches[j]).start,
            )
        &&& self.hint is None ==> self.matches.len() == 0 && self.keys.len() == 0
    }

    /// No hint is in use.
    pub open spec fn stopped(self) -> SelectionView {
        SelectionView {
            hint: None,
            matches: Seq::empty(),
            labels: Seq::empty(),
            keys: Seq::empty(),
            ..self
        }
    }

    /// `found` is offered for selection.
    ///
    /// Without any match hint mode ends, unless an answer is missing.
    pub open spec fn offered(self, found: Seq<Match>, unanswered: bool) -> SelectionView {
        if found.len() > 0 {
            let matches = crate::arrange::arrangement(found);
            SelectionView {
                matches,
                labels: labels_left(self.alphabet, self.keys, matches.len()),
                ..self
            }
        } else if unanswered {
            SelectionView { matches: Seq::empty(), labels: Seq::empty(), ..self }
        } else {
            self.stopped()
        }
    }

    /// A key removes the last key which was pressed, or cancels the selection.
    pub open spec fn edited(self, c: char) -> SelectionView {
        if c == '\x08' || c == '\x1f' {
            SelectionView {
                keys: if self.keys.len() > 0 {
                    self.keys.drop_last()
                } else {
                    self.keys
                },
                ..self
            }
        } else if c == '\x1b' || c == '\x03' {
            self.stopped()
        } else {
            self
        }
    }

    /// The match whose label is completed by a key.
    pub open spec fn completed(self, screen: Screen, c: char) -> Option<HintMatchView> {
        match (self.hint, last_starting(self.labels, c)) {
            (Some(hint), Some(i)) => if self.labels[i].len() == 1 {
                Some(
                    HintMatchView {
                        bounds: self.matches[i],
                        hyperlink: screen.cell(self.matches[i].start).hyperlink,
                        hint,
                    },
                )
            } else {
                None
            },
            _ => None,
        }
    }

    /// A key selects a match, or is one of the keys for a longer label.
    pub open spec fn selected(self, c: char) -> SelectionView {
        match (self.hint, last_starting(self.labels, c)) {
            (Some(hint), Some(i)) => if self.labels[i].len() == 1 {
                if hint.persist {
                    SelectionView { keys: Seq::empty(), ..self }
                } else {
                    self.stopped()
                }
            } else {
                SelectionView { keys: self.keys.push(c), ..self }
            },
            _ => self,
        }
    }
}

impl SelectionView {
    /// All of `keys` are pressed one after another, while `found` is on the screen.
    spec fn typed(self, found: Seq<Match>, keys: Seq<char>) -> SelectionView
        decreases keys.len(),
    {
        if keys.len() == 0 {
            self
        } else {
            self.typed(found, keys.drop_last()).offered(found, false).selected(keys.last())
        }
    }
}

/// State of the hint selection.
pub struct HintStateView {
    /// Progress of the selection.
    pub selection: SelectionView,
    /// Answers about what hints would open.
    pub openable: OpenableView,
}

impl HintStateView {
    /// `hint` is in use.
    pub open spec fn started(self, hint: Rc<Hint>) -> HintStateView {
        HintStateView { selection: SelectionView { hint: Some(hint), ..self.selection }, ..self }
    }

    /// Labels are made of the characters of `alphabet`. The keys for other labels are dropped.
    pub open spec fn with_alphabet(self, alphabet: Seq<char>) -> HintStateView {
        if self.selection.alphabet == alphabet {
            self
        } else {
            HintStateView {
                selection: SelectionView { alphabet, keys: Seq::empty(), ..self.selection },
                ..self
            }
        }
    }

    /// Matches and labels are those of a screen.
    pub open spec fn updated(
        self,
        screen: Screen,
        command: Option<Program>,
        now: int,
    ) -> HintStateView {
        match self.selection.hint {
            Some(hint) => {
                let offer = crate::offer::offer(screen, command, &*hint, self.openable, now);
                HintStateView {
                    selection: self.selection.offered(offer.found, offer.unanswered),
                    openable: offer.openable,
                }
            },
            None => self,
        }
    }

    /// What a key is looked up in: matches and labels are those of a screen, with the keys which are
    /// left when `c` is a key for editing.
    pub open spec fn prepared(
        self,
        screen: Screen,
        command: Option<Program>,
        c: char,
        now: int,
    ) -> HintStateView {
        HintStateView { selection: self.selection.edited(c), ..self }.updated(screen, command, now)
    }

    /// A key was pressed.
    pub open spec fn pressed(
        self,
        screen: Screen,
        command: Option<Program>,
        c: char,
        now: int,
    ) -> HintStateView {
        let prepared = self.prepared(screen, command, c, now);
        HintStateView { selection: prepared.selection.selected(c), ..prepared }
    }

    /// All of `keys` are pressed one after another while the screen stays the same, each at the time
    /// in `times`.
    pub open spec fn typed(
        self,
        screen: Screen,
        command: Option<Program>,
        keys: Seq<char>,
        times: Seq<int>,
    ) -> HintStateView
        decreases keys.len(),
    {
        if keys.len() == 0 {
            self
        } else {
            self.typed(screen, command, keys.drop_last(), times).pressed(
                screen,
                command,
                keys.last(),
                times[keys.len() - 1],
            )
        }
    }
}

/// A key which removes a key or cancels a selection.
pub open spec fn is_editing_key(c: char) -> bool {
    c == '\x08' || c == '\x1f' || c == '\x1b' || c == '\x03'
}

/// The contents of labels.
pub open spec fn label_views(labels: Seq<Vec<char>>) -> Seq<Seq<char>> {
    labels.map_values(|label: Vec<char>| label@)
}

/// Take the keys which were pressed off a label.
fn without_keys(label: &Vec<char>, keys: &Vec<char>) -> (left: Vec<char>)
    ensures
        left@ == if keys@.is_prefix_of(label@) {
            label@.skip(keys@.len() as int)
        } else {
            Seq::empty()
        },
{
    let mut left: Vec<char> = Vec::new();
    let keys_len: usize = keys.len();
    if label.len() < keys_len {
        return left;
    }
    let mut i: usize = 0;
    while i < keys_len
        invariant
            i <= keys_len,
            keys_len == keys@.len(),
            keys_len <= label@.len(),
            left@ == Seq::<char>::empty(),
            forall|j: int| 0 <= j < i ==> keys@[j] == label@[j],
        decreases keys_len - i,
    {
        if keys[i] != label[i] {
            assert(keys@[i as int] != label@.subrange(0, keys_len as int)[i as int]);
            return left;
        }
        i = i + 1;
    }
    assert(keys@ =~= label@.subrange(0, keys_len as int));
    while i < label.len()
        invariant
            keys_len <= i <= label@.len(),
            left@ == label@.subrange(keys_len as int, i as int),
        decreases label@.len() - i,
    {
        left.push(label[i]);
        i = i + 1;
        assert(left@ =~= label@.subrange(keys_len as int, i as int));
    }
    assert(left@ =~= label@.skip(keys_len as int));
    left
}

/// Get what is left to be typed for each of `count` matches.
fn label_matches(alphabet: &String, keys: &Vec<char>, count: usize) -> (labels: Vec<Vec<char>>)
    ensures
        label_views(labels@) == labels_left(alphabet@, keys@, count as nat),
{
    let mut labels: Vec<Vec<char>> = Vec::new();
    let mut i: usize = 0;
    while i < count
        invariant
            i <= count,
            labels@.len() == i,
            forall|j: int| 0 <= j < i ==> (#[trigger] labels@[j])@ == Seq::<char>::empty(),
        decreases count - i,
    {
        labels.push(Vec::new());
        i = i + 1;
    }
    let characters: usize = characters(alphabet.as_str()).len();
    if characters == 0 {
        assert(label_views(labels@) =~= labels_left(alphabet@, keys@, count as nat));
        return labels;
    }
    let mut generator = HintLabels::new(alphabet.as_str(), HINT_SPLIT_PERCENTAGE);
    let ghost split = crate::labels::split_index(alphabet@.len(), HINT_SPLIT_PERCENTAGE as nat);
    let mut more: bool = generator.has_next();
    while i > 0 && more
        invariant
            i <= count,
            labels@.len() == count,
            generator.wf(),
            generator.alphabet() == alphabet@,
            generator.split_point() == split,
            split == crate::labels::split_index(alphabet@.len(), HINT_SPLIT_PERCENTAGE as nat),
            generator.position() == count - i,
            more == crate::labels::has_label(alphabet@.len(), split, generator.position()),
            forall|j: int| 0 <= j < i ==> (#[trigger] labels@[j])@ == Seq::<char>::empty(),
            forall|j: int|
                i <= j < count ==> (#[trigger] labels@[j])@ == label_left(
                    alphabet@,
                    keys@,
                    (count - 1 - j) as nat,
                ),
        decreases i,
    {
        i = i - 1;
        let label = generator.next();
        more = generator.has_next();
        labels.set(i, without_keys(&label, keys));
    }
    assert(label_views(labels@) =~= labels_left(alphabet@, keys@, count as nat)) by {
        assert forall|j: int| 0 <= j < i implies (#[trigger] labels@[j])@ == label_left(
            alphabet@,
            keys@,
            (count - 1 - j) as nat,
        ) by {
            assert(!crate::labels::has_label(alphabet@.len(), split, (count - 1 - j) as nat));
        }
    }
    labels
}

/// Progress of a hint selection.
pub struct Selection {
    /// Hint currently in use.
    hint: Option<Rc<Hint>>,
    /// Alphabet for hint labels.
    alphabet: String,
    /// Visible matches.
    matches: Vec<Match>,
    /// Key label for each visible match.
    labels: Vec<Vec<char>>,
    /// Keys pressed for hint selection.
    keys: Vec<char>,
}

impl View for Selection {
    type V = SelectionView;

    closed spec fn view(&self) -> SelectionView {
        SelectionView {
            hint: self.hint,
            alphabet: self.alphabet@,
            matches: self.matches@,
            labels: label_views(self.labels@),
            keys: self.keys@,
        }
    }
}

impl Selection {
    /// Nothing is selected yet.
    pub fn new(alphabet: &str) -> (selection: Selection)
        ensures
            selection@.alphabet == alphabet@,
            selection@ == selection@.stopped(),
    {
        let selection = Selection {
            hint: None,
            alphabet: alphabet.to_owned(),
            matches: Vec::new(),
            labels: Vec::new(),
            keys: Vec::new(),
        };
        assert(selection@.labels =~= Seq::empty());
        selection
    }

    /// Cancel the selection.
    fn stop(&mut self)
        ensures
            final(self)@ == old(self)@.stopped(),
    {
        self.matches.clear();
        self.labels.clear();
        self.keys.clear();
        self.hint = None;
        assert(self@.labels =~= Seq::empty());
    }

    /// Offer matches for selection. Without any match the selection ends, unless an answer about one
    /// is missing.
    pub fn offer(&mut self, found: &Vec<Match>, unanswered: bool)
        ensures
            final(self)@ == old(self)@.offered(found@, unanswered),
    {
        if found.is_empty() {
            // Labels appear as answers arrive, rather than hint mode ending the moment it starts
            // because nothing has answered yet.
            if unanswered {
                self.matches.clear();
                self.labels.clear();
                assert(self@.labels =~= Seq::empty());
                return ;
            }
            // Cancel highlight with no visible matches.
            self.stop();
            return ;
        }
        // Sort and dedup ranges. Currently overlapped but not exactly same ranges are kept.
        self.matches = arrange(found);

        // Get the label for each match.
        self.labels = label_matches(&self.alphabet, &self.keys, self.matches.len());
    }

    /// Handle the keys which remove a key or cancel the selection.
    pub fn edit(&mut self, c: char)
        ensures
            final(self)@ == old(self)@.edited(c),
    {
        if c == '\x08' || c == '\x1f' {
            // Use backspace to remove the last character pressed.
            self.keys.pop();
        } else if c == '\x1b' || c == '\x03' {
            // Cancel hint highlighting on ESC/Ctrl+c.
            self.stop();
        }
    }

    /// Find the last label starting with a character.
    fn find_label(&self, c: char) -> (found: Option<usize>)
        ensures
            found is Some <==> last_starting(self@.labels, c) is Some,
            found matches Some(i) ==> i < self.labels@.len() && last_starting(self@.labels, c)
                == Some(i as int),
    {
        let mut i: usize = self.labels.len();
        assert(self@.labels.take(i as int) =~= self@.labels);
        while i > 0
            invariant
                i <= self.labels@.len(),
                self@.labels == label_views(self.labels@),
                last_starting(self@.labels, c) == last_starting(self@.labels.take(i as int), c),
            decreases i,
        {
            let ghost left = self@.labels.take(i as int);
            i = i - 1;
            proof {
                assert(left.last() == self.labels@[i as int]@);
                assert(left.drop_last() =~= self@.labels.take(i as int));
            }
            if self.labels[i].len() > 0 && self.labels[i][0] == c {
                return Some(i);
            }
        }
        None
    }

    /// Handle the keys which select a match.
    pub fn select(&mut self, term: &Terminal, c: char) -> (selected: Option<HintMatch>)
        requires
            old(self)@.wf(),
            forall|i: int|
                0 <= i < old(self)@.matches.len() ==> term@.has(
                    (#[trigger] old(self)@.matches[i]).start,
                ),
        ensures
            final(self)@ == old(self)@.selected(c),
            crate::hint::match_view(selected) == old(self)@.completed(term@, c),
    {
        let hint = match &self.hint {
            Some(hint) => standard::share(hint),
            None => return None,
        };
        let index: usize = match self.find_label(c) {
            Some(index) => index,
            None => return None,
        };
        assert(self@.labels[index as int] == self.labels@[index as int]@);

        // Check if the selected label is fully matched.
        if self.labels[index].len() == 1 {
            let bounds = self.matches[index];

            // Exit hint mode unless it requires explicit dismissal.
            if hint.persist {
                self.keys.clear();
            } else {
                self.stop();
            }

            // Hyperlinks take precedence over regex matches.
            assert(bounds == old(self)@.matches[index as int]);
            let hyperlink = match term.hyperlink(bounds.start) {
                Some(hyperlink) => Some(hyperlink.clone()),
                None => None,
            };
            Some(HintMatch::new(bounds, hyperlink, hint))
        } else {
            // Store character to preserve the selection.
            self.keys.push(c);

            None
        }
    }

    /// Set the characters of the labels.
    fn set_alphabet(&mut self, alphabet: &str)
        ensures
            final(self)@ == (if old(self)@.alphabet == alphabet@ {
                old(self)@
            } else {
                SelectionView { alphabet: alphabet@, keys: Seq::empty(), ..old(self)@ }
            }),
    {
        let alphabet: String = alphabet.to_owned();
        if self.alphabet != alphabet {
            self.alphabet = alphabet;
            self.keys.clear();
        }
    }
}

/// Keyboard regex hint state.
pub struct HintState {
    /// Progress of the selection.
    pub selection: Selection,
    /// Answers about what `dan_openable` hints would open.
    pub openable: Openable,
}

impl View for HintState {
    type V = HintStateView;

    open spec fn view(&self) -> HintStateView {
        HintStateView { selection: self.selection@, openable: self.openable@ }
    }
}

impl HintState {
    /// Every match has a label, matches are in order, and without a hint there is none. No text has
    /// two answers.
    pub open spec fn wf(&self) -> bool {
        self.selection@.wf() && self.openable.wf()
    }

    /// Initialize an inactive hint state.
    pub fn new(alphabet: &str) -> (state: HintState)
        ensures
            state.wf(),
            state@.selection.alphabet == alphabet@,
            state@.selection == state@.selection.stopped(),
            state@.openable == OpenableView::empty(),
    {
        HintState { selection: Selection::new(alphabet), openable: Openable::default() }
    }

    /// Check if a hint selection is in progress.
    pub fn active(&self) -> (active: bool)
        ensures
            active == (self@.selection.hint is Some),
    {
        self.selection.hint.is_some()
    }

    /// Start the hint selection process.
    pub fn start(&mut self, hint: Rc<Hint>)
        requires
            old(self).wf(),
        ensures
            final(self).wf(),
            final(self)@ == (HintStateView {
                selection: SelectionView { hint: Some(hint), ..old(self)@.selection },
                ..old(self)@
            }),
            final(self)@ == old(self)@.started(hint),
    {
        self.selection.hint = Some(hint);
    }

    /// Update the visible hint matches and key labels.
    pub fn update_matches(&mut self, term: &Terminal, config: &UiConfig)
        requires
            old(self).wf(),
        ensures
            final(self).wf(),
            exists|now: u128|
                final(self)@ == #[trigger] old(self)@.updated(
                    term@,
                    config.hints.dan_openable_command,
                    now as int,
                ),
    {
        let now: u128 = self.openable.clock();
        self.update_matches_at(term, config, now)
    }

    /// Update the visible hint matches and key labels at `now`.
    pub fn update_matches_at(&mut self, term: &Terminal, config: &UiConfig, now: u128)
        requires
            old(self).wf(),
        ensures
            final(self).wf(),
            final(self)@ == old(self)@.updated(
                term@,
                config.hints.dan_openable_command,
                now as int,
            ),
            forall|i: int|
                0 <= i < final(self)@.selection.matches.len() ==> term@.has_match(
                    #[trigger] final(self)@.selection.matches[i],
                ),
    {
        let hint = match &self.selection.hint {
            Some(hint) => standard::share(hint),
            None => return ,
        };
        let (found, unanswered) = find_offer(term, config, &*hint, &mut self.openable, now);
        self.selection.offer(&found, unanswered);
        proof {
            crate::arrange::arrangement_exists(found@);
        }
        assert forall|i: int| 0 <= i < self@.selection.matches.len() implies term@.has_match(
            #[trigger] self@.selection.matches[i],
        ) by {
            assert(found@.contains(self@.selection.matches[i]));
        }
    }

    /// Handle keyboard input during hint selection.
    pub fn keyboard_input(&mut self, term: &Terminal, config: &UiConfig, c: char) -> (selected: Option<
        HintMatch,
    >)
        requires
            old(self).wf(),
        ensures
            final(self).wf(),
            exists|now: u128|
                {
                    &&& final(self)@ == #[trigger] old(self)@.pressed(
                        term@,
                        config.hints.dan_openable_command,
                        c,
                        now as int,
                    )
                    &&& crate::hint::match_view(selected) == old(self)@.prepared(
                        term@,
                        config.hints.dan_openable_command,
                        c,
                        now as int,
                    ).selection.completed(term@, c)
                },
    {
        let now: u128 = self.openable.clock();
        self.keyboard_input_at(term, config, c, now)
    }

    /// Handle keyboard input during hint selection at `now`.
    pub fn keyboard_input_at(
        &mut self,
        term: &Terminal,
        config: &UiConfig,
        c: char,
        now: u128,
    ) -> (selected: Option<HintMatch>)
        requires
            old(self).wf(),
        ensures
            final(self).wf(),
            final(self)@ == old(self)@.pressed(
                term@,
                config.hints.dan_openable_command,
                c,
                now as int,
            ),
            crate::hint::match_view(selected) == old(self)@.prepared(
                term@,
                config.hints.dan_openable_command,
                c,
                now as int,
            ).selection.completed(term@, c),
    {
        self.selection.edit(c);

        // Update the visible matches.
        self.update_matches_at(term, config, now);

        self.selection.select(term, c)
    }

    /// Hint key labels.
    pub fn labels(&self) -> (labels: &Vec<Vec<char>>)
        ensures
            label_views(labels@) == self@.selection.labels,
    {
        &self.selection.labels
    }

    /// Visible hint regex matches.
    pub fn matches(&self) -> (matches: &Vec<Match>)
        ensures
            matches@ == self@.selection.matches,
    {
        &self.selection.matches
    }

    /// Update the alphabet used for hint labels.
    pub fn update_alphabet(&mut self, alphabet: &str)
        requires
            old(self).wf(),
        ensures
            final(self).wf(),
            final(self)@ == (if old(self)@.selection.alphabet == alphabet@ {
                old(self)@
            } else {
                HintStateView {
                    selection: SelectionView {
                        alphabet: alphabet@,
                        keys: Seq::empty(),
                        ..old(self)@.selection
                    },
                    ..old(self)@
                }
            }),
            final(self)@ == old(self)@.with_alphabet(alphabet@),
    {
        self.selection.set_alphabet(alphabet);
    }
}

/// What is left of a label after one more key is the rest of what was left before.
pub proof fn keys_shorten_labels(alphabet: Seq<char>, keys: Seq<char>, c: char, position: nat)
    ensures
        ({
            let left = label_left(alphabet, keys, position);
            label_left(alphabet, keys.push(c), position) == if left.len() > 0 && left[0] == c {
                left.skip(1)
            } else {
                Seq::empty()
            }
        }),
{
    let split = crate::labels::split_index(alphabet.len(), HINT_SPLIT_PERCENTAGE as nat);
    let label = crate::labels::label(alphabet, split, position);
    let left = label_left(alphabet, keys, position);
    let longer = keys.push(c);
    if crate::labels::has_label(alphabet.len(), split, position) {
        if keys.is_prefix_of(label) && left.len() > 0 && left[0] == c {
            assert(longer =~= label.subrange(0, longer.len() as int));
            assert(label.skip(longer.len() as int) =~= left.skip(1));
        } else if longer.is_prefix_of(label) {
            assert(keys =~= label.subrange(0, keys.len() as int)) by {
                assert forall|i: int| 0 <= i < keys.len() implies keys[i] == label[i] by {
                    assert(longer[i] == label.subrange(0, longer.len() as int)[i]);
                }
            }
            assert(longer[keys.len() as int] == label.subrange(0, longer.len() as int)[keys.len() as int]);
            assert(left[0] == c);
        }
    }
}

/// What is left of one label is never the beginning of what is left of another one, so that it is
/// always clear which match is meant.
pub proof fn labels_left_are_prefix_free(
    alphabet: Seq<char>,
    keys: Seq<char>,
    count: nat,
    i: int,
    j: int,
)
    requires
        alphabet.no_duplicates(),
        0 <= i < count,
        0 <= j < count,
        i != j,
        labels_left(alphabet, keys, count)[i].len() > 0,
        labels_left(alphabet, keys, count)[j].len() > 0,
    ensures
        !labels_left(alphabet, keys, count)[i].is_prefix_of(labels_left(alphabet, keys, count)[j]),
{
    let split = crate::labels::split_index(alphabet.len(), HINT_SPLIT_PERCENTAGE as nat);
    let a = (count - 1 - i) as nat;
    let b = (count - 1 - j) as nat;
    let label_a = crate::labels::label(alphabet, split, a);
    let label_b = crate::labels::label(alphabet, split, b);
    let left_a = labels_left(alphabet, keys, count)[i];
    let left_b = labels_left(alphabet, keys, count)[j];
    crate::labels::labels_are_prefix_free(alphabet, split, a, b);
    if left_a.is_prefix_of(left_b) {
        assert forall|k: int| 0 <= k < label_a.len() implies label_a[k] == label_b[k] by {
            if k < keys.len() {
                assert(keys[k] == label_a.subrange(0, keys.len() as int)[k]);
                assert(keys[k] == label_b.subrange(0, keys.len() as int)[k]);
            } else {
                assert(left_a[k - keys.len()] == left_b.subrange(0, left_a.len() as int)[k
                    - keys.len()]);
            }
        }
        assert(label_a =~= label_b.subrange(0, label_a.len() as int));
    }
}

proof fn lemma_last_starting(labels: Seq<Seq<char>>, c: char)
    ensures
        match last_starting(labels, c) {
            Some(i) => {
                &&& 0 <= i < labels.len()
                &&& labels[i].len() > 0
                &&& labels[i][0] == c
                &&& forall|j: int|
                    i < j < labels.len() && (#[trigger] labels[j]).len() > 0 ==> labels[j][0] != c
            },
            None => forall|j: int|
                0 <= j < labels.len() && (#[trigger] labels[j]).len() > 0 ==> labels[j][0] != c,
        },
    decreases labels.len(),
{
    if labels.len() > 0 && !(labels.last().len() > 0 && labels.last()[0] == c) {
        let front = labels.drop_last();
        lemma_last_starting(front, c);
        assert forall|j: int| 0 <= j < front.len() implies front[j] == labels[j] by {}
        assert forall|j: int|
            0 <= j < labels.len() && (#[trigger] labels[j]).len() > 0 && (match last_starting(
                front,
                c,
            ) {
                Some(i) => i < j,
                None => true,
            }) implies labels[j][0] != c by {
            if j < front.len() {
                assert(front[j] == labels[j]);
            }
        }
    }
}

/// A key which completes the label of a match finds this label and no other. A key which a longer
/// label starts with does not complete any label.
proof fn lemma_key_finds_label(alphabet: Seq<char>, keys: Seq<char>, count: nat, i: int, c: char)
    requires
        alphabet.no_duplicates(),
        0 <= i < count,
        labels_left(alphabet, keys, count)[i].len() > 0,
        labels_left(alphabet, keys, count)[i][0] == c,
    ensures
        ({
            let labels = labels_left(alphabet, keys, count);
            last_starting(labels, c) matches Some(found) && 0 <= found < count && if labels[i].len()
                == 1 {
                found == i
            } else {
                labels[found].len() > 1
            }
        }),
{
    let labels = labels_left(alphabet, keys, count);
    lemma_last_starting(labels, c);
    if let Some(found) = last_starting(labels, c) {
        if found != i {
            labels_left_are_prefix_free(alphabet, keys, count, i, found);
            labels_left_are_prefix_free(alphabet, keys, count, found, i);
            if labels[i].len() == 1 {
                assert(labels[i] =~= labels[found].subrange(0, 1));
            }
            if labels[found].len() == 1 {
                assert(labels[found] =~= labels[i].subrange(0, 1));
            }
        }
    }
}

/// The key which completes the label of a match selects this match.
pub proof fn completing_a_label_selects_its_match(
    selection: SelectionView,
    screen: Screen,
    i: int,
    c: char,
)
    requires
        selection.hint is Some,
        selection.alphabet.no_duplicates(),
        selection.labels == labels_left(
            selection.alphabet,
            selection.keys,
            selection.matches.len(),
        ),
        0 <= i < selection.matches.len(),
        selection.labels[i] == seq![c],
    ensures
        selection.completed(screen, c) == Some(
            (HintMatchView {
                bounds: selection.matches[i],
                hyperlink: screen.cell(selection.matches[i].start).hyperlink,
                hint: selection.hint.unwrap(),
            }),
        ),
{
    lemma_key_finds_label(
        selection.alphabet,
        selection.keys,
        selection.matches.len(),
        i,
        c,
    );
}

proof fn lemma_typed(selection: SelectionView, found: Seq<Match>, i: int, n: int)
    requires
        selection.hint is Some,
        selection.keys.len() == 0,
        selection.alphabet.no_duplicates(),
        found.len() > 0,
        0 <= i < crate::arrange::arrangement(found).len(),
        0 <= n,
        n < labels_left(
            selection.alphabet,
            Seq::empty(),
            crate::arrange::arrangement(found).len(),
        )[i].len(),
    ensures
        ({
            let count = crate::arrange::arrangement(found).len();
            let label = labels_left(selection.alphabet, Seq::empty(), count)[i];
            let typed = selection.typed(found, label.take(n));
            &&& typed.hint == selection.hint
            &&& typed.alphabet == selection.alphabet
            &&& typed.keys == label.take(n)
            &&& labels_left(selection.alphabet, typed.keys, count)[i] == label.skip(n)
        }),
    decreases n,
{
    let count = crate::arrange::arrangement(found).len();
    let position = (count - 1 - i) as nat;
    let label = labels_left(selection.alphabet, Seq::empty(), count)[i];
    assert(selection.keys =~= Seq::empty());
    if n == 0 {
        assert(label.take(0) =~= Seq::empty());
        assert(label.skip(0) =~= label);
    } else {
        lemma_typed(selection, found, i, n - 1);
        let before = label.take(n - 1);
        let c = label[n - 1];
        let typed = selection.typed(found, before);
        let offered = typed.offered(found, false);
        assert(label.take(n).drop_last() =~= before);
        assert(label.take(n).last() == c);
        assert(label.take(n) =~= before.push(c));
        let left = labels_left(selection.alphabet, before, count);
        assert(left[i].len() > 1 && left[i][0] == c);
        lemma_key_finds_label(selection.alphabet, before, count, i, c);
        keys_shorten_labels(selection.alphabet, before, c, position);
        assert(label.skip(n - 1).skip(1) =~= label.skip(n));
    }
}

proof fn lemma_typing(
    selection: SelectionView,
    found: Seq<Match>,
    screen: Screen,
    i: int,
)
    requires
        selection.hint is Some,
        selection.keys.len() == 0,
        selection.alphabet.no_duplicates(),
        found.len() > 0,
        0 <= i < crate::arrange::arrangement(found).len(),
        selection.offered(found, false).labels[i].len() > 0,
    ensures
        ({
            let label = selection.offered(found, false).labels[i];
            let bounds = selection.offered(found, false).matches[i];
            let typed = selection.typed(found, label.drop_last()).offered(found, false);
            &&& typed.matches == selection.offered(found, false).matches
            &&& typed.completed(screen, label.last()) == Some(
                (HintMatchView {
                    bounds,
                    hyperlink: screen.cell(bounds.start).hyperlink,
                    hint: selection.hint.unwrap(),
                }),
            )
        }),
{
    assert(selection.keys =~= Seq::empty());
    let count = crate::arrange::arrangement(found).len();
    let label = labels_left(selection.alphabet, Seq::empty(), count)[i];
    assert(selection.offered(found, false).labels[i] == label);
    let n = label.len() - 1;
    lemma_typed(selection, found, i, n);
    assert(label.drop_last() =~= label.take(n));
    let typed = selection.typed(found, label.drop_last()).offered(found, false);
    assert(label.skip(n) =~= seq![label.last()]);
    assert(typed.labels[i] == seq![label.last()]);
    completing_a_label_selects_its_match(typed, screen, i, label.last());
}

proof fn lemma_state_typed(
    state: HintStateView,
    hint: Rc<Hint>,
    screen: Screen,
    command: Option<Program>,
    now: int,
    i: int,
    times: Seq<int>,
    n: int,
)
    requires
        state.selection.hint == Some(hint),
        state.selection.keys.len() == 0,
        state.selection.alphabet.no_duplicates(),
        forall|c: char| #[trigger]
            state.selection.alphabet.contains(c) ==> !is_editing_key(c),
        0 <= i < state.updated(screen, command, now).selection.matches.len(),
        0 <= n < state.updated(screen, command, now).selection.labels[i].len(),
    ensures
        ({
            let found = crate::offer::offer(screen, command, &*hint, state.openable, now).found;
            let label = state.updated(screen, command, now).selection.labels[i];
            let typed = state.typed(screen, command, label.take(n), times);
            let selection = state.selection.typed(found, label.take(n));
            &&& found.len() > 0
            &&& !is_editing_key(label[n])
            &&& typed.openable.answers == state.openable.answers
            &&& typed.selection.hint == Some(hint)
            &&& typed.selection.keys == selection.keys
            &&& typed.selection.hint == selection.hint
            &&& typed.selection.alphabet == selection.alphabet
        }),
    decreases n,
{
    let offer = crate::offer::offer(screen, command, &*hint, state.openable, now);
    let found = offer.found;
    crate::arrange::arrangement_exists(found);
    assert(state.selection.keys =~= Seq::empty());
    let label = state.updated(screen, command, now).selection.labels[i];
    let count = crate::arrange::arrangement(found).len();
    lemma_typed(state.selection, found, i, n);
    assert(state.selection.alphabet.contains(label[n])) by {
        let split = crate::labels::split_index(
            state.selection.alphabet.len(),
            HINT_SPLIT_PERCENTAGE as nat,
        );
        let position = (count - 1 - i) as nat;
        crate::labels::lemma_label_range(state.selection.alphabet.len(), split, position);
        let indices = crate::labels::label_indices(state.selection.alphabet.len(), split, position);
        assert(label =~= crate::labels::label(state.selection.alphabet, split, position));
        assert(indices[indices.len() - 1 - n] < state.selection.alphabet.len());
        assert(label[n] == state.selection.alphabet[indices[indices.len() - 1 - n] as int]);
    }
    if n == 0 {
        assert(label.take(0) =~= Seq::empty());
    } else {
        lemma_state_typed(state, hint, screen, command, now, i, times, n - 1);
        lemma_typed(state.selection, found, i, n - 1);
        let before = label.take(n - 1);
        let c = label[n - 1];
        assert(label.take(n).drop_last() =~= before);
        assert(label.take(n).last() == c);
        let typed = state.typed(screen, command, before, times);
        crate::offer::offers_depend_on_answers_alone(
            screen,
            command,
            &*hint,
            state.openable,
            now,
            typed.openable,
            times[n - 1],
        );
        crate::offer::offers_depend_on_answers_alone(
            screen,
            command,
            &*hint,
            typed.openable,
            times[n - 1],
            typed.openable,
            times[n - 1],
        );
        let prepared = typed.prepared(screen, command, c, times[n - 1]);
        let offered = state.selection.typed(found, before).offered(found, false);
        assert(typed.selection.edited(c) == typed.selection);
        assert(prepared.selection.labels == offered.labels);
        assert(prepared.selection.matches == offered.matches);
        let left = labels_left(state.selection.alphabet, before, count);
        assert(left[i] == label.skip(n - 1));
        lemma_key_finds_label(state.selection.alphabet, before, count, i, c);
        assert(label.take(n).len() == n);
    }
}

/// Typing the whole label of a match selects this match, as long as neither the screen nor the
/// answers change: the last character of the label completes it.
pub proof fn typing_a_label_selects_its_match(
    state: HintStateView,
    hint: Rc<Hint>,
    screen: Screen,
    command: Option<Program>,
    now: int,
    i: int,
    times: Seq<int>,
)
    requires
        state.selection.hint == Some(hint),
        state.selection.keys.len() == 0,
        state.selection.alphabet.no_duplicates(),
        forall|c: char| #[trigger]
            state.selection.alphabet.contains(c) ==> !is_editing_key(c),
        0 <= i < state.updated(screen, command, now).selection.matches.len(),
        state.updated(screen, command, now).selection.labels[i].len() > 0,
    ensures
        ({
            let shown = state.updated(screen, command, now).selection;
            let label = shown.labels[i];
            let typed = state.typed(screen, command, label.drop_last(), times);
            let last = label.len() - 1;
            typed.prepared(screen, command, label.last(), times[last]).selection.completed(
                screen,
                label.last(),
            ) == Some(
                (HintMatchView {
                    bounds: shown.matches[i],
                    hyperlink: screen.cell(shown.matches[i].start).hyperlink,
                    hint,
                }),
            )
        }),
{
    let found = crate::offer::offer(screen, command, &*hint, state.openable, now).found;
    crate::arrange::arrangement_exists(found);
    assert(state.selection.keys =~= Seq::empty());
    let shown = state.updated(screen, command, now).selection;
    let label = shown.labels[i];
    let last = label.len() - 1;
    assert(label.drop_last() =~= label.take(last));
    lemma_state_typed(state, hint, screen, command, now, i, times, last);
    lemma_typing(state.selection, found, screen, i);
    let typed = state.typed(screen, command, label.drop_last(), times);
    crate::offer::offers_depend_on_answers_alone(
        screen,
        command,
        &*hint,
        state.openable,
        now,
        typed.openable,
        times[last],
    );
    assert(label.last() == label[last]);
    assert(typed.selection.edited(label.last()) == typed.selection);
}

/// Every match has a label of its own as long as the alphabet has more than one character.
pub proof fn every_match_can_be_selected(
    selection: SelectionView,
    found: Seq<Match>,
    i: int,
)
    requires
        selection.keys.len() == 0,
        selection.alphabet.len() > 1,
        found.len() > 0,
        0 <= i < crate::arrange::arrangement(found).len(),
    ensures
        selection.offered(found, false).labels[i].len() > 0,
{
    let len = selection.alphabet.len();
    let split = crate::labels::split_index(len, HINT_SPLIT_PERCENTAGE as nat);
    let position = (crate::arrange::arrangement(found).len() - 1 - i) as nat;
    let label = crate::labels::label(selection.alphabet, split, position);
    crate::labels::lemma_half(len);
    crate::labels::lemma_label_range(len, split, position);
    assert(crate::labels::has_label(len, split, position));
    assert(label.len() > 0);
    assert(selection.keys =~= label.subrange(0, 0));
}

/// The keys which cancel a selection end it, whatever is on the screen, and select nothing.
pub proof fn escape_ends_the_selection(
    state: HintStateView,
    screen: Screen,
    command: Option<Program>,
    c: char,
    now: int,
)
    requires
        c == '\x1b' || c == '\x03',
    ensures
        state.pressed(screen, command, c, now).selection == state.selection.stopped(),
        state.pressed(screen, command, c, now).openable == state.openable,
        state.prepared(screen, command, c, now).selection.completed(screen, c) is None,
{
}

/// Backspace takes back a key which was pressed for a longer label.
pub proof fn backspace_takes_back_a_key(selection: SelectionView, c: char, i: int)
    requires
        selection.hint is Some,
        last_starting(selection.labels, c) == Some(i),
        selection.labels[i].len() != 1,
    ensures
        selection.selected(c).keys == selection.keys.push(c),
        selection.selected(c).edited('\x08') == selection,
        selection.selected(c).edited('\x1f') == selection,
{
    assert(selection.keys.push(c).drop_last() =~= selection.keys);
}

/// A hint which is meant to persist is still in use when one of its matches was selected, with all
/// of its matches and without any key. Any other hint is out of use then.
pub proof fn selecting_ends_the_selection(selection: SelectionView, screen: Screen, c: char)
    requires
        selection.completed(screen, c) is Some,
    ensures
        selection.selected(c) == if selection.hint.unwrap().persist {
            (SelectionView { keys: Seq::empty(), ..selection })
        } else {
            selection.stopped()
        },
{
}

/// Hint mode goes on as long as there is something to select, or may be once an answer arrives.
/// Otherwise it ends.
pub proof fn hint_mode_waits_for_answers(
    state: HintStateView,
    hint: Rc<Hint>,
    screen: Screen,
    command: Option<Program>,
    now: int,
)
    requires
        state.selection.hint == Some(hint),
    ensures
        ({
            let offer = crate::offer::offer(screen, command, &*hint, state.openable, now);
            let updated = state.updated(screen, command, now);
            &&& updated.selection.hint == if offer.found.len() > 0 || offer.unanswered {
                Some(hint)
            } else {
                None
            }
            &&& updated.selection.matches.len() == 0 <==> offer.found.len() == 0
            &&& updated.selection.labels.len() == updated.selection.matches.len()
        }),
{
    let offer = crate::offer::offer(screen, command, &*hint, state.openable, now);
    crate::arrange::arrangement_exists(offer.found);
}

/// Updating the matches again changes neither the matches nor the labels, as long as the screen and
/// the answers stay the same.
pub proof fn updating_again_changes_nothing(
    state: HintStateView,
    screen: Screen,
    command: Option<Program>,
    now: int,
    later: int,
)
    ensures
        state.updated(screen, command, now).updated(screen, command, later).selection
            == state.updated(screen, command, now).selection,
{
    if let Some(hint) = state.selection.hint {
        let first = crate::offer::offer(screen, command, &*hint, state.openable, now);
        crate::offer::offers_depend_on_answers_alone(
            screen,
            command,
            &*hint,
            state.openable,
            now,
            state.openable,
            now,
        );
        crate::offer::offers_depend_on_answers_alone(
            screen,
            command,
            &*hint,
            state.openable,
            now,
            first.openable,
            later,
        );
    }
}

/// Matches are offered from the top of the screen to the bottom, and no two of them start in the
/// same cell. The one which is closest to the bottom has the first label.
pub proof fn matches_are_offered_in_order(selection: SelectionView, found: Seq<Match>)
    requires
        found.len() > 0,
    ensures
        ({
            let offered = selection.offered(found, false);
            &&& crate::arrange::is_arrangement(found, offered.matches)
            &&& offered.matches.len() > 0
            &&& offered.labels.last() == label_left(selection.alphabet, selection.keys, 0)
        }),
{
    crate::arrange::arrangement_exists(found);
}

/// A key which is not the next one of any label changes nothing and selects nothing.
pub proof fn stray_keys_change_nothing(selection: SelectionView, screen: Screen, c: char)
    requires
        forall|i: int|
            0 <= i < selection.labels.len() ==> (#[trigger] selection.labels[i]).len() == 0
                || selection.labels[i][0] != c,
    ensures
        selection.selected(c) == selection,
        selection.completed(screen, c) is None,
{
    lemma_last_starting(selection.labels, c);
}

/// A key which neither edits the selection nor is the next one of any label on the screen leaves the
/// whole state as an update of the matches does, and selects nothing.
pub proof fn stray_keys_only_update_the_matches(
    state: HintStateView,
    screen: Screen,
    command: Option<Program>,
    c: char,
    now: int,
)
    requires
        c != '\x08' && c != '\x1f' && c != '\x1b' && c != '\x03',
        ({
            let labels = state.updated(screen, command, now).selection.labels;
            forall|i: int|
                0 <= i < labels.len() ==> (#[trigger] labels[i]).len() == 0 || labels[i][0] != c
        }),
    ensures
        state.pressed(screen, command, c, now) == state.updated(screen, command, now),
        state.prepared(screen, command, c, now).selection.completed(screen, c) is None,
{
    stray_keys_change_nothing(state.updated(screen, command, now).selection, screen, c);
}

/// While no hint is in use, a key changes nothing and selects nothing.
pub proof fn keys_need_a_hint(
    state: HintStateView,
    screen: Screen,
    command: Option<Program>,
    c: char,
    now: int,
)
    requires
        state.selection.wf(),
        state.selection.hint is None,
    ensures
        state.pressed(screen, command, c, now) == state,
        state.prepared(screen, command, c, now).selection.completed(screen, c) is None,
{
    let selection = state.selection;
    let pressed = state.pressed(screen, command, c, now).selection;
    assert(selection.matches =~= Seq::empty());
    assert(selection.labels =~= Seq::empty());
    assert(selection.keys =~= Seq::empty());
    assert(pressed.matches =~= selection.matches);
    assert(pressed.labels =~= selection.labels);
    assert(pressed.keys =~= selection.keys);
}

/// A key looks for the last label which starts with it. If the key is all of this label, the match is
/// selected, with the hyperlink of its first cell; a hint which persists stays in use without any
/// key, and another one is out of use. If more of the label is left, the key is kept, nothing else
/// changes and nothing is selected.
pub proof fn the_last_label_decides(
    selection: SelectionView,
    hint: Rc<Hint>,
    screen: Screen,
    c: char,
    i: int,
)
    requires
        selection.hint == Some(hint),
        0 <= i < selection.labels.len(),
        selection.labels[i].len() > 0,
        selection.labels[i][0] == c,
        forall|j: int|
            i < j < selection.labels.len() ==> (#[trigger] selection.labels[j]).len() == 0
                || selection.labels[j][0] != c,
    ensures
        ({
            let after = selection.selected(c);
            &&& after.alphabet == selection.alphabet
            &&& selection.labels[i].len() == 1 ==> {
                &&& selection.completed(screen, c) == Some(
                    (HintMatchView {
                        bounds: selection.matches[i],
                        hyperlink: screen.cell(selection.matches[i].start).hyperlink,
                        hint,
                    }),
                )
                &&& after.keys.len() == 0
                &&& hint.persist ==> {
                    &&& after.hint == Some(hint)
                    &&& after.matches == selection.matches
                    &&& after.labels == selection.labels
                }
                &&& !hint.persist ==> {
                    &&& after.hint is None
                    &&& after.matches.len() == 0
                    &&& after.labels.len() == 0
                }
            }
            &&& selection.labels[i].len() > 1 ==> {
                &&& selection.completed(screen, c) is None
                &&& after.keys == selection.keys.push(c)
                &&& after.hint == Some(hint)
                &&& after.matches == selection.matches
                &&& after.labels == selection.labels
            }
        }),
{
    lemma_last_starting(selection.labels, c);
    let found = last_starting(selection.labels, c).unwrap();
    assert(found == i) by {
        if found < i {
            assert(selection.labels[i][0] != c);
        }
        if found > i {
            assert(selection.labels[found].len() == 0 || selection.labels[found][0] != c);
        }
    }
}

/// Whatever is selected has a label which is all of the key.
pub proof fn only_a_whole_label_selects(selection: SelectionView, screen: Screen, c: char)
    ensures
        selection.completed(screen, c) matches Some(found) ==> exists|i: int|
            {
                &&& 0 <= i < selection.labels.len()
                &&& #[trigger] selection.labels[i] == seq![c]
                &&& found.bounds == selection.matches[i]
                &&& Some(found.hint) == selection.hint
            },
{
    lemma_last_starting(selection.labels, c);
    if let Some(found) = selection.completed(screen, c) {
        let i = last_starting(selection.labels, c).unwrap();
        assert(selection.labels[i] =~= seq![c]);
    }
}

/// Three things end a selection and nothing else: a key which cancels it, the whole label of a match
/// for a hint which does not persist, and a screen which leaves nothing to select or to wait for.
pub proof fn selections_end_for_a_reason(
    state: HintStateView,
    hint: Rc<Hint>,
    screen: Screen,
    command: Option<Program>,
    c: char,
    now: int,
)
    requires
        state.selection.hint == Some(hint),
        state.pressed(screen, command, c, now).selection.hint is None,
    ensures
        ({
            let offer = crate::offer::offer(screen, command, &*hint, state.openable, now);
            let labels = state.prepared(screen, command, c, now).selection.labels;
            ||| c == '\x1b'
            ||| c == '\x03'
            ||| offer.found.len() == 0 && !offer.unanswered
            ||| !hint.persist && labels.contains(seq![c])
        }),
{
    let prepared = state.prepared(screen, command, c, now).selection;
    if prepared.hint is Some {
        lemma_last_starting(prepared.labels, c);
        let i = last_starting(prepared.labels, c).unwrap();
        assert(prepared.labels[i] =~= seq![c]);
    }
}

/// Backspace and the key with the same meaning remove the last key, if there is one, and change
/// nothing else. Escape and Ctrl+c leave neither a hint nor a match nor a key. No other key edits
/// anything.
pub proof fn editing_keys_edit(selection: SelectionView, c: char)
    ensures
        selection.edited(c).alphabet == selection.alphabet,
        c == '\x08' || c == '\x1f' ==> {
            &&& selection.edited(c).hint == selection.hint
            &&& selection.edited(c).matches == selection.matches
            &&& selection.edited(c).labels == selection.labels
            &&& selection.keys.len() > 0 ==> selection.edited(c).keys == selection.keys.take(
                selection.keys.len() - 1,
            )
            &&& selection.keys.len() == 0 ==> selection.edited(c).keys.len() == 0
        },
        c == '\x1b' || c == '\x03' ==> {
            &&& selection.edited(c).hint is None
            &&& selection.edited(c).matches.len() == 0
            &&& selection.edited(c).labels.len() == 0
            &&& selection.edited(c).keys.len() == 0
        },
        c != '\x08' && c != '\x1f' && c != '\x1b' && c != '\x03' ==> selection.edited(c) == selection,
{
    if selection.keys.len() > 0 {
        assert(selection.keys.drop_last() =~= selection.keys.take(selection.keys.len() - 1));
    }
}

proof fn lemma_label_is_in_alphabet(alphabet: Seq<char>, keys: Seq<char>, position: nat, c: char)
    requires
        label_left(alphabet, keys, position).contains(c),
    ensures
        alphabet.contains(c),
{
    let split = crate::labels::split_index(alphabet.len(), HINT_SPLIT_PERCENTAGE as nat);
    let label = crate::labels::label(alphabet, split, position);
    let left = label_left(alphabet, keys, position);
    let indices = crate::labels::label_indices(alphabet.len(), split, position);
    crate::labels::lemma_label_range(alphabet.len(), split, position);
    let k = choose|k: int| 0 <= k < left.len() && left[k] == c;
    let n = k + keys.len();
    assert(label[n] == c);
    assert(indices[indices.len() - 1 - n] < alphabet.len());
    assert(alphabet[indices[indices.len() - 1 - n] as int] == c);
}

/// Labels are made of the characters of the alphabet.
pub proof fn labels_are_made_of_the_alphabet(
    alphabet: Seq<char>,
    keys: Seq<char>,
    count: nat,
    i: int,
    c: char,
)
    requires
        0 <= i < count,
        labels_left(alphabet, keys, count)[i].contains(c),
    ensures
        alphabet.contains(c),
{
    lemma_label_is_in_alphabet(alphabet, keys, (count - 1 - i) as nat, c);
}

/// Backspace shows the matches and the labels for one key less, and selects nothing, unless it is one
/// of the characters for labels.
pub proof fn backspace_shows_more_labels(
    state: HintStateView,
    screen: Screen,
    command: Option<Program>,
    c: char,
    now: int,
)
    requires
        c == '\x08' || c == '\x1f',
        state.selection.hint is Some,
        state.selection.keys.len() > 0,
        !state.selection.alphabet.contains(c),
    ensures
        ({
            let keys = state.selection.keys.take(state.selection.keys.len() - 1);
            let before = HintStateView {
                selection: SelectionView { keys, ..state.selection },
                ..state
            };
            state.pressed(screen, command, c, now) == before.updated(screen, command, now)
        }),
        state.prepared(screen, command, c, now).selection.completed(screen, c) is None,
{
    let keys = state.selection.keys.take(state.selection.keys.len() - 1);
    assert(state.selection.keys.drop_last() =~= keys);
    let prepared = state.prepared(screen, command, c, now).selection;
    assert forall|i: int| 0 <= i < prepared.labels.len() implies (
    #[trigger] prepared.labels[i]).len() == 0 || prepared.labels[i][0] != c by {
        if prepared.labels[i].len() > 0 && prepared.labels[i][0] == c {
            assert(prepared.labels[i].contains(c));
            lemma_label_is_in_alphabet(
                state.selection.alphabet,
                keys,
                (prepared.labels.len() - 1 - i) as nat,
                c,
            );
        }
    }
    stray_keys_change_nothing(prepared, screen, c);
}

/// Offering matches changes neither the hint nor the keys nor the alphabet, as long as there is
/// anything to select or to wait for. Otherwise neither a hint nor a match nor a key is left. Every
/// match which is offered was found, and has a label.
pub proof fn offering_keeps_the_keys(selection: SelectionView, found: Seq<Match>, unanswered: bool)
    ensures
        selection.offered(found, unanswered).alphabet == selection.alphabet,
        selection.offered(found, unanswered).labels.len() == selection.offered(
            found,
            unanswered,
        ).matches.len(),
        found.len() > 0 || unanswered ==> {
            &&& selection.offered(found, unanswered).hint == selection.hint
            &&& selection.offered(found, unanswered).keys == selection.keys
        },
        found.len() == 0 ==> selection.offered(found, unanswered).matches.len() == 0,
        found.len() == 0 && !unanswered ==> {
            &&& selection.offered(found, unanswered).hint is None
            &&& selection.offered(found, unanswered).keys.len() == 0
        },
        found.len() > 0 ==> selection.offered(found, unanswered).matches.len() > 0,
        forall|i: int|
            0 <= i < selection.offered(found, unanswered).matches.len() ==> found.contains(
                #[trigger] selection.offered(found, unanswered).matches[i],
            ),
{
    crate::arrange::arrangement_exists(found);
}

/// What is left of a label is what follows the keys: together they are the label. Nothing is left of
/// a label which the keys do not start, or which they are all of.
pub proof fn keys_and_rest_are_the_label(
    alphabet: Seq<char>,
    keys: Seq<char>,
    rest: Seq<char>,
    position: nat,
)
    requires
        rest.len() > 0,
    ensures
        label_left(alphabet, keys, position) == rest <==> label_left(
            alphabet,
            Seq::empty(),
            position,
        ) == keys + rest,
{
    let split = crate::labels::split_index(alphabet.len(), HINT_SPLIT_PERCENTAGE as nat);
    let label = crate::labels::label(alphabet, split, position);
    if crate::labels::has_label(alphabet.len(), split, position) {
        assert(Seq::<char>::empty() =~= label.subrange(0, 0));
        assert(Seq::<char>::empty().is_prefix_of(label));
        assert(label.skip(0) =~= label);
        assert(label_left(alphabet, Seq::empty(), position) == label);
        if label_left(alphabet, keys, position) == rest {
            assert(keys =~= label.subrange(0, keys.len() as int));
            assert(keys + rest =~= label);
        }
        if label == keys + rest {
            assert(keys =~= label.subrange(0, keys.len() as int));
            assert(label.skip(keys.len() as int) =~= rest);
        }
    } else {
        assert(label_left(alphabet, keys, position).len() == 0);
        assert(label_left(alphabet, Seq::empty(), position).len() == 0);
        assert((keys + rest).len() > 0);
    }
}

/// Labels are handed out from the bottom of the screen to the top. Without any key, those of the
/// bottommost matches are the characters of the first half of the alphabet, one after another, and
/// the others follow in the order of labels.
pub proof fn labels_are_handed_out_from_the_bottom(alphabet: Seq<char>, count: nat, i: int)
    requires
        0 <= i < count,
    ensures
        ({
            let label = labels_left(alphabet, Seq::empty(), count)[i];
            let position = (count - 1 - i) as nat;
            &&& alphabet.len() > 0 && position <= (alphabet.len() - 1) / 2 ==> label
                == seq![alphabet[position as int]]
            &&& alphabet.len() > 1 ==> label == crate::labels::label(
                alphabet,
                ((alphabet.len() - 1) / 2) as nat,
                position,
            )
            &&& alphabet.len() == 0 || (alphabet.len() == 1 && position > 0) ==> label.len() == 0
        }),
{
    let len = alphabet.len();
    let position = (count - 1 - i) as nat;
    let split = crate::labels::split_index(len, HINT_SPLIT_PERCENTAGE as nat);
    let label = crate::labels::label(alphabet, split, position);
    if len > 0 {
        crate::labels::lemma_half(len);
        assert(Seq::<char>::empty() =~= label.subrange(0, 0));
        assert(label.skip(0) =~= label);
        if position <= split {
            crate::labels::the_first_labels_are_single_characters(alphabet, split, position);
        }
    }
}

/// Updating the matches shows what the hint offers, arranged, and with a label for every match.
/// Everything which is asked for this is known afterwards. Without a hint, nothing changes.
pub proof fn updating_shows_what_is_offered(
    state: HintStateView,
    hint: Rc<Hint>,
    screen: Screen,
    command: Option<Program>,
    now: int,
    bounds: Match,
)
    ensures
        state.selection.hint is None ==> state.updated(screen, command, now) == state,
        state.selection.hint == Some(hint) ==> {
            let offer = crate::offer::offer(screen, command, &*hint, state.openable, now);
            let shown = state.updated(screen, command, now);
            &&& shown.openable == offer.openable
            &&& shown.selection.alphabet == state.selection.alphabet
            &&& offer.found.len() > 0 || offer.unanswered ==> shown.selection.keys
                == state.selection.keys
            &&& shown.selection.matches.contains(bounds) <==> {
                &&& offer.found.contains(bounds)
                &&& forall|k: int|
                    0 <= k < offer.found.len() && (#[trigger] offer.found[k]).start == bounds.start
                        ==> offer.found[k].end.at_most(bounds.end)
            }
            &&& shown.selection.labels == labels_left(
                state.selection.alphabet,
                state.selection.keys,
                shown.selection.matches.len(),
            )
        },
{
    if state.selection.hint == Some(hint) {
        let offer = crate::offer::offer(screen, command, &*hint, state.openable, now);
        let shown = state.updated(screen, command, now).selection;
        crate::arrange::the_longest_matches_are_kept(offer.found, bounds);
        if offer.found.len() == 0 {
            assert(shown.labels =~= labels_left(state.selection.alphabet, state.selection.keys, 0));
        }
    }
}

/// A key edits the selection first. Then the matches are updated, and the key is looked up in the
/// labels on the screen. Nothing else happens.
pub proof fn keys_are_looked_up_on_the_screen(
    state: HintStateView,
    screen: Screen,
    command: Option<Program>,
    c: char,
    now: int,
)
    ensures
        ({
            let edited = HintStateView { selection: state.selection.edited(c), ..state };
            let shown = edited.updated(screen, command, now);
            &&& state.prepared(screen, command, c, now) == shown
            &&& state.pressed(screen, command, c, now).selection == shown.selection.selected(c)
            &&& state.pressed(screen, command, c, now).openable == shown.openable
        }),
{
}

/// Typing one more key after others is pressing it in the state they lead to.
pub proof fn keys_are_typed_in_order(
    state: HintStateView,
    screen: Screen,
    command: Option<Program>,
    keys: Seq<char>,
    c: char,
    times: Seq<int>,
)
    requires
        times.len() == keys.len() + 1,
    ensures
        state.typed(screen, command, Seq::empty(), times) == state,
        state.typed(screen, command, keys.push(c), times) == state.typed(
            screen,
            command,
            keys,
            times,
        ).pressed(screen, command, c, times.last()),
{
    assert(keys.push(c).drop_last() =~= keys);
}

/// Starting a hint puts it in use, and changes nothing else.
pub proof fn starting_keeps_the_rest(state: HintStateView, hint: Rc<Hint>)
    ensures
        state.started(hint).selection.hint == Some(hint),
        state.started(hint).selection.alphabet == state.selection.alphabet,
        state.started(hint).selection.matches == state.selection.matches,
        state.started(hint).selection.labels == state.selection.labels,
        state.started(hint).selection.keys == state.selection.keys,
        state.started(hint).openable == state.openable,
{
}

/// Another alphabet drops the keys, since they may not be part of it, and leaves everything else to
/// the next update. The same alphabet changes nothing.
pub proof fn another_alphabet_drops_the_keys(state: HintStateView, alphabet: Seq<char>)
    ensures
        state.with_alphabet(alphabet).selection.alphabet == alphabet,
        state.with_alphabet(alphabet).selection.hint == state.selection.hint,
        state.with_alphabet(alphabet).selection.matches == state.selection.matches,
        state.with_alphabet(alphabet).selection.labels == state.selection.labels,
        state.with_alphabet(alphabet).openable == state.openable,
        alphabet == state.selection.alphabet ==> state.with_alphabet(alphabet) == state,
        alphabet != state.selection.alphabet ==> state.with_alphabet(alphabet).selection.keys.len()
            == 0,
{
}

} // verus!
