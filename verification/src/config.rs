//! What the user configured.
use std::rc::Rc;
use vstd::prelude::*;
use winit::keyboard::ModifiersState;

verus! {

/// A command line.
pub struct CommandLine {
    pub program: Seq<char>,
    pub args: Seq<Seq<char>>,
}

/// A program which can be run.
#[derive(Debug, PartialEq, Eq)]
pub enum Program {
    /// The program alone.
    Just(String),
    /// The program with arguments.
    WithArgs { program: String, args: Vec<String> },
}

/// The contents of all strings.
pub open spec fn texts(strings: Seq<String>) -> Seq<Seq<char>> {
    strings.map_values(|text: String| text@)
}

impl View for Program {
    type V = CommandLine;

    open spec fn view(&self) -> CommandLine {
        match *self {
            Program::Just(program) => CommandLine { program: program@, args: Seq::empty() },
            Program::WithArgs { program, args } => CommandLine {
                program: program@,
                args: texts(args@),
            },
        }
    }
}

impl Clone for Program {
    fn clone(&self) -> (other: Self)
        ensures
            other@ == self@,
            other is Just <==> self is Just,
    {
        match self {
            Program::Just(program) => Program::Just(program.clone()),
            Program::WithArgs { program, args } => {
                let mut copy: Vec<String> = Vec::new();
                let mut i: usize = 0;
                while i < args.len()
                    invariant
                        i <= args@.len(),
                        texts(copy@) == texts(args@).take(i as int),
                    decreases args@.len() - i,
                {
                    let ghost before = copy@;
                    copy.push(args[i].clone());
                    assert(texts(copy@) =~= texts(before).push(args@[i as int]@));
                    i = i + 1;
                    assert(texts(copy@) =~= texts(args@).take(i as int));
                }
                assert(texts(args@).take(i as int) =~= texts(args@));
                Program::WithArgs { program: program.clone(), args: copy }
            },
        }
    }
}

impl Program {
    pub fn program(&self) -> (program: &str)
        ensures
            program@ == self@.program,
    {
        match self {
            Program::Just(program) => program.as_str(),
            Program::WithArgs { program, .. } => program.as_str(),
        }
    }

    pub fn args(&self) -> (args: Vec<String>)
        ensures
            texts(args@) == self@.args,
    {
        match self.clone() {
            Program::Just(_) => {
                let args: Vec<String> = Vec::new();
                assert(texts(args@) =~= Seq::empty());
                args
            },
            Program::WithArgs { args, .. } => args,
        }
    }
}

/// Built-in actions of a hint.
#[derive(Clone, Copy, Debug, PartialEq, Eq, Structural)]
pub enum HintInternalAction {
    /// Copy the text to the clipboard.
    Copy,
    /// Write the text to the terminal.
    Paste,
    /// Select the text.
    Select,
    /// Move the cursor of the vi mode to the text.
    MoveViModeCursor,
}

/// What is done with a match of a hint.
#[derive(Debug, PartialEq, Eq)]
pub enum HintAction {
    /// Built-in action.
    Action(HintInternalAction),
    /// Run a program with the text as its last argument.
    Command(Program),
}

/// What a hint matches.
#[derive(Debug, PartialEq, Eq)]
pub struct HintContent {
    /// Regular expression for text.
    pub regex: Option<String>,
    /// Match the hyperlinks of applications.
    pub hyperlinks: bool,
}

/// When a hint is highlighted under the mouse.
#[derive(Clone, Copy, Debug, PartialEq, Eq)]
pub struct HintMouse {
    /// Highlight the hint at all.
    pub enabled: bool,
    /// Modifiers which have to be held down.
    pub mods: ModifiersState,
}

/// A kind of text which can be acted on.
#[derive(Debug, PartialEq, Eq)]
pub struct Hint {
    /// What the hint matches.
    pub content: HintContent,
    /// What is done with a match.
    pub action: HintAction,
    /// Leave out what is unlikely to be part of a match.
    pub post_processing: bool,
    /// Stay in hint mode when a match was selected.
    pub persist: bool,
    /// Offer nothing but text which the configured program would open.
    pub dan_openable: bool,
    /// When the hint is highlighted under the mouse.
    pub mouse: Option<HintMouse>,
}

/// Configuration of all hints.
#[derive(Debug, PartialEq, Eq)]
pub struct Hints {
    /// Characters of the hint labels.
    pub alphabet: String,
    /// All hints.
    pub enabled: Vec<Rc<Hint>>,
    /// Program which is asked what it would open.
    pub dan_openable_command: Option<Program>,
}

impl Hints {
    /// Characters of the hint labels.
    pub fn alphabet(&self) -> (alphabet: &str)
        ensures
            alphabet@ == self.alphabet@,
    {
        self.alphabet.as_str()
    }
}

/// Configuration of the user interface.
#[derive(Debug, PartialEq, Eq)]
pub struct UiConfig {
    pub hints: Hints,
}

/// Program asked what a `dan_openable` hint would open. Without one, such a hint matches nothing:
/// there is nothing to ask.
pub fn openable_command(config: &UiConfig) -> (program: Option<&Program>)
    ensures
        program is Some <==> config.hints.dan_openable_command is Some,
        program matches Some(program) ==> config.hints.dan_openable_command == Some(*program),
{
    match &config.hints.dan_openable_command {
        Some(program) => Some(program),
        None => None,
    }
}

/// A command line has the program it is made of, and all of its arguments in their order. A program
/// alone has none.
pub proof fn command_lines_have_all_arguments(program: Program, i: int)
    ensures
        program matches Program::Just(name) ==> {
            &&& program@.program == name@
            &&& program@.args.len() == 0
        },
        program matches Program::WithArgs { program: name, args } ==> {
            &&& program@.program == name@
            &&& program@.args.len() == args@.len()
            &&& 0 <= i < args@.len() ==> program@.args[i] == args@[i]@
        },
{
}

} // verus!
