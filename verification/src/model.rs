//! The scanner as mathematics: its state, what one character does to it,
//! and what a whole template renders to.

use crate::directive::{execute, ErrorKind};
use crate::text_processor::{ParseState, ESCAPE_ENDER, ESCAPE_STARTER};
use vstd::prelude::*;

verus! {

/// A place in the template: line and column, both counted from 1.
pub ghost struct Position {
    pub line: int,
    pub col: int,
}

impl Position {
    /// The place of the first character.
    pub open spec fn start() -> Position {
        Position { line: 1, col: 1 }
    }

    /// The place of the character that follows `ch`, where `ch` stands at
    /// this place: the beginning of the next line after a line feed, else
    /// the next column.
    pub open spec fn after(self, ch: char) -> Position {
        if ch == '\n' {
            Position { line: self.line + 1, col: 1 }
        } else {
            Position { line: self.line, col: self.col + 1 }
        }
    }

    /// The place of the character that follows `text`, where `text` begins
    /// at this place.
    pub open spec fn past(self, text: Seq<char>) -> Position
        decreases text.len(),
    {
        if text.len() == 0 {
            self
        } else {
            self.after(text.first()).past(text.drop_first())
        }
    }
}

/// The state of the scanner between two characters.
#[verifier::ext_equal]
pub ghost struct ScanState {
    /// What the scanner takes the next character for.
    pub mode: ParseState,
    /// The place of the next character.
    pub pos: Position,
    /// The open tags, the one opened last at the end.
    pub stack: Seq<Seq<char>>,
    /// The characters read and not yet known to be text or directive.
    pub limbo: Seq<char>,
    /// The text rendered so far.
    pub output: Seq<char>,
}

/// A directive that was refused, and the place of the character that ends
/// it.
pub ghost struct Failure {
    pub kind: ErrorKind,
    pub pos: Position,
}

/// How far scanning came: the state in which it stopped, and the failure
/// that stopped it. Without a failure it stopped at the end of the input;
/// with one, before the character that failed.
#[verifier::ext_equal]
pub ghost struct Scan {
    pub state: ScanState,
    pub failure: Option<Failure>,
}

impl ScanState {
    /// The state before the first character.
    pub open spec fn initial() -> ScanState {
        ScanState {
            mode: ParseState::NormalText,
            pos: Position::start(),
            stack: Seq::empty(),
            limbo: Seq::empty(),
            output: Seq::empty(),
        }
    }

    /// What holds of every state that scanning reaches: the position is
    /// counted from 1, nothing is held back in normal text, and what is held
    /// back while an escape may begin is a beginning of the escape starter.
    pub open spec fn wf(self) -> bool {
        &&& self.pos.line >= 1
        &&& self.pos.col >= 1
        &&& self.mode is NormalText ==> self.limbo.len() == 0
        &&& self.mode is MaybeEscape ==> 0 < self.limbo.len() < ESCAPE_STARTER@.len()
            && self.limbo.is_prefix_of(ESCAPE_STARTER@)
    }

    /// The state with what is held back moved to the end of the output.
    pub open spec fn flush(self) -> ScanState {
        ScanState { limbo: Seq::empty(), output: self.output + self.limbo, ..self }
    }

    /// The state with the position moved past `ch`.
    pub open spec fn advance(self, ch: char) -> ScanState {
        ScanState { pos: self.pos.after(ch), ..self }
    }
}

/// Whether text is shown: every open tag is active.
pub open spec fn conditions_met(stack: Seq<Seq<char>>, active: Set<Seq<char>>) -> bool {
    forall|i: int| 0 <= i < stack.len() ==> active.contains(#[trigger] stack[i])
}

/// What `ch` does to everything but the position.
///
/// In normal text, the first character of the escape starter is held back
/// and may begin an escape; any other character is shown if
/// `conditions_met`, else dropped. While an escape may begin, `ch` joins
/// what is held back: if that is now the whole starter, a directive begins;
/// if it is still a beginning of the starter, nothing is decided; if not,
/// all of it is shown, whatever the open tags. In a directive, the escape
/// ender executes what is held back, and any other character joins it.
pub open spec fn handle(state: ScanState, active: Set<Seq<char>>, ch: char) -> Result<
    ScanState,
    ErrorKind,
> {
    match state.mode {
        ParseState::NormalText => {
            if ch == ESCAPE_STARTER@[0] {
                Ok(ScanState { mode: ParseState::MaybeEscape, limbo: state.limbo.push(ch), ..state })
            } else if conditions_met(state.stack, active) {
                Ok(ScanState { output: state.output.push(ch), ..state })
            } else {
                Ok(state)
            }
        },
        ParseState::MaybeEscape => {
            let held = state.limbo.push(ch);
            if held == ESCAPE_STARTER@ {
                Ok(ScanState { mode: ParseState::Command, limbo: Seq::empty(), ..state })
            } else if held.is_prefix_of(ESCAPE_STARTER@) {
                Ok(ScanState { limbo: held, ..state })
            } else {
                Ok(
                    ScanState {
                        mode: ParseState::NormalText,
                        limbo: Seq::empty(),
                        output: state.output + held,
                        ..state
                    },
                )
            }
        },
        ParseState::Command => {
            if ch == ESCAPE_ENDER {
                match execute(state.stack, state.limbo) {
                    Ok(stack) => Ok(
                        ScanState {
                            mode: ParseState::NormalText,
                            stack,
                            limbo: Seq::empty(),
                            ..state
                        },
                    ),
                    Err(kind) => Err(kind),
                }
            } else {
                Ok(ScanState { limbo: state.limbo.push(ch), ..state })
            }
        },
    }
}

/// What `ch` does to the state: `handle`, then the position moves past
/// `ch`. A failure carries the position of `ch`.
pub open spec fn step(state: ScanState, active: Set<Seq<char>>, ch: char) -> Result<
    ScanState,
    Failure,
> {
    match handle(state, active, ch) {
        Ok(next) => Ok(next.advance(ch)),
        Err(kind) => Err(Failure { kind, pos: state.pos }),
    }
}

/// Scans `input` from `state`, character by character, up to its end or to
/// the first character that fails.
pub open spec fn scan(state: ScanState, active: Set<Seq<char>>, input: Seq<char>) -> Scan
    decreases input.len(),
{
    if input.len() == 0 {
        Scan { state, failure: None }
    } else {
        match step(state, active, input.first()) {
            Ok(next) => scan(next, active, input.drop_first()),
            Err(failure) => Scan { state, failure: Some(failure) },
        }
    }
}

/// What `template` renders to while the tags in `active` are active: the
/// output when the whole template is scanned, followed by what is still held
/// back then; or the failure of the first directive that is refused.
pub open spec fn render(template: Seq<char>, active: Set<Seq<char>>) -> Result<
    Seq<char>,
    Failure,
> {
    let end = scan(ScanState::initial(), active, template);
    match end.failure {
        Some(failure) => Err(failure),
        None => Ok(end.state.flush().output),
    }
}

} // verus!
