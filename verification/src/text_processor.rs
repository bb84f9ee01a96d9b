//! The scanner: the processor that reads a template character by character
//! and writes the variant that the active tags select.

use crate::chars::{collect, cut, same_chars, same_text, split, split_ranges, to_chars};
use crate::directive::{
    close_tags, execute, parse_directive, texts, Directive, ErrorKind, END, IF, NOP,
};
use crate::model::{conditions_met, render, scan, step, Failure, Position, ScanState};
use std::collections::VecDeque;
use vstd::prelude::*;
use vstd::std_specs::iter::IteratorSpec;
use vstd::string::StrSliceExecFns;

verus! {

/// The two characters that begin a directive.
pub const ESCAPE_STARTER: [char; 2] = ['#', '{'];

/// The character that ends a directive.
pub const ESCAPE_ENDER: char = '}';

/// The tags that are active in one run. Order and repetition mean nothing.
pub struct Settings {
    pub active_tags: Vec<String>,
}

impl View for Settings {
    type V = Set<Seq<char>>;

    /// The set of the active tags.
    open spec fn view(&self) -> Set<Seq<char>> {
        Set::new(
            |tag: Seq<char>|
                exists|i: int| 0 <= i < self.active_tags.len() && self.active_tags[i]@ == tag,
        )
    }
}

/// The tags that a list names: its pieces between commas, but for the
/// empty ones. An empty list names no tag.
pub open spec fn listed_tags(list: Seq<char>) -> Set<Seq<char>> {
    Set::new(|tag: Seq<char>| tag.len() > 0 && split(list, ',').contains(tag))
}

impl Settings {
    /// The settings in which the tags that `list` names are active.
    pub fn from_list(list: &str) -> (settings: Settings)
        ensures
            settings@ == listed_tags(list@),
    {
        let chars = to_chars(list);
        let ranges = split_ranges(chars.as_slice(), 0, chars.len(), ',');
        let ghost pieces = split(list@, ',');
        assert(chars@.subrange(0, chars.len() as int) =~= list@);
        let mut active_tags: Vec<String> = Vec::new();
        let mut k: usize = 0;
        while k < ranges.len()
            invariant
                k <= ranges.len(),
                chars@ == list@,
                pieces == cut(chars@, ranges@),
                forall|j: int|
                    0 <= j < ranges.len() ==> (#[trigger] ranges[j]).0 <= ranges[j].1
                        <= chars.len(),
                forall|i: int|
                    0 <= i < active_tags.len() ==> (#[trigger] active_tags[i]@).len() > 0
                        && pieces.contains(active_tags[i]@),
                forall|j: int|
                    0 <= j < k && (#[trigger] pieces[j]).len() > 0 ==> exists|i: int|
                        0 <= i < active_tags.len() && active_tags[i]@ == pieces[j],
            decreases ranges.len() - k,
        {
            let (from, to) = ranges[k];
            if from < to {
                let ghost before = active_tags@;
                let tag = list.substring_char(from, to).to_owned();
                active_tags.push(tag);
                assert(active_tags[before.len() as int]@ == pieces[k as int]);
                assert forall|j: int| 0 <= j < k + 1 && (#[trigger] pieces[j]).len() > 0 implies exists|
                    i: int,
                |
                    0 <= i < active_tags.len() && active_tags[i]@ == pieces[j] by {
                    if j < k {
                        let i = choose|i: int| 0 <= i < before.len() && before[i]@ == pieces[j];
                        assert(active_tags[i]@ == pieces[j]);
                    }
                }
            }
            k += 1;
        }
        Settings { active_tags }
    }

    /// Whether `tag` is active.
    pub fn is_active(&self, tag: &[char]) -> (active: bool)
        ensures
            active == self@.contains(tag@),
    {
        let mut i: usize = 0;
        while i < self.active_tags.len()
            invariant
                i <= self.active_tags.len(),
                forall|k: int| 0 <= k < i ==> self.active_tags[k]@ != tag@,
            decreases self.active_tags.len() - i,
        {
            if same_text(self.active_tags[i].as_str(), tag) {
                return true;
            }
            i += 1;
        }
        false
    }
}

/// What the scanner takes the next character for.
#[derive(Clone, Copy, Debug, PartialEq, Eq)]
pub enum ParseState {
    /// Text to show or drop.
    NormalText,
    /// The rest of an escape starter, or else text.
    MaybeEscape,
    /// Part of a directive.
    Command,
}

/// A place in the template: line and column, both counted from 1.
#[derive(Clone, Copy, Debug, PartialEq, Eq)]
pub struct TextPos {
    pub line: usize,
    pub col: usize,
}

impl View for TextPos {
    type V = Position;

    open spec fn view(&self) -> Position {
        Position { line: self.line as int, col: self.col as int }
    }
}

impl TextPos {
    /// The place of the first character: line 1, column 1.
    pub fn new() -> (pos: Self)
        ensures
            pos.line == 1,
            pos.col == 1,
    {
        Self { line: 1, col: 1 }
    }

    /// Moves one column to the right.
    pub fn next_char(&mut self)
        requires
            old(self).col < usize::MAX,
        ensures
            final(self).line == old(self).line,
            final(self).col == old(self).col + 1,
    {
        self.col += 1;
    }

    /// Moves to the first column of the next line.
    pub fn line_break(&mut self)
        requires
            old(self).line < usize::MAX,
        ensures
            final(self).line == old(self).line + 1,
            final(self).col == 1,
    {
        self.col = 1;
        self.line += 1;
    }
}

/// A directive that was refused: why, and where the character stands that
/// ends it.
#[derive(Clone, Copy, Debug, PartialEq, Eq)]
pub struct ProcessError {
    pub kind: ErrorKind,
    pub pos: TextPos,
}

impl View for ProcessError {
    type V = Failure;

    open spec fn view(&self) -> Failure {
        Failure { kind: self.kind, pos: self.pos@ }
    }
}

/// What the directives act on: the tags that are open, the one opened
/// last at the end.
pub struct State {
    pub active_tags: Vec<Vec<char>>,
}

/// The scanner. It is fed a template character by character and collects
/// the rendered text in `output`.
pub struct Processor<'a> {
    pub settings: &'a Settings,
    pub parse_state: ParseState,
    pub text_pos: TextPos,
    pub state: State,
    pub limbo: VecDeque<char>,
    pub output: VecDeque<char>,
}

impl<'a> View for Processor<'a> {
    type V = ScanState;

    open spec fn view(&self) -> ScanState {
        ScanState {
            mode: self.parse_state,
            pos: self.text_pos@,
            stack: texts(self.state.active_tags@),
            limbo: self.limbo@,
            output: self.output@,
        }
    }
}

impl<'a> Processor<'a> {
    /// Whether the processor is in a state that scanning reaches.
    pub open spec fn wf(&self) -> bool {
        self@.wf()
    }

    /// A processor before the first character of a template.
    pub fn new(settings: &'a Settings) -> (processor: Self)
        ensures
            processor.settings == settings,
            processor@ == ScanState::initial(),
            processor.wf(),
    {
        Self {
            settings,
            parse_state: ParseState::NormalText,
            text_pos: TextPos::new(),
            state: State { active_tags: Vec::new() },
            limbo: VecDeque::new(),
            output: VecDeque::new(),
        }
    }

    /// Renders `text` while the tags in `settings` are active.
    ///
    /// On success the result is the rendered text. The first directive
    /// that is refused ends the run with its error.
    pub fn process_text(text: &str, settings: &'a Settings) -> (result: Result<
        VecDeque<char>,
        ProcessError,
    >)
        requires
            text@.len() < usize::MAX,
        ensures
            match result {
                Ok(output) => render(text@, settings@) == Ok::<Seq<char>, Failure>(output@),
                Err(error) => render(text@, settings@) == Err::<Seq<char>, Failure>(error@),
            },
    {
        let mut processor = Processor::new(settings);
        match processor.process_many(text.chars()) {
            Ok(()) => {
                processor.know_nothing_but_hunger();
                Ok(processor.output)
            },
            Err(error) => Err(error),
        }
    }

    /// Feeds the processor one character.
    ///
    /// On success the processor is in the state that `step` gives. A
    /// directive that is refused leaves the processor as it was.
    pub fn process_char(&mut self, ch: char) -> (result: Result<(), ProcessError>)
        requires
            old(self).wf(),
            old(self).text_pos.line < usize::MAX,
            old(self).text_pos.col < usize::MAX,
        ensures
            final(self).settings == old(self).settings,
            final(self).wf(),
            match result {
                Ok(()) => step(old(self)@, old(self).settings@, ch) == Ok::<ScanState, Failure>(
                    final(self)@,
                ),
                Err(error) => step(old(self)@, old(self).settings@, ch) == Err::<
                    ScanState,
                    Failure,
                >(error@) && final(self)@ == old(self)@,
            },
    {
        match self.parse_state {
            ParseState::NormalText => {
                if ch == ESCAPE_STARTER[0] {
                    self.limbo.push_back(ch);
                    self.parse_state = ParseState::MaybeEscape;
                } else {
                    if self.text_conditions_met() {
                        self.output.push_back(ch);
                    }
                }
            },
            ParseState::MaybeEscape => {
                self.limbo.push_back(ch);
                if ch == ESCAPE_STARTER[1] {
                    assert(self.limbo@ =~= ESCAPE_STARTER@);
                    self.limbo.clear();
                    self.parse_state = ParseState::Command;
                } else {
                    assert(self.limbo@[1] != ESCAPE_STARTER@[1]);
                    self.know_nothing_but_hunger();
                    self.parse_state = ParseState::NormalText;
                }
            },
            ParseState::Command => {
                if ch == ESCAPE_ENDER {
                    let command = collect(&self.limbo);
                    match self.do_command(command.as_slice()) {
                        Ok(()) => {},
                        Err(error) => {
                            return Err(error);
                        },
                    }
                    self.limbo.clear();
                    self.parse_state = ParseState::NormalText;
                } else {
                    self.limbo.push_back(ch);
                }
            },
        }
        if ch == '\n' {
            self.text_pos.line_break();
        } else {
            self.text_pos.next_char();
        }
        Ok(())
    }

    /// Feeds the processor the characters of `iter`, in order, up to the
    /// first that fails.
    pub fn process_many(&mut self, iter: impl Iterator<Item = char>) -> (result: Result<
        (),
        ProcessError,
    >)
        requires
            old(self).wf(),
            iter.obeys_prophetic_iter_laws(),
            iter.decrease() is Some,
            old(self).text_pos.line + iter.remaining().len() <= usize::MAX,
            old(self).text_pos.col + iter.remaining().len() <= usize::MAX,
        ensures
            final(self).settings == old(self).settings,
            final(self).wf(),
            final(self)@ == scan(old(self)@, old(self).settings@, iter.remaining()).state,
            match result {
                Ok(()) => scan(old(self)@, old(self).settings@, iter.remaining()).failure is None,
                Err(error) => scan(old(self)@, old(self).settings@, iter.remaining()).failure
                    == Some(error@),
            },
    {
        let mut rest = iter;
        loop
            invariant
                self.settings == old(self).settings,
                self.wf(),
                rest.obeys_prophetic_iter_laws(),
                rest.decrease() is Some,
                self.text_pos.line + rest.remaining().len() <= usize::MAX,
                self.text_pos.col + rest.remaining().len() <= usize::MAX,
                scan(old(self)@, old(self).settings@, iter.remaining()) == scan(
                    self@,
                    self.settings@,
                    rest.remaining(),
                ),
            decreases rest.decrease()->0,
        {
            match rest.next() {
                Some(ch) => {
                    match self.process_char(ch) {
                        Ok(()) => {},
                        Err(error) => {
                            return Err(error);
                        },
                    }
                },
                None => {
                    return Ok(());
                },
            }
        }
    }

    /// Whether a region is still open. After the last character of a
    /// template this means that a region was opened and never closed; the
    /// text is rendered all the same.
    pub fn has_open_regions(&self) -> (open: bool)
        ensures
            open == (self@.stack.len() > 0),
    {
        self.state.active_tags.len() > 0
    }

    /// Moves what is held back to the end of the output.
    pub fn know_nothing_but_hunger(&mut self)
        ensures
            final(self).settings == old(self).settings,
            final(self)@ == old(self)@.flush(),
    {
        self.output.append(&mut self.limbo);
    }

    /// Whether text is shown now: every open tag is active.
    pub fn text_conditions_met(&self) -> (met: bool)
        ensures
            met == conditions_met(self@.stack, self.settings@),
    {
        let mut i: usize = 0;
        while i < self.state.active_tags.len()
            invariant
                i <= self.state.active_tags.len(),
                forall|k: int| 0 <= k < i ==> self.settings@.contains(#[trigger] self@.stack[k]),
            decreases self.state.active_tags.len() - i,
        {
            if !self.settings.is_active(self.state.active_tags[i].as_slice()) {
                assert(self@.stack[i as int] == self.state.active_tags@[i as int]@);
                return false;
            }
            i += 1;
        }
        true
    }

    /// Executes the directive with the text `command`.
    ///
    /// On success the stack of open tags is what `execute` gives, and
    /// nothing else has changed. A directive that is refused leaves the
    /// processor as it was; the error carries the processor's position.
    pub fn do_command(&mut self, command: &[char]) -> (result: Result<(), ProcessError>)
        ensures
            final(self).settings == old(self).settings,
            match result {
                Ok(()) => execute(old(self)@.stack, command@) == Ok::<Seq<Seq<char>>, ErrorKind>(
                    final(self)@.stack,
                ) && final(self)@ == (ScanState { stack: final(self)@.stack, ..old(self)@ }),
                Err(error) => execute(old(self)@.stack, command@) == Err::<
                    Seq<Seq<char>>,
                    ErrorKind,
                >(error.kind) && error.pos == old(self).text_pos && final(self)@ == old(self)@,
            },
    {
        let pos = self.text_pos;
        let Directive { name, args } = match parse_directive(command) {
            Ok(directive) => directive,
            Err(kind) => {
                return Err(ProcessError { kind, pos });
            },
        };
        if same_chars(name.as_slice(), &NOP) {
            Ok(())
        } else if same_chars(name.as_slice(), &IF) {
            match args {
                Some(mut tags) => {
                    if tags.len() == 1 && tags[0].len() == 0 {
                        assert(tags@[0]@ =~= Seq::<char>::empty());
                        assert(texts(tags@) =~= seq![Seq::<char>::empty()]);
                        Err(ProcessError { kind: ErrorKind::MissingArguments, pos })
                    } else {
                        let ghost before = self.state.active_tags@;
                        let ghost added = tags@;
                        self.state.active_tags.append(&mut tags);
                        assert(texts(before + added) =~= texts(before) + texts(added));
                        Ok(())
                    }
                },
                None => Err(ProcessError { kind: ErrorKind::MissingArguments, pos }),
            }
        } else if same_chars(name.as_slice(), &END) {
            match args {
                Some(tags) => match close_tags(&self.state.active_tags, &tags) {
                    Some(rest) => {
                        self.state.active_tags = rest;
                        Ok(())
                    },
                    None => Err(ProcessError { kind: ErrorKind::TagNotOpen, pos }),
                },
                None => {
                    let ghost before = self.state.active_tags@;
                    match self.state.active_tags.pop() {
                        Some(_) => {
                            assert(texts(self.state.active_tags@) =~= texts(before).drop_last());
                            Ok(())
                        },
                        None => Err(ProcessError { kind: ErrorKind::NothingToEnd, pos }),
                    }
                },
            }
        } else {
            Err(ProcessError { kind: ErrorKind::UnknownDirective, pos })
        }
    }
}

} // verus!
