//! Directives: the text between the escape markers, its parts, and what it
//! does to the stack of open tags.

use crate::chars::{
    copy_range, cut, find_first, find_last, first_index, last_index, lemma_first_index,
    lemma_last_index, lemma_last_index_is, same_chars, split, split_ranges, trim, trim_bounds,
};
use vstd::prelude::*;

verus! {

/// The name of the directive that does nothing.
pub const NOP: [char; 3] = ['n', 'o', 'p'];

/// The name of the directive that opens tags.
pub const IF: [char; 2] = ['i', 'f'];

/// The name of the directive that closes tags.
pub const END: [char; 3] = ['e', 'n', 'd'];

/// Why a directive was refused.
#[derive(Clone, Copy, Debug, PartialEq, Eq)]
pub enum ErrorKind {
    /// The argument list is opened by `(` and never closed by `)`.
    UnterminatedArguments,
    /// Characters follow the `)` that closes the argument list.
    TrailingCharacters,
    /// A `)` stands in a directive that has no argument list.
    StrayParenthesis,
    /// `if` was given no tag.
    MissingArguments,
    /// `end` without arguments, and no tag is open.
    NothingToEnd,
    /// `end` names a tag that is not open.
    TagNotOpen,
    /// The name is none of `nop`, `if`, `end`.
    UnknownDirective,
}

/// A directive taken apart: its name and, if it has an argument list, the
/// arguments in the order written.
pub struct Directive {
    pub name: Vec<char>,
    pub args: Option<Vec<Vec<char>>>,
}

/// The mathematical value of a [`Directive`].
pub ghost struct DirectiveView {
    pub name: Seq<char>,
    pub args: Option<Seq<Seq<char>>>,
}

/// The character sequences that the vectors in `v` hold.
pub open spec fn texts(v: Seq<Vec<char>>) -> Seq<Seq<char>> {
    v.map_values(|t: Vec<char>| t@)
}

impl View for Directive {
    type V = DirectiveView;

    open spec fn view(&self) -> DirectiveView {
        DirectiveView {
            name: self.name@,
            args: match self.args {
                Some(args) => Some(texts(args@)),
                None => None,
            },
        }
    }
}

/// The arguments that the text between the parentheses holds: its pieces
/// between commas, each without the whitespace around it. An empty text
/// holds one empty argument.
pub open spec fn arguments(inner: Seq<char>) -> Seq<Seq<char>> {
    split(inner, ',').map_values(|piece: Seq<char>| trim(piece))
}

/// Takes a directive apart.
///
/// With a `(` in it, the name is what stands before the first `(`, and the
/// argument list runs from there to the last `)`, which must be the last
/// character. Without a `(`, the whole body is the name, and it must hold no
/// `)`.
pub open spec fn parse(body: Seq<char>) -> Result<DirectiveView, ErrorKind> {
    if body.contains('(') {
        let open = first_index(body, '(');
        let rest = body.skip(open + 1);
        if !rest.contains(')') {
            Err(ErrorKind::UnterminatedArguments)
        } else {
            let close = last_index(rest, ')');
            if close + 1 < rest.len() {
                Err(ErrorKind::TrailingCharacters)
            } else {
                Ok(DirectiveView { name: body.take(open), args: Some(arguments(rest.take(close))) })
            }
        }
    } else if body.contains(')') {
        Err(ErrorKind::StrayParenthesis)
    } else {
        Ok(DirectiveView { name: body, args: None })
    }
}

/// The stack without the open tag equal to `tag` that is nearest to the top,
/// or `None` where no such tag is open.
pub open spec fn close_nearest(stack: Seq<Seq<char>>, tag: Seq<char>) -> Option<Seq<Seq<char>>> {
    if stack.contains(tag) {
        Some(stack.remove(last_index(stack, tag)))
    } else {
        None
    }
}

/// Closes `tags` one after the other, each by `close_nearest`; `None` where
/// one of them is not open when its turn comes.
pub open spec fn close_each(stack: Seq<Seq<char>>, tags: Seq<Seq<char>>) -> Option<Seq<Seq<char>>>
    decreases tags.len(),
{
    if tags.len() == 0 {
        Some(stack)
    } else {
        match close_nearest(stack, tags.first()) {
            Some(rest) => close_each(rest, tags.drop_first()),
            None => None,
        }
    }
}

/// Whether a directive was given no argument: it has no argument list, or
/// nothing but whitespace stands between its parentheses.
pub open spec fn no_arguments(args: Option<Seq<Seq<char>>>) -> bool {
    match args {
        Some(list) => list == seq![Seq::<char>::empty()],
        None => true,
    }
}

/// What a directive does to the stack of open tags.
///
/// `nop` leaves it as it is. `if` pushes its arguments in the order
/// written, and needs at least one. `end` without an argument list pops the
/// top; with one, it closes each argument by `close_nearest`.
pub open spec fn apply(stack: Seq<Seq<char>>, directive: DirectiveView) -> Result<
    Seq<Seq<char>>,
    ErrorKind,
> {
    if directive.name == NOP@ {
        Ok(stack)
    } else if directive.name == IF@ {
        if no_arguments(directive.args) {
            Err(ErrorKind::MissingArguments)
        } else {
            Ok(stack + directive.args->0)
        }
    } else if directive.name == END@ {
        match directive.args {
            Some(tags) => match close_each(stack, tags) {
                Some(rest) => Ok(rest),
                None => Err(ErrorKind::TagNotOpen),
            },
            None => if stack.len() == 0 {
                Err(ErrorKind::NothingToEnd)
            } else {
                Ok(stack.drop_last())
            },
        }
    } else {
        Err(ErrorKind::UnknownDirective)
    }
}

/// What the directive with the text `body` does to the stack of open tags.
pub open spec fn execute(stack: Seq<Seq<char>>, body: Seq<char>) -> Result<
    Seq<Seq<char>>,
    ErrorKind,
> {
    match parse(body) {
        Ok(directive) => apply(stack, directive),
        Err(kind) => Err(kind),
    }
}

/// The arguments in `body[from..to]`, the text between the parentheses.
pub fn collect_arguments(body: &[char], from: usize, to: usize) -> (args: Vec<Vec<char>>)
    requires
        from <= to <= body.len(),
    ensures
        texts(args@) == arguments(body@.subrange(from as int, to as int)),
{
    let ranges = split_ranges(body, from, to, ',');
    let ghost pieces = split(body@.subrange(from as int, to as int), ',');
    let mut args: Vec<Vec<char>> = Vec::new();
    let mut k: usize = 0;
    while k < ranges.len()
        invariant
            k <= ranges.len(),
            to <= body.len(),
            pieces == cut(body@, ranges@),
            forall|j: int|
                0 <= j < ranges.len() ==> from <= (#[trigger] ranges[j]).0 <= ranges[j].1 <= to,
            texts(args@) == pieces.take(k as int).map_values(|piece: Seq<char>| trim(piece)),
        decreases ranges.len() - k,
    {
        let (a, b) = ranges[k];
        let (ta, tb) = trim_bounds(body, a, b);
        let arg = copy_range(body, ta, tb);
        let ghost before = args@;
        args.push(arg);
        assert(texts(args@) =~= texts(before).push(trim(pieces[k as int])));
        k += 1;
    }
    args
}

/// Takes the directive with the text `body` apart, or says why it cannot
/// be.
pub fn parse_directive(body: &[char]) -> (result: Result<Directive, ErrorKind>)
    ensures
        match result {
            Ok(directive) => parse(body@) == Ok::<DirectiveView, ErrorKind>(directive@),
            Err(kind) => parse(body@) == Err::<DirectiveView, ErrorKind>(kind),
        },
{
    let n = body.len();
    let open = find_first(body, 0, n, '(');
    proof {
        assert(body@.subrange(0, n as int) =~= body@);
        lemma_first_index(body@, '(');
        lemma_last_index(body@, ')');
    }
    if open < n {
        let closing = find_last(body, open + 1, n, ')');
        proof {
            lemma_last_index(body@.skip(open + 1), ')');
        }
        match closing {
            None => Err(ErrorKind::UnterminatedArguments),
            Some(close) => {
                if close + 1 < n {
                    Err(ErrorKind::TrailingCharacters)
                } else {
                    let name = copy_range(body, 0, open);
                    let args = collect_arguments(body, open + 1, close);
                    proof {
                        assert(body@.skip(open + 1).take(close - open - 1) =~= body@.subrange(
                            open + 1,
                            close as int,
                        ));
                    }
                    Ok(Directive { name, args: Some(args) })
                }
            },
        }
    } else {
        match find_last(body, 0, n, ')') {
            Some(_) => Err(ErrorKind::StrayParenthesis),
            None => {
                let name = copy_range(body, 0, n);
                Ok(Directive { name, args: None })
            },
        }
    }
}

/// The index of the open tag equal to `tag` that is nearest to the top of
/// `stack`, or `None` where no such tag is open.
pub fn find_open(stack: &Vec<Vec<char>>, tag: &[char]) -> (at: Option<usize>)
    ensures
        match at {
            Some(i) => i < stack.len() && i == last_index(texts(stack@), tag@),
            None => !texts(stack@).contains(tag@),
        },
{
    let mut i: usize = stack.len();
    while i > 0
        invariant
            i <= stack.len(),
            forall|k: int| i <= k < stack.len() ==> texts(stack@)[k] != tag@,
        decreases i,
    {
        i -= 1;
        if same_chars(stack[i].as_slice(), tag) {
            proof {
                lemma_last_index_is(texts(stack@), tag@, i as int);
            }
            return Some(i);
        }
    }
    None
}

/// A copy of `stack`.
pub fn copy_tags(stack: &Vec<Vec<char>>) -> (copy: Vec<Vec<char>>)
    ensures
        texts(copy@) == texts(stack@),
{
    let mut copy: Vec<Vec<char>> = Vec::new();
    let mut i: usize = 0;
    while i < stack.len()
        invariant
            i <= stack.len(),
            texts(copy@) == texts(stack@).take(i as int),
        decreases stack.len() - i,
    {
        let tag = copy_range(stack[i].as_slice(), 0, stack[i].len());
        assert(tag@ =~= stack@[i as int]@);
        let ghost before = copy@;
        copy.push(tag);
        assert(texts(copy@) =~= texts(before).push(tag@));
        i += 1;
    }
    copy
}

/// The stack that is left of `stack` when `tags` are closed one after the
/// other, or `None` where one of them is not open when its turn comes.
pub fn close_tags(stack: &Vec<Vec<char>>, tags: &Vec<Vec<char>>) -> (left: Option<Vec<Vec<char>>>)
    ensures
        match left {
            Some(rest) => close_each(texts(stack@), texts(tags@)) == Some(texts(rest@)),
            None => close_each(texts(stack@), texts(tags@)) is None,
        },
{
    let mut rest = copy_tags(stack);
    let mut k: usize = 0;
    assert(texts(tags@).skip(0) =~= texts(tags@));
    while k < tags.len()
        invariant
            k <= tags.len(),
            close_each(texts(stack@), texts(tags@)) == close_each(
                texts(rest@),
                texts(tags@).skip(k as int),
            ),
        decreases tags.len() - k,
    {
        let ghost before = rest@;
        assert(texts(tags@).skip(k as int).drop_first() =~= texts(tags@).skip(k + 1));
        match find_open(&rest, tags[k].as_slice()) {
            Some(i) => {
                rest.remove(i);
                proof {
                    lemma_last_index(texts(before), tags@[k as int]@);
                    assert(texts(rest@) =~= texts(before).remove(i as int));
                }
            },
            None => {
                return None;
            },
        }
        k += 1;
    }
    Some(rest)
}

} // verus!
