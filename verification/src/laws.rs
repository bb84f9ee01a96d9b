//! What holds of scanning and rendering, for all templates.

use crate::chars::{
    first_index, last_index, lemma_first_index, lemma_first_index_is, lemma_last_index,
    lemma_last_index_is, whitespace,
};
use crate::directive::{arguments, close_each, execute, ErrorKind, END, IF, NOP};
use crate::model::{conditions_met, render, scan, step, Failure, Position, Scan, ScanState};
use crate::text_processor::{ParseState, Settings, ESCAPE_ENDER, ESCAPE_STARTER};
use vstd::prelude::*;

verus! {

/// Scanning two texts one after the other is scanning the first and, if
/// that did not fail, the second from where the first ended.
pub proof fn lemma_scan_concat(state: ScanState, active: Set<Seq<char>>, a: Seq<char>, b: Seq<char>)
    ensures
        scan(state, active, a + b) == if scan(state, active, a).failure is Some {
            scan(state, active, a)
        } else {
            scan(scan(state, active, a).state, active, b)
        },
    decreases a.len(),
{
    if a.len() > 0 {
        assert((a + b).drop_first() =~= a.drop_first() + b);
        match step(state, active, a.first()) {
            Ok(next) => lemma_scan_concat(next, active, a.drop_first(), b),
            Err(_) => {},
        }
    }
}

/// The place past two texts one after the other is the place past the
/// second, begun at the place past the first.
pub proof fn lemma_past_concat(pos: Position, a: Seq<char>, b: Seq<char>)
    ensures
        pos.past(a + b) == pos.past(a).past(b),
    decreases a.len(),
{
    if a.len() > 0 {
        assert((a + b).drop_first() =~= a.drop_first() + b);
        lemma_past_concat(pos.after(a.first()), a.drop_first(), b);
    }
}

/// A place past a text is counted from 1 if the place where the text
/// begins is.
pub proof fn lemma_past_counts_from_one(pos: Position, text: Seq<char>)
    requires
        pos.line >= 1,
        pos.col >= 1,
    ensures
        pos.past(text).line >= 1,
        pos.past(text).col >= 1,
    decreases text.len(),
{
    if text.len() > 0 {
        lemma_past_counts_from_one(pos.after(text.first()), text.drop_first());
    }
}

/// Every state that a character leads to from a well-formed state is
/// well-formed, and its output begins with the output before.
pub proof fn lemma_step_keeps_wf(state: ScanState, active: Set<Seq<char>>, ch: char)
    requires
        state.wf(),
    ensures
        step(state, active, ch) matches Ok(next) ==> next.wf() && state.output.is_prefix_of(
            next.output,
        ),
{
    if state.mode is MaybeEscape {
        let held = state.limbo.push(ch);
        if held.is_prefix_of(ESCAPE_STARTER@) {
            assert(held =~= ESCAPE_STARTER@);
        }
    }
}

/// Every state that scanning reaches from a well-formed state is
/// well-formed, and its output begins with the output before: output is
/// only ever added at the end.
pub proof fn lemma_scan_keeps_wf(state: ScanState, active: Set<Seq<char>>, input: Seq<char>)
    requires
        state.wf(),
    ensures
        scan(state, active, input).state.wf(),
        state.output.is_prefix_of(scan(state, active, input).state.output),
    decreases input.len(),
{
    if input.len() > 0 {
        lemma_step_keeps_wf(state, active, input.first());
        match step(state, active, input.first()) {
            Ok(next) => lemma_scan_keeps_wf(next, active, input.drop_first()),
            Err(_) => {},
        }
    }
}

/// The position counts the characters read: after an input that is scanned
/// to its end, it is the place past that input; and a failure carries the
/// position at which scanning stopped.
pub proof fn lemma_scan_tracks_position(state: ScanState, active: Set<Seq<char>>, input: Seq<char>)
    ensures
        scan(state, active, input).failure is None ==> scan(state, active, input).state.pos
            == state.pos.past(input),
        scan(state, active, input).failure matches Some(failure) ==> failure.pos == scan(
            state,
            active,
            input,
        ).state.pos,
    decreases input.len(),
{
    if input.len() > 0 {
        match step(state, active, input.first()) {
            Ok(next) => lemma_scan_tracks_position(next, active, input.drop_first()),
            Err(_) => {},
        }
    }
}

/// The text of the directive with the body `body`: the body between the
/// escape starter and the escape ender.
pub open spec fn directive(body: Seq<char>) -> Seq<char> {
    ESCAPE_STARTER@ + body + seq![ESCAPE_ENDER]
}

/// Whether `text` holds no character that may begin a directive.
pub open spec fn plain(text: Seq<char>) -> bool {
    !text.contains(ESCAPE_STARTER@[0])
}

/// Inside a directive, characters other than the escape ender are held
/// back, in order.
pub proof fn lemma_scan_body(state: ScanState, active: Set<Seq<char>>, body: Seq<char>)
    requires
        state.mode is Command,
        !body.contains(ESCAPE_ENDER),
    ensures
        scan(state, active, body) == (Scan {
            state: ScanState { limbo: state.limbo + body, pos: state.pos.past(body), ..state },
            failure: None,
        }),
    decreases body.len(),
{
    if body.len() > 0 {
        let ch = body.first();
        let next = ScanState { limbo: state.limbo.push(ch), pos: state.pos.after(ch), ..state };
        lemma_scan_body(next, active, body.drop_first());
    }
}

/// In normal text, characters that cannot begin a directive are shown if
/// every open tag is active, and dropped if not.
pub proof fn lemma_scan_plain(state: ScanState, active: Set<Seq<char>>, text: Seq<char>)
    requires
        state.mode is NormalText,
        plain(text),
    ensures
        scan(state, active, text) == (Scan {
            state: ScanState {
                output: if conditions_met(state.stack, active) {
                    state.output + text
                } else {
                    state.output
                },
                pos: state.pos.past(text),
                ..state
            },
            failure: None,
        }),
    decreases text.len(),
{
    if text.len() > 0 {
        let ch = text.first();
        let next = ScanState {
            output: if conditions_met(state.stack, active) {
                state.output.push(ch)
            } else {
                state.output
            },
            pos: state.pos.after(ch),
            ..state
        };
        lemma_scan_plain(next, active, text.drop_first());
    }
}

/// The escape starter, read in normal text, begins a directive.
pub proof fn lemma_scan_starter(state: ScanState, active: Set<Seq<char>>)
    requires
        state.wf(),
        state.mode is NormalText,
    ensures
        scan(state, active, ESCAPE_STARTER@) == (Scan {
            state: ScanState {
                mode: ParseState::Command,
                pos: state.pos.past(ESCAPE_STARTER@),
                ..state
            },
            failure: None,
        }),
{
    let first = ESCAPE_STARTER@[0];
    let second = ESCAPE_STARTER@[1];
    let tail = ESCAPE_STARTER@.drop_first();
    assert(state.limbo =~= Seq::<char>::empty());
    let held = ScanState {
        mode: ParseState::MaybeEscape,
        limbo: seq![first],
        pos: state.pos.after(first),
        ..state
    };
    let opened = ScanState {
        mode: ParseState::Command,
        pos: state.pos.after(first).after(second),
        ..state
    };
    assert(step(held, active, second) =~= Ok::<ScanState, Failure>(opened)) by {
        assert(held.limbo.push(second) =~= ESCAPE_STARTER@);
    }
    assert(state.pos.past(ESCAPE_STARTER@) == state.pos.after(first).after(second)) by {
        reveal_with_fuel(Position::past, 3);
    }
    assert(scan(held, active, tail) == scan(opened, active, tail.drop_first()));
}

/// A directive that begins in normal text is executed when its escape
/// ender is read. If it is accepted, the stack of open tags is what
/// `execute` gives, and the scanner is in normal text again, with no other
/// change but the position. If it is refused, scanning fails at the escape
/// ender.
pub proof fn lemma_scan_directive(state: ScanState, active: Set<Seq<char>>, body: Seq<char>)
    requires
        state.wf(),
        state.mode is NormalText,
        !body.contains(ESCAPE_ENDER),
    ensures
        match execute(state.stack, body) {
            Ok(stack) => scan(state, active, directive(body)) == (Scan {
                state: ScanState { stack, pos: state.pos.past(directive(body)), ..state },
                failure: None,
            }),
            Err(kind) => scan(state, active, directive(body)) == (Scan {
                state: ScanState {
                    mode: ParseState::Command,
                    limbo: body,
                    pos: state.pos.past(ESCAPE_STARTER@ + body),
                    ..state
                },
                failure: Some(Failure { kind, pos: state.pos.past(ESCAPE_STARTER@ + body) }),
            }),
        },
{
    let opened = ScanState {
        mode: ParseState::Command,
        pos: state.pos.past(ESCAPE_STARTER@),
        ..state
    };
    lemma_scan_starter(state, active);
    lemma_scan_body(opened, active, body);
    lemma_past_concat(state.pos, ESCAPE_STARTER@, body);
    let full = ScanState {
        mode: ParseState::Command,
        limbo: body,
        pos: state.pos.past(ESCAPE_STARTER@ + body),
        ..state
    };
    assert(state.limbo =~= Seq::<char>::empty());
    lemma_scan_concat(state, active, ESCAPE_STARTER@, body);
    let ender = seq![ESCAPE_ENDER];
    lemma_scan_concat(state, active, ESCAPE_STARTER@ + body, ender);
    lemma_past_concat(state.pos, ESCAPE_STARTER@ + body, ender);
    assert(full.pos.past(ender) == full.pos.after(ESCAPE_ENDER)) by {
        reveal_with_fuel(Position::past, 2);
    }
    if let Ok(stack) = execute(state.stack, body) {
        let next = ScanState { stack, pos: state.pos.past(directive(body)), ..state };
        assert(scan(full, active, ender) == scan(next, active, ender.drop_first()));
    }
}

/// Whether `tag` can be written as the one argument of a directive and
/// read back as it is: it is not empty, holds no comma and no escape ender,
/// and neither begins nor ends with whitespace.
pub open spec fn is_tag(tag: Seq<char>) -> bool {
    &&& tag.len() > 0
    &&& !tag.contains(',')
    &&& !tag.contains(ESCAPE_ENDER)
    &&& !whitespace(tag.first())
    &&& !whitespace(tag.last())
}

/// The body of the directive that opens `tag`.
pub open spec fn opening(tag: Seq<char>) -> Seq<char> {
    IF@ + seq!['('] + tag + seq![')']
}

/// The text of a region: `text` between the directive that opens `tag` and
/// the directive that closes the tag opened last.
pub open spec fn region(tag: Seq<char>, text: Seq<char>) -> Seq<char> {
    directive(opening(tag)) + text + directive(END@)
}

/// `nop` leaves the stack of open tags as it is.
pub proof fn lemma_execute_nop(stack: Seq<Seq<char>>)
    ensures
        execute(stack, NOP@) == Ok::<Seq<Seq<char>>, ErrorKind>(stack),
{
}

/// `end` pops the tag opened last.
pub proof fn lemma_execute_end(stack: Seq<Seq<char>>)
    requires
        stack.len() > 0,
    ensures
        execute(stack, END@) == Ok::<Seq<Seq<char>>, ErrorKind>(stack.drop_last()),
{
}

/// `if` with one tag pushes that tag.
pub proof fn lemma_execute_if(stack: Seq<Seq<char>>, tag: Seq<char>)
    requires
        is_tag(tag),
    ensures
        execute(stack, opening(tag)) == Ok::<Seq<Seq<char>>, ErrorKind>(stack.push(tag)),
{
    let body = opening(tag);
    assert(body[2] == '(');
    lemma_first_index_is(body, '(', 2);
    let rest = body.skip(3);
    assert(rest =~= tag + seq![')']);
    assert(rest[tag.len() as int] == ')');
    lemma_last_index_is(rest, ')', tag.len() as int);
    assert(body.take(2) =~= IF@);
    assert(rest.take(tag.len() as int) =~= tag);
    lemma_first_index(tag, ',');
    assert(arguments(tag) =~= seq![tag]);
    assert(stack + seq![tag] =~= stack.push(tag));
}

/// The body of the directive that closes `tag` by name.
pub open spec fn closing(tag: Seq<char>) -> Seq<char> {
    END@ + seq!['('] + tag + seq![')']
}

/// `end` with one tag closes the open tag of that name that is nearest to
/// the top, wherever in the stack it stands.
pub proof fn lemma_execute_end_named(stack: Seq<Seq<char>>, tag: Seq<char>)
    requires
        is_tag(tag),
        stack.contains(tag),
    ensures
        execute(stack, closing(tag)) == Ok::<Seq<Seq<char>>, ErrorKind>(
            stack.remove(last_index(stack, tag)),
        ),
{
    let body = closing(tag);
    assert(body[3] == '(');
    lemma_first_index_is(body, '(', 3);
    let rest = body.skip(4);
    assert(rest =~= tag + seq![')']);
    assert(rest[tag.len() as int] == ')');
    lemma_last_index_is(rest, ')', tag.len() as int);
    assert(body.take(3) =~= END@);
    assert(rest.take(tag.len() as int) =~= tag);
    lemma_first_index(tag, ',');
    reveal_with_fuel(close_each, 2);
}

/// A region that begins in normal text shows its text if its tag and every
/// tag that is open around it are active, and drops it if not. After the
/// region the scanner is as before it, but for the position.
pub proof fn lemma_scan_region(
    state: ScanState,
    active: Set<Seq<char>>,
    tag: Seq<char>,
    text: Seq<char>,
)
    requires
        state.wf(),
        state.mode is NormalText,
        is_tag(tag),
        plain(text),
    ensures
        scan(state, active, region(tag, text)) == (Scan {
            state: ScanState {
                output: if conditions_met(state.stack.push(tag), active) {
                    state.output + text
                } else {
                    state.output
                },
                pos: state.pos.past(region(tag, text)),
                ..state
            },
            failure: None,
        }),
{
    let open = directive(opening(tag));
    let close = directive(END@);
    lemma_execute_if(state.stack, tag);
    lemma_scan_directive(state, active, opening(tag));
    let inside = ScanState { stack: state.stack.push(tag), pos: state.pos.past(open), ..state };
    lemma_scan_plain(inside, active, text);
    let shown = ScanState {
        output: if conditions_met(inside.stack, active) {
            state.output + text
        } else {
            state.output
        },
        pos: state.pos.past(open).past(text),
        ..inside
    };
    lemma_scan_concat(state, active, open, text);
    lemma_past_concat(state.pos, open, text);
    lemma_past_counts_from_one(state.pos, open + text);
    lemma_execute_end(shown.stack);
    lemma_scan_directive(shown, active, END@);
    lemma_scan_concat(state, active, open + text, close);
    lemma_past_concat(state.pos, open + text, close);
}

/// Text inside a region is shown if and only if the region's tag is
/// active, and text outside any region is always shown: a template made of
/// `before`, a region of `tag` around `inside`, and `after`, all three
/// without a `#`, renders to `before`, then `inside` if `tag` is active,
/// then `after`.
pub proof fn lemma_tag_gates_region(
    before: Seq<char>,
    tag: Seq<char>,
    inside: Seq<char>,
    after: Seq<char>,
    active: Set<Seq<char>>,
)
    requires
        is_tag(tag),
        plain(before),
        plain(inside),
        plain(after),
    ensures
        render(before + region(tag, inside) + after, active) == Ok::<Seq<char>, Failure>(
            before + (if active.contains(tag) {
                inside
            } else {
                Seq::empty()
            }) + after,
        ),
{
    let start = ScanState::initial();
    let none = Seq::<Seq<char>>::empty();
    assert(conditions_met(none.push(tag), active) <==> active.contains(tag)) by {
        assert(none.push(tag)[0] == tag);
    }
    lemma_scan_plain(start, active, before);
    let s1 = scan(start, active, before).state;
    lemma_past_counts_from_one(start.pos, before);
    lemma_scan_region(s1, active, tag, inside);
    let s2 = scan(s1, active, region(tag, inside)).state;
    lemma_scan_plain(s2, active, after);
    lemma_scan_concat(start, active, before, region(tag, inside));
    lemma_scan_concat(start, active, before + region(tag, inside), after);
}

/// Regions side by side are shown independently: a template made of a
/// region of `first_tag` around `first` and a region of `second_tag` around
/// `second`, both texts without a `#`, renders to `first` if `first_tag` is
/// active, followed by `second` if `second_tag` is active.
pub proof fn lemma_regions_are_independent(
    first_tag: Seq<char>,
    first: Seq<char>,
    second_tag: Seq<char>,
    second: Seq<char>,
    active: Set<Seq<char>>,
)
    requires
        is_tag(first_tag),
        is_tag(second_tag),
        plain(first),
        plain(second),
    ensures
        render(region(first_tag, first) + region(second_tag, second), active) == Ok::<
            Seq<char>,
            Failure,
        >(
            (if active.contains(first_tag) {
                first
            } else {
                Seq::empty()
            }) + (if active.contains(second_tag) {
                second
            } else {
                Seq::empty()
            }),
        ),
{
    let start = ScanState::initial();
    let none = Seq::<Seq<char>>::empty();
    assert(conditions_met(none.push(first_tag), active) <==> active.contains(first_tag)) by {
        assert(none.push(first_tag)[0] == first_tag);
    }
    assert(conditions_met(none.push(second_tag), active) <==> active.contains(second_tag)) by {
        assert(none.push(second_tag)[0] == second_tag);
    }
    lemma_scan_region(start, active, first_tag, first);
    let s1 = scan(start, active, region(first_tag, first)).state;
    lemma_past_counts_from_one(start.pos, region(first_tag, first));
    lemma_scan_region(s1, active, second_tag, second);
    lemma_scan_concat(start, active, region(first_tag, first), region(second_tag, second));
}

/// `end` with a name closes the region of that name also where another
/// region was opened after it: in a template that opens `outer`, shows
/// `a`, opens `inner`, shows `b`, closes `outer` by name, shows `c` and
/// closes what is left, `a` depends on `outer`, `b` on both tags, and `c` on
/// `inner` alone.
pub proof fn lemma_named_end_closes_outer_region(
    outer: Seq<char>,
    inner: Seq<char>,
    a: Seq<char>,
    b: Seq<char>,
    c: Seq<char>,
    active: Set<Seq<char>>,
)
    requires
        is_tag(outer),
        is_tag(inner),
        plain(a),
        plain(b),
        plain(c),
    ensures
        render(
            directive(opening(outer)) + a + directive(opening(inner)) + b + directive(
                closing(outer),
            ) + c + directive(END@),
            active,
        ) == Ok::<Seq<char>, Failure>(
            (if active.contains(outer) {
                a
            } else {
                Seq::empty()
            }) + (if active.contains(outer) && active.contains(inner) {
                b
            } else {
                Seq::empty()
            }) + (if active.contains(inner) {
                c
            } else {
                Seq::empty()
            }),
        ),
{
    let none = Seq::<Seq<char>>::empty();
    let one = none.push(outer);
    let two = one.push(inner);
    let left = none.push(inner);
    assert(conditions_met(left, active) <==> active.contains(inner)) by {
        assert(left[0] == inner);
    }
    assert(two.contains(outer)) by {
        assert(two[0] == outer);
    }
    assert(two.remove(last_index(two, outer)) =~= left) by {
        lemma_last_index(two, outer);
        if inner == outer {
            lemma_last_index_is(two, outer, 1);
        } else {
            lemma_last_index_is(two, outer, 0);
        }
    }
    let d1 = directive(opening(outer));
    let d2 = directive(opening(inner));
    let d3 = directive(closing(outer));
    let d4 = directive(END@);
    let s0 = ScanState::initial();
    lemma_execute_if(none, outer);
    lemma_scan_directive(s0, active, opening(outer));
    let s1 = scan(s0, active, d1).state;
    lemma_past_counts_from_one(s0.pos, d1);
    lemma_scan_plain(s1, active, a);
    let s2 = scan(s1, active, a).state;
    lemma_past_counts_from_one(s1.pos, a);
    lemma_execute_if(one, inner);
    lemma_scan_directive(s2, active, opening(inner));
    let s3 = scan(s2, active, d2).state;
    lemma_past_counts_from_one(s2.pos, d2);
    lemma_scan_plain(s3, active, b);
    let s4 = scan(s3, active, b).state;
    lemma_past_counts_from_one(s3.pos, b);
    lemma_execute_end_named(two, outer);
    lemma_scan_directive(s4, active, closing(outer));
    let s5 = scan(s4, active, d3).state;
    lemma_past_counts_from_one(s4.pos, d3);
    lemma_scan_plain(s5, active, c);
    let s6 = scan(s5, active, c).state;
    lemma_past_counts_from_one(s5.pos, c);
    lemma_execute_end(left);
    lemma_scan_directive(s6, active, END@);
    lemma_scan_concat(s0, active, d1, a);
    lemma_scan_concat(s0, active, d1 + a, d2);
    lemma_scan_concat(s0, active, d1 + a + d2, b);
    lemma_scan_concat(s0, active, d1 + a + d2 + b, d3);
    lemma_scan_concat(s0, active, d1 + a + d2 + b + d3, c);
    lemma_scan_concat(s0, active, d1 + a + d2 + b + d3 + c, d4);
}

/// Whether the escape starter occurs in `text`.
pub open spec fn has_escape(text: Seq<char>) -> bool {
    exists|i: int|
        0 <= i && i + ESCAPE_STARTER@.len() <= text.len() && #[trigger] text.subrange(
            i,
            i + ESCAPE_STARTER@.len(),
        ) == ESCAPE_STARTER@
}

/// From normal text, or with the beginning of an escape starter held back,
/// text that completes no escape starter is all shown in the end, while
/// every open tag is active: what is held back on the way is shown at the
/// latest when the input ends.
pub proof fn lemma_scan_escape_free(state: ScanState, active: Set<Seq<char>>, text: Seq<char>)
    requires
        state.wf(),
        !(state.mode is Command),
        conditions_met(state.stack, active),
        !has_escape(state.limbo + text),
    ensures
        scan(state, active, text).failure is None,
        scan(state, active, text).state.flush().output == state.output + state.limbo + text,
    decreases text.len(),
{
    let whole = state.limbo + text;
    if text.len() > 0 {
        let ch = text.first();
        let rest = text.drop_first();
        lemma_step_keeps_wf(state, active, ch);
        if state.mode is NormalText {
            if ch == ESCAPE_STARTER@[0] {
                let next = step(state, active, ch)->Ok_0;
                assert(next.limbo + rest =~= text);
                lemma_scan_escape_free(next, active, rest);
            } else {
                let next = step(state, active, ch)->Ok_0;
                if has_escape(rest) {
                    let i = choose|i: int|
                        0 <= i && i + ESCAPE_STARTER@.len() <= rest.len() && #[trigger] rest.subrange(
                            i,
                            i + ESCAPE_STARTER@.len(),
                        ) == ESCAPE_STARTER@;
                    assert(text.subrange(i + 1, i + 1 + ESCAPE_STARTER@.len()) =~= rest.subrange(
                        i,
                        i + ESCAPE_STARTER@.len(),
                    ));
                }
                lemma_scan_escape_free(next, active, rest);
            }
        } else {
            if ch == ESCAPE_STARTER@[1] {
                assert(whole.subrange(0int, 0int + ESCAPE_STARTER@.len()) =~= ESCAPE_STARTER@);
            }
            let next = step(state, active, ch)->Ok_0;
            if has_escape(rest) {
                let i = choose|i: int|
                    0 <= i && i + ESCAPE_STARTER@.len() <= rest.len() && #[trigger] rest.subrange(
                        i,
                        i + ESCAPE_STARTER@.len(),
                    ) == ESCAPE_STARTER@;
                assert(whole.subrange(i + 2, i + 2 + ESCAPE_STARTER@.len()) =~= rest.subrange(
                    i,
                    i + ESCAPE_STARTER@.len(),
                ));
            }
            lemma_scan_escape_free(next, active, rest);
        }
    }
}

/// A template in which the escape starter does not occur renders to
/// itself, whatever tags are active.
pub proof fn lemma_escape_free_renders_to_itself(template: Seq<char>, active: Set<Seq<char>>)
    requires
        !has_escape(template),
    ensures
        render(template, active) == Ok::<Seq<char>, Failure>(template),
{
    let start = ScanState::initial();
    lemma_scan_escape_free(start, active, template);
}

/// Whether two states differ in nothing but the position.
pub open spec fn same_but_position(a: ScanState, b: ScanState) -> bool {
    a == (ScanState { pos: a.pos, ..b })
}

/// Whether two scans ended alike but for the position: in states that
/// differ in nothing but the position, both without a failure or both with a
/// failure of the same kind.
pub open spec fn same_but_positions(a: Scan, b: Scan) -> bool {
    &&& same_but_position(a.state, b.state)
    &&& match (a.failure, b.failure) {
        (None, None) => true,
        (Some(f), Some(g)) => f.kind == g.kind,
        _ => false,
    }
}

/// The position decides nothing: scanning one text from two states that
/// differ only in the position ends alike but for the position.
pub proof fn lemma_scan_ignores_position(
    a: ScanState,
    b: ScanState,
    active: Set<Seq<char>>,
    text: Seq<char>,
)
    requires
        same_but_position(a, b),
    ensures
        same_but_positions(scan(a, active, text), scan(b, active, text)),
    decreases text.len(),
{
    if text.len() > 0 {
        let ch = text.first();
        match (step(a, active, ch), step(b, active, ch)) {
            (Ok(x), Ok(y)) => {
                lemma_scan_ignores_position(x, y, active, text.drop_first());
            },
            _ => {},
        }
    }
}

/// Whether two templates render alike: both to the same text, or both fail
/// with a failure of the same kind.
pub open spec fn render_alike(a: Result<Seq<char>, Failure>, b: Result<Seq<char>, Failure>) -> bool {
    match (a, b) {
        (Ok(x), Ok(y)) => x == y,
        (Err(f), Err(g)) => f.kind == g.kind,
        _ => false,
    }
}

/// `nop` is transparent: a template with the directive `nop` at a place
/// where normal text is read renders like the template without it. Only the
/// place that a later failure reports moves.
pub proof fn lemma_nop_is_transparent(before: Seq<char>, after: Seq<char>, active: Set<Seq<char>>)
    requires
        scan(ScanState::initial(), active, before).failure is Some || scan(
            ScanState::initial(),
            active,
            before,
        ).state.mode is NormalText,
    ensures
        render_alike(
            render(before + directive(NOP@) + after, active),
            render(before + after, active),
        ),
{
    let start = ScanState::initial();
    let reached = scan(start, active, before);
    lemma_scan_concat(start, active, before, directive(NOP@));
    lemma_scan_concat(start, active, before + directive(NOP@), after);
    lemma_scan_concat(start, active, before, after);
    if reached.failure is None {
        let state = reached.state;
        lemma_scan_keeps_wf(start, active, before);
        lemma_execute_nop(state.stack);
        lemma_scan_directive(state, active, NOP@);
        let moved = ScanState { pos: state.pos.past(directive(NOP@)), ..state };
        lemma_scan_ignores_position(moved, state, active, after);
    }
}

/// Whether `name` is a directive's name that names no directive: it holds
/// no parenthesis and no escape ender, and is none of `nop`, `if`, `end`.
pub open spec fn unknown_name(name: Seq<char>) -> bool {
    &&& !name.contains('(')
    &&& !name.contains(')')
    &&& !name.contains(ESCAPE_ENDER)
    &&& name != NOP@
    &&& name != IF@
    &&& name != END@
}

/// A directive whose name names no directive is refused as unknown.
pub proof fn lemma_execute_unknown(stack: Seq<Seq<char>>, name: Seq<char>)
    requires
        unknown_name(name),
    ensures
        execute(stack, name) == Err::<Seq<Seq<char>>, ErrorKind>(ErrorKind::UnknownDirective),
{
}

/// A directive's body that holds the beginning of another directive, with
/// no parenthesis after it, is refused.
pub proof fn lemma_execute_unfinished_fails(stack: Seq<Seq<char>>, held: Seq<char>, name: Seq<char>)
    requires
        !name.contains('('),
        !name.contains(')'),
    ensures
        execute(stack, held + ESCAPE_STARTER@ + name) is Err,
{
    let body = held + ESCAPE_STARTER@ + name;
    if body.contains('(') {
        lemma_first_index(body, '(');
        lemma_last_index(body.skip(first_index(body, '(') + 1), ')');
    }
}

/// An unknown directive fails: a template that holds a directive whose
/// name names no directive does not render, whatever tags are active, unless
/// the character before the directive has left the beginning of an escape
/// starter held back.
pub proof fn lemma_unknown_directive_fails(
    before: Seq<char>,
    name: Seq<char>,
    after: Seq<char>,
    active: Set<Seq<char>>,
)
    requires
        unknown_name(name),
        scan(ScanState::initial(), active, before).failure is Some || !(scan(
            ScanState::initial(),
            active,
            before,
        ).state.mode is MaybeEscape),
    ensures
        render(before + directive(name) + after, active) is Err,
{
    let start = ScanState::initial();
    let reached = scan(start, active, before);
    lemma_scan_concat(start, active, before, directive(name));
    lemma_scan_concat(start, active, before + directive(name), after);
    if reached.failure is None {
        let state = reached.state;
        lemma_scan_keeps_wf(start, active, before);
        if state.mode is NormalText {
            lemma_execute_unknown(state.stack, name);
            lemma_scan_directive(state, active, name);
        } else {
            let inner = ESCAPE_STARTER@ + name;
            let ender = seq![ESCAPE_ENDER];
            lemma_scan_body(state, active, inner);
            assert(state.limbo + inner =~= state.limbo + ESCAPE_STARTER@ + name);
            lemma_execute_unfinished_fails(state.stack, state.limbo, name);
            lemma_scan_concat(state, active, inner, ender);
        }
    }
}

/// Rendering depends on the template and on the set of active tags alone:
/// the same template renders to the same result under two lists of active
/// tags that name the same tags, in whatever order and however often.
pub proof fn lemma_render_is_determined(
    template: Seq<char>,
    first: Settings,
    second: Settings,
)
    requires
        forall|i: int|
            0 <= i < first.active_tags.len() ==> exists|j: int|
                0 <= j < second.active_tags.len() && second.active_tags[j]@
                    == #[trigger] first.active_tags[i]@,
        forall|j: int|
            0 <= j < second.active_tags.len() ==> exists|i: int|
                0 <= i < first.active_tags.len() && first.active_tags[i]@
                    == #[trigger] second.active_tags[j]@,
    ensures
        render(template, first@) == render(template, second@),
{
    assert(first@ =~= second@);
}

} // verus!
