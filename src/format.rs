use vstd::prelude::*;
use crate::codegen::rep;

verus! {

/// Indentation for nesting depth `d`: one tab per open loop, none below zero.
pub open spec fn tabs(d: int) -> Seq<char> {
    rep(if d > 0 { d } else { 0 }, '\t')
}

/// What one character of a program adds to the layout at depth `d`, and the
/// depth after it. Brackets stand on lines of their own; the six other
/// instructions are kept; every other character is dropped.
pub open spec fn layout_step(c: char, d: int) -> (Seq<char>, int) {
    if c == '[' {
        (seq!['\n'] + tabs(d) + seq!['['] + seq!['\n'] + tabs(d + 1), d + 1)
    } else if c == ']' {
        (seq!['\n'] + tabs(d - 1) + seq![']'] + seq!['\n'] + tabs(d - 1), d - 1)
    } else if c == '>' || c == '<' || c == '+' || c == '-' || c == '.' || c == ',' {
        (seq![c], d)
    } else {
        (Seq::empty(), d)
    }
}

/// The layout of `s`, and the nesting depth at its end.
pub open spec fn layout(s: Seq<char>) -> (Seq<char>, int)
    decreases s.len(),
{
    if s.len() == 0 {
        (Seq::empty(), 0)
    } else {
        let (o, d) = layout(s.drop_last());
        let (o2, d2) = layout_step(s.last(), d);
        (o + o2, d2)
    }
}

/// The program text laid out with one level of indentation per loop.
pub open spec fn indented(s: Seq<char>) -> Seq<char> {
    layout(s).0
}

fn push_tabs(out: &mut Vec<char>, opens: usize, closes: usize)
    ensures
        final(out)@ == old(out)@ + tabs(opens - closes),
{
    let k: usize = if opens > closes { opens - closes } else { 0 };
    let mut i: usize = 0;
    while i < k
        invariant
            i <= k,
            out@ == old(out)@ + rep(i as int, '\t'),
        decreases k - i,
    {
        out.push('\t');
        i += 1;
        assert(out@ =~= old(out)@ + rep(i as int, '\t'));
    }
    assert(rep(k as int, '\t') =~= tabs(opens - closes));
}

/// Re-indents a program text: each bracket on a line of its own, the code
/// inside a loop one tab deeper, and every character that is not one of the
/// instructions `><+-.,[]` left out.
pub fn format_program(src: &Vec<char>) -> (r: Vec<char>)
    ensures
        r@ == indented(src@),
{
    let mut out: Vec<char> = Vec::new();
    let mut opens: usize = 0;
    let mut closes: usize = 0;
    let mut i: usize = 0;
    assert(src@.subrange(0, 0) =~= Seq::<char>::empty());
    while i < src.len()
        invariant
            i <= src@.len(),
            opens + closes <= i,
            layout(src@.subrange(0, i as int)) == (out@, opens - closes),
        decreases src.len() - i,
    {
        let c = src[i];
        let ghost pre = src@.subrange(0, i as int);
        assert(src@.subrange(0, i + 1).drop_last() =~= pre);
        assert(src@.subrange(0, i + 1).last() == c);
        let ghost o0 = out@;
        if c == '[' {
            out.push('\n');
            push_tabs(&mut out, opens, closes);
            out.push('[');
            out.push('\n');
            opens = opens + 1;
            push_tabs(&mut out, opens, closes);
        } else if c == ']' {
            out.push('\n');
            closes = closes + 1;
            push_tabs(&mut out, opens, closes);
            out.push(']');
            out.push('\n');
            push_tabs(&mut out, opens, closes);
        } else if c == '>' || c == '<' || c == '+' || c == '-' || c == '.' || c == ',' {
            out.push(c);
        }
        assert(out@ =~= o0 + layout_step(c, opens - closes - (if c == '[' {
            1int
        } else if c == ']' {
            -1int
        } else {
            0int
        })).0);
        i += 1;
    }
    assert(src@.subrange(0, src@.len() as int) =~= src@);
    out
}

} // verus!
