use vstd::prelude::*;
use crate::codegen::{
    CompileError,
    add_code, dup_code, eq_test_code, literal_code, ne_test_code, rep, sub_code,
};
use crate::interpreter::{exec, render, render_one, step, Outcome, RunError, State, Token};
use crate::driver::compile;
use crate::expr::{
    assignment_code, binary_code, binary_prefix, binary_tail, call_code, expr_code,
};
use crate::literal::{lemma_decimal_grows, number_value};
use crate::stmt::{block_code, stmt_code};
use crate::syntax::{child, has_field, kind_is, SyntaxNode};

verus! {

/// Compiling is a function of the syntax tree and the starting stack height:
/// two compilations of equal trees give the same text, or the same error.
pub proof fn lemma_deterministic(a: SyntaxNode, b: SyntaxNode, sp: int)
    requires
        a == b,
    ensures
        compile(a, sp) == compile(b, sp),
{
}

/// The expression forms that denote a value: literals, identifiers, binary
/// operations, and parentheses around one of these.
pub open spec fn value_form(n: SyntaxNode) -> bool
    decreases n,
{
    if kind_is(n, "parenthesized_expression") {
        n.children@.len() > 0 && value_form(n.children@[0])
    } else {
        kind_is(n, "binary_expression") || kind_is(n, "char_literal") || kind_is(n, "false")
            || kind_is(n, "true") || kind_is(n, "identifier") || kind_is(n, "number_literal")
    }
}

/// The forms lowered for their effect alone, which consume their temporary:
/// assignments and calls, and parentheses around one of these.
pub open spec fn effect_form(n: SyntaxNode) -> bool
    decreases n,
{
    if kind_is(n, "parenthesized_expression") {
        n.children@.len() > 0 && effect_form(n.children@[0])
    } else {
        kind_is(n, "assignment_expression") || kind_is(n, "call_expression")
    }
}

/// One-result convention: every value expression that lowers raises the tracked
/// stack height by exactly one; an assignment or a call leaves it unchanged.
pub proof fn lemma_one_result(n: SyntaxNode, env: Seq<(String, usize)>, sp: int)
    requires
        expr_code(n, env, sp) is Ok,
    ensures
        value_form(n) ==> expr_code(n, env, sp)->Ok_0.1 == sp + 1,
        effect_form(n) ==> expr_code(n, env, sp)->Ok_0.1 == sp,
    decreases n,
{
    reveal_strlit("assignment_expression");
    reveal_strlit("binary_expression");
    reveal_strlit("call_expression");
    reveal_strlit("char_literal");
    reveal_strlit("false");
    reveal_strlit("true");
    reveal_strlit("identifier");
    reveal_strlit("number_literal");
    reveal_strlit("parenthesized_expression");
    assert("assignment_expression"@.len() == 21);
    assert("binary_expression"@.len() == 17);
    assert("call_expression"@.len() == 15);
    assert("char_literal"@.len() == 12);
    assert("false"@.len() == 5);
    assert("true"@.len() == 4);
    assert("identifier"@.len() == 10);
    assert("number_literal"@.len() == 14);
    assert("parenthesized_expression"@.len() == 24);
    if kind_is(n, "parenthesized_expression") {
        assert(n.children@.len() > 0);
        assert(expr_code(n, env, sp) == expr_code(n.children@[0], env, sp));
        lemma_one_result(n.children@[0], env, sp);
    } else if kind_is(n, "binary_expression") {
        assert(expr_code(n, env, sp) == binary_code(n, env, sp));
        assert(binary_code(n, env, sp) is Ok ==> binary_code(n, env, sp)->Ok_0.1 == sp + 1);
    } else if kind_is(n, "assignment_expression") {
        assert(expr_code(n, env, sp) == assignment_code(n, env, sp));
        assert(assignment_code(n, env, sp) is Ok ==> assignment_code(n, env, sp)->Ok_0.1 == sp);
    } else if kind_is(n, "call_expression") {
        assert(expr_code(n, env, sp) == call_code(n, env, sp));
        assert(call_code(n, env, sp) is Ok ==> call_code(n, env, sp)->Ok_0.1 == sp);
    }
}

/// A block hands the stack back at the height it had at entry.
pub proof fn lemma_block_restores_height(n: SyntaxNode, env: Seq<(String, usize)>, sp: int)
    requires
        block_code(n, env, sp) is Ok,
    ensures
        block_code(n, env, sp)->Ok_0.1 == sp,
{
}

/// Every statement but an expression statement leaves the stack height as it found it.
pub proof fn lemma_statement_balanced(n: SyntaxNode, env: Seq<(String, usize)>, sp: int)
    requires
        stmt_code(n, env, sp) is Ok,
        !kind_is(n, "expression_statement"),
    ensures
        stmt_code(n, env, sp)->Ok_0.1 == sp,
{
}

/// The tokens of a move-loop from the current cell into the one below, adding
/// (`up`) or subtracting: `[<+>-]` or `[<->-]`.
pub open spec fn move_loop(t: Token, up: bool) -> bool {
    t matches Token::Loop(body) && body@ == seq![
        Token::DecPtr,
        if up {
            Token::IncVal
        } else {
            Token::DecVal
        },
        Token::IncPtr,
        Token::DecVal,
    ]
}

/// The state after a move-loop on cell `p` (into cell `p - 1`) has run out.
pub open spec fn moved(st: State, p: int, up: bool) -> State {
    let a = st.tape[p - 1] as int;
    let b = st.tape[p] as int;
    let r = if up {
        (a + b) % 256
    } else {
        (a - b + 256) % 256
    };
    State { tape: st.tape.update(p - 1, r as u8).update(p, 0u8), ..st }
}

/// One pass of a move-loop body on cell `p`.
pub open spec fn move_pass(st: State, up: bool) -> State {
    let p = st.ptr;
    let a = st.tape[p - 1];
    let b = st.tape[p];
    let na: u8 = if up {
        ((a + 1) % 256) as u8
    } else {
        ((a + 255) % 256) as u8
    };
    State { tape: st.tape.update(p - 1, na).update(p, ((b + 255) % 256) as u8), ..st }
}

proof fn lemma_move_body(t: Token, up: bool, st: State, fuel: nat)
    requires
        move_loop(t, up),
        1 <= st.ptr < st.tape.len(),
    ensures
        exec(t->Loop_0@, st, fuel) == Outcome::Done(move_pass(st, up)),
{
    let b1 = t->Loop_0@;
    let p = st.ptr;
    let s2 = move_pass(st, up);
    let na = s2.tape[p - 1];
    let x1 = State { ptr: p - 1, ..st };
    let x2 = State { tape: st.tape.update(p - 1, na), ..x1 };
    let x3 = State { ptr: p, ..x2 };
    let r3 = b1.drop_first().drop_first().drop_first();
    assert(r3.drop_first() =~= Seq::<Token>::empty());
    assert(step(b1[0], st) == Ok::<State, RunError>(x1));
    assert(step(b1[1], x1) == Ok::<State, RunError>(x2));
    assert(step(b1[2], x2) == Ok::<State, RunError>(x3));
    assert(x3.tape.update(p, ((st.tape[p] + 255) % 256) as u8) =~= s2.tape);
    assert(step(r3[0], x3) == Ok::<State, RunError>(s2));
    assert(exec(r3.drop_first(), s2, fuel) == Outcome::Done(s2));
    assert(exec(r3, x3, fuel) == Outcome::Done(s2));
    assert(exec(b1.drop_first().drop_first(), x2, fuel) == Outcome::Done(s2));
    assert(exec(b1.drop_first(), x1, fuel) == Outcome::Done(s2));
}

#[verifier::spinoff_prover]
#[verifier::rlimit(60)]
proof fn lemma_move_loop(t: Token, up: bool, st: State, fuel: nat)
    requires
        move_loop(t, up),
        1 <= st.ptr < st.tape.len(),
        fuel > st.tape[st.ptr],
    ensures
        exec(seq![t], st, fuel) == Outcome::Done(moved(st, st.ptr, up)),
    decreases st.tape[st.ptr],
{
    let p = st.ptr;
    let body = t->Loop_0;
    assert(seq![t].drop_first() =~= Seq::<Token>::empty());
    assert(seq![t][0] == t);
    if st.tape[p] == 0 {
        assert(moved(st, p, up).tape =~= st.tape);
        assert(moved(st, p, up) == st);
        assert(exec(Seq::<Token>::empty(), st, fuel) == Outcome::Done(st));
        assert(exec(seq![t], st, fuel) == exec(seq![t].drop_first(), st, fuel));
    } else {
        let a = st.tape[p - 1];
        let b = st.tape[p];
        let s2 = move_pass(st, up);
        let na = s2.tape[p - 1];
        lemma_move_body(t, up, st, (fuel - 1) as nat);
        assert(s2.tape[p] as int == b - 1);
        lemma_move_loop(t, up, s2, (fuel - 1) as nat);
        assert(exec(seq![t], st, fuel) == exec(seq![t], s2, (fuel - 1) as nat));
        assert(moved(s2, p, up).tape =~= moved(st, p, up).tape) by {
            if up {
                assert((na as int + (b - 1)) % 256 == (a + b) % 256);
            } else {
                assert((na as int - (b - 1) + 256) % 256 == (a - b + 256) % 256);
            }
        }
    }
}

/// Move-add and move-subtract: from the cell above two operands `a` (below) and
/// `b` (top), the tokens that spell `<[<+>-]` leave `(a + b) mod 256` in `a`'s
/// cell and zero in `b`'s, and those that spell `<[<->-]` leave `(a - b) mod 256`;
/// the pointer ends on the emptied cell.
pub proof fn lemma_move_arithmetic(ts: Seq<Token>, up: bool, st: State, fuel: nat)
    requires
        ts.len() == 2,
        ts[0] == Token::DecPtr,
        move_loop(ts[1], up),
        2 <= st.ptr < st.tape.len(),
        fuel > st.tape[st.ptr - 1],
    ensures
        render(ts) == if up {
            add_code()
        } else {
            sub_code()
        },
        exec(ts, st, fuel) == Outcome::Done(moved(State { ptr: st.ptr - 1, ..st }, st.ptr - 1, up)),
{
    reveal_with_fuel(render, 3);
    let body = ts[1]->Loop_0;
    reveal_with_fuel(render, 6);
    assert(body@.drop_last().drop_last().drop_last().drop_last() =~= Seq::<Token>::empty());
    assert(ts.drop_last().drop_last() =~= Seq::<Token>::empty());
    assert(ts.drop_last() =~= seq![ts[0]]);
    assert(render(body@) =~= if up {
        seq!['<', '+', '>', '-']
    } else {
        seq!['<', '-', '>', '-']
    });
    assert(render(ts) =~= if up {
        add_code()
    } else {
        sub_code()
    });
    let s1 = State { ptr: st.ptr - 1, ..st };
    assert(step(ts[0], st) == Ok::<State, RunError>(s1));
    assert(ts.drop_first() =~= seq![ts[1]]);
    lemma_move_loop(ts[1], up, s1, fuel);
}

/// The tokens that spell `[-]` zero the current cell and leave everything else.
pub proof fn lemma_clear_cell(t: Token, st: State, fuel: nat)
    requires
        clear_loop(t),
        0 <= st.ptr < st.tape.len(),
        fuel > st.tape[st.ptr],
    ensures
        render(seq![t]) == seq!['[', '-', ']'],
        exec(seq![t], st, fuel) == Outcome::Done(
            State { tape: st.tape.update(st.ptr, 0u8), ..st },
        ),
{
    reveal_with_fuel(render, 3);
    let body = t->Loop_0;
    assert(seq![t].drop_last() =~= Seq::<Token>::empty());
    assert(body@.drop_last() =~= Seq::<Token>::empty());
    assert(render(Seq::<Token>::empty()) == Seq::<char>::empty());
    assert(render(body@) == render(body@.drop_last()) + render_one(body@.last()));
    assert(render(body@) =~= seq!['-']);
    assert(render_one(t) =~= seq!['['] + render(body@) + seq![']']);
    assert(render(seq![t]) == render(seq![t].drop_last()) + render_one(seq![t].last()));
    assert(render(seq![t]) =~= seq!['[', '-', ']']);
    assert(seq![t].drop_first() =~= Seq::<Token>::empty());
    assert(seq![t][0] == t);
    lemma_clear_then(seq![t], st, fuel);
    let c = State { tape: st.tape.update(st.ptr, 0u8), ..st };
    assert(exec(Seq::<Token>::empty(), c, (fuel - st.tape[st.ptr]) as nat) == Outcome::Done(c));
}

/// A loop that spells `[-]`.
pub open spec fn clear_loop(t: Token) -> bool {
    t matches Token::Loop(body) && body@ == seq![Token::DecVal]
}

proof fn lemma_clear_then(ts: Seq<Token>, st: State, fuel: nat)
    requires
        ts.len() >= 1,
        clear_loop(ts[0]),
        0 <= st.ptr < st.tape.len(),
        fuel > st.tape[st.ptr],
    ensures
        exec(ts, st, fuel) == exec(
            ts.drop_first(),
            State { tape: st.tape.update(st.ptr, 0u8), ..st },
            (fuel - st.tape[st.ptr]) as nat,
        ),
    decreases st.tape[st.ptr],
{
    let t = ts[0];
    let body = t->Loop_0;
    let p = st.ptr;
    if st.tape[p] == 0 {
        assert(st.tape.update(p, 0u8) =~= st.tape);
        assert(State { tape: st.tape.update(p, 0u8), ..st } == st);
        assert(exec(ts, st, fuel) == exec(ts.drop_first(), st, fuel));
    } else {
        let b = st.tape[p];
        let s2 = State { tape: st.tape.update(p, ((b + 255) % 256) as u8), ..st };
        assert(body@.drop_first() =~= Seq::<Token>::empty());
        assert(step(body@[0], st) == Ok::<State, RunError>(s2));
        assert(exec(Seq::<Token>::empty(), s2, (fuel - 1) as nat) == Outcome::Done(s2));
        assert(exec(body@, st, (fuel - 1) as nat) == Outcome::Done(s2));
        lemma_clear_then(ts, s2, (fuel - 1) as nat);
        assert(exec(ts, st, fuel) == exec(ts, s2, (fuel - 1) as nat));
        assert(s2.tape.update(p, 0u8) =~= st.tape.update(p, 0u8));
    }
}

/// The tokens of a flag test: `<[[-]<->]` (`up` false) or `<[[-]<+>]` (`up` true).
pub open spec fn flag_test(ts: Seq<Token>, up: bool) -> bool {
    &&& ts.len() == 2
    &&& ts[0] == Token::DecPtr
    &&& ts[1] matches Token::Loop(v) && {
        &&& v@.len() == 4
        &&& clear_loop(v@[0])
        &&& v@[1] == Token::DecPtr
        &&& v@[2] == if up {
            Token::IncVal
        } else {
            Token::DecVal
        }
        &&& v@[3] == Token::IncPtr
    }
}

/// Zero test: from the cell above a flag `f` (below) and a difference `d` (top),
/// the tokens that spell `<[[-]<->]` or `<[[-]<+>]` clear `d` and, only where
/// `d` was nonzero, lower or raise `f` by one; the pointer ends on `d`'s cell.
#[verifier::spinoff_prover]
#[verifier::rlimit(60)]
pub proof fn lemma_flag_test(ts: Seq<Token>, up: bool, st: State, fuel: nat)
    requires
        flag_test(ts, up),
        2 <= st.ptr < st.tape.len(),
        fuel > st.tape[st.ptr - 1] + 1,
    ensures
        render(ts) == if up {
            ne_test_code()
        } else {
            eq_test_code()
        },
        exec(ts, st, fuel) == Outcome::Done(
            State {
                ptr: st.ptr - 1,
                tape: st.tape.update(
                    st.ptr - 2,
                    if st.tape[st.ptr - 1] == 0 {
                        st.tape[st.ptr - 2]
                    } else if up {
                        ((st.tape[st.ptr - 2] + 1) % 256) as u8
                    } else {
                        ((st.tape[st.ptr - 2] + 255) % 256) as u8
                    },
                ).update(st.ptr - 1, 0u8),
                ..st
            },
        ),
{
    let v = ts[1]->Loop_0;
    let w = v@[0]->Loop_0;
    reveal_with_fuel(render, 6);
    assert(w@.drop_last() =~= Seq::<Token>::empty());
    assert(render(w@) =~= seq!['-']);
    assert(v@.drop_last().drop_last().drop_last().drop_last() =~= Seq::<Token>::empty());
    assert(render(v@) =~= seq!['[', '-', ']', '<'] + if up {
        seq!['+']
    } else {
        seq!['-']
    } + seq!['>']);
    assert(ts.drop_last().drop_last() =~= Seq::<Token>::empty());
    assert(ts.drop_last() =~= seq![ts[0]]);
    assert(render(ts) =~= if up {
        ne_test_code()
    } else {
        eq_test_code()
    });
    let p = st.ptr;
    let d = st.tape[p - 1];
    let f = st.tape[p - 2];
    let s1 = State { ptr: p - 1, ..st };
    assert(step(ts[0], st) == Ok::<State, RunError>(s1));
    assert(ts.drop_first() =~= seq![ts[1]]);
    assert(seq![ts[1]].drop_first() =~= Seq::<Token>::empty());
    assert(exec(ts, st, fuel) == exec(seq![ts[1]], s1, fuel));
    let nf: u8 = if up {
        ((f + 1) % 256) as u8
    } else {
        ((f + 255) % 256) as u8
    };
    if d == 0 {
        assert(exec(Seq::<Token>::empty(), s1, fuel) == Outcome::Done(s1));
        assert(st.tape.update(p - 2, f).update(p - 1, 0u8) =~= st.tape);
    } else {
        let g = (fuel - 1) as nat;
        lemma_clear_then(v@, s1, g);
        let c1 = State { tape: s1.tape.update(p - 1, 0u8), ..s1 };
        let g2 = (g - d) as nat;
        let r1 = v@.drop_first();
        let x1 = State { ptr: p - 2, ..c1 };
        let x2 = State { tape: c1.tape.update(p - 2, nf), ..x1 };
        let s3 = State { ptr: p - 1, ..x2 };
        assert(step(r1[0], c1) == Ok::<State, RunError>(x1));
        assert(step(r1[1], x1) == Ok::<State, RunError>(x2));
        assert(step(r1[2], x2) == Ok::<State, RunError>(s3));
        assert(r1.drop_first().drop_first().drop_first() =~= Seq::<Token>::empty());
        assert(exec(r1.drop_first().drop_first().drop_first(), s3, g2) == Outcome::Done(s3));
        assert(exec(r1.drop_first().drop_first(), x2, g2) == Outcome::Done(s3));
        assert(exec(r1.drop_first(), x1, g2) == Outcome::Done(s3));
        assert(exec(r1, c1, g2) == Outcome::Done(s3));
        assert(exec(v@, s1, g) == Outcome::Done(s3));
        assert(s3.tape[p - 1] == 0);
        assert(exec(Seq::<Token>::empty(), s3, g) == Outcome::Done(s3));
        assert(exec(seq![ts[1]], s3, g) == Outcome::Done(s3));
        assert(exec(seq![ts[1]], s1, fuel) == exec(seq![ts[1]], s3, g));
        assert(s3.tape =~= st.tape.update(p - 2, nf).update(p - 1, 0u8));
    }
}

/// `k` pointer steps: left when `left`, else right.
pub open spec fn steps(k: nat, left: bool) -> Seq<Token> {
    Seq::new(k, |_i: int| if left {
        Token::DecPtr
    } else {
        Token::IncPtr
    })
}

proof fn lemma_steps(ts: Seq<Token>, k: nat, left: bool, st: State, fuel: nat)
    requires
        k <= ts.len(),
        ts.subrange(0, k as int) == steps(k, left),
        left ==> st.ptr >= k,
        !left ==> st.ptr + k < st.tape.len(),
        0 <= st.ptr < st.tape.len(),
    ensures
        exec(ts, st, fuel) == exec(
            ts.subrange(k as int, ts.len() as int),
            State {
                ptr: if left {
                    st.ptr - k
                } else {
                    st.ptr + k
                },
                ..st
            },
            fuel,
        ),
    decreases k,
{
    if k == 0 {
        assert(ts.subrange(0, ts.len() as int) =~= ts);
        assert(State { ptr: st.ptr, ..st } == st);
    } else {
        assert(ts[0] == ts.subrange(0, k as int)[0]);
        let s1 = State {
            ptr: if left {
                st.ptr - 1
            } else {
                st.ptr + 1
            },
            ..st
        };
        assert(step(ts[0], st) == Ok::<State, RunError>(s1));
        assert(exec(ts, st, fuel) == exec(ts.drop_first(), s1, fuel));
        assert forall|j: int| 0 <= j < k - 1 implies #[trigger] ts.drop_first().subrange(0, k - 1)[j]
            == steps((k - 1) as nat, left)[j] by {
            assert(ts.drop_first().subrange(0, k - 1)[j] == ts.subrange(0, k as int)[j + 1]);
        }
        assert(ts.drop_first().subrange(0, k - 1) =~= steps((k - 1) as nat, left));
        lemma_steps(ts.drop_first(), (k - 1) as nat, left, s1, fuel);
        assert(ts.drop_first().subrange(k - 1, ts.drop_first().len() as int) =~= ts.subrange(
            k as int,
            ts.len() as int,
        ));
    }
}

/// The body of the first loop of a read: `-`, `k` steps right, `+>+`, `k + 1` steps left.
pub open spec fn spread_body(k: nat) -> Seq<Token> {
    seq![Token::DecVal] + steps(k, false) + seq![Token::IncVal, Token::IncPtr, Token::IncVal]
        + steps((k + 1) as nat, true)
}

/// The body of the second loop of a read: `-`, `k + 1` steps left, `+`, `k + 1` steps right.
pub open spec fn return_body(k: nat) -> Seq<Token> {
    seq![Token::DecVal] + steps((k + 1) as nat, true) + seq![Token::IncVal] + steps((k + 1) as nat, false)
}

/// Adds one, modulo 256, to the cell at `i`.
pub open spec fn bump(t: Seq<u8>, i: int, up: bool) -> Seq<u8> {
    t.update(
        i,
        if up {
            ((t[i] + 1) % 256) as u8
        } else {
            ((t[i] + 255) % 256) as u8
        },
    )
}

#[verifier::spinoff_prover]
#[verifier::rlimit(60)]
proof fn lemma_spread_pass(k: nat, st: State, fuel: nat)
    requires
        0 <= st.ptr,
        st.ptr + k + 1 < st.tape.len(),
    ensures
        exec(spread_body(k), st, fuel) == Outcome::Done(
            State {
                tape: bump(bump(bump(st.tape, st.ptr, false), st.ptr + k, true), st.ptr + k + 1, true),
                ..st
            },
        ),
{
    let q = st.ptr;
    let b = spread_body(k);
    let t1 = bump(st.tape, q, false);
    let x1 = State { tape: t1, ..st };
    assert(b[0] == Token::DecVal);
    assert(step(b[0], st) == Ok::<State, RunError>(x1));
    let r1 = b.drop_first();
    assert(r1.subrange(0, k as int) =~= steps(k, false));
    lemma_steps(r1, k, false, x1, fuel);
    let r2 = r1.subrange(k as int, r1.len() as int);
    let x2 = State { ptr: q + k, ..x1 };
    let t3 = bump(t1, q + k, true);
    let x3 = State { tape: t3, ..x2 };
    let x4 = State { ptr: q + k + 1, ..x3 };
    let t5 = bump(t3, q + k + 1, true);
    let x5 = State { tape: t5, ..x4 };
    assert(r2[0] == Token::IncVal && r2[1] == Token::IncPtr && r2[2] == Token::IncVal);
    assert(step(r2[0], x2) == Ok::<State, RunError>(x3));
    assert(step(r2[1], x3) == Ok::<State, RunError>(x4));
    assert(step(r2[2], x4) == Ok::<State, RunError>(x5));
    let r5 = r2.drop_first().drop_first().drop_first();
    assert(r5 =~= steps((k + 1) as nat, true));
    assert(r5.subrange(0, k + 1 as int) =~= steps((k + 1) as nat, true));
    lemma_steps(r5, (k + 1) as nat, true, x5, fuel);
    assert(r5.subrange(k + 1 as int, r5.len() as int) =~= Seq::<Token>::empty());
    let x6 = State { ptr: q, ..x5 };
    assert(exec(Seq::<Token>::empty(), x6, fuel) == Outcome::Done(x6));
    assert(exec(r2.drop_first().drop_first(), x4, fuel) == exec(r5, x5, fuel));
    assert(exec(r2.drop_first(), x3, fuel) == exec(r2.drop_first().drop_first(), x4, fuel));
    assert(exec(r2, x2, fuel) == exec(r2.drop_first(), x3, fuel));
    assert(exec(b, st, fuel) == exec(r1, x1, fuel));
    assert(x6 == State { tape: t5, ..st });
}

#[verifier::spinoff_prover]
#[verifier::rlimit(60)]
proof fn lemma_return_pass(k: nat, st: State, fuel: nat)
    requires
        st.ptr - k - 1 >= 0,
        st.ptr < st.tape.len(),
    ensures
        exec(return_body(k), st, fuel) == Outcome::Done(
            State { tape: bump(bump(st.tape, st.ptr, false), st.ptr - k - 1, true), ..st },
        ),
{
    let r = st.ptr;
    let b = return_body(k);
    let t1 = bump(st.tape, r, false);
    let x1 = State { tape: t1, ..st };
    assert(b[0] == Token::DecVal);
    assert(step(b[0], st) == Ok::<State, RunError>(x1));
    let r1 = b.drop_first();
    assert(r1.subrange(0, k + 1 as int) =~= steps((k + 1) as nat, true));
    lemma_steps(r1, (k + 1) as nat, true, x1, fuel);
    let r2 = r1.subrange(k + 1 as int, r1.len() as int);
    let x2 = State { ptr: r - k - 1, ..x1 };
    let t3 = bump(t1, r - k - 1, true);
    let x3 = State { tape: t3, ..x2 };
    assert(r2[0] == Token::IncVal);
    assert(step(r2[0], x2) == Ok::<State, RunError>(x3));
    let r3 = r2.drop_first();
    assert(r3 =~= steps((k + 1) as nat, false));
    assert(r3.subrange(0, k + 1 as int) =~= steps((k + 1) as nat, false));
    lemma_steps(r3, (k + 1) as nat, false, x3, fuel);
    assert(r3.subrange(k + 1 as int, r3.len() as int) =~= Seq::<Token>::empty());
    let x4 = State { ptr: r, ..x3 };
    assert(exec(Seq::<Token>::empty(), x4, fuel) == Outcome::Done(x4));
    assert(exec(r2, x2, fuel) == exec(r3, x3, fuel));
    assert(exec(b, st, fuel) == exec(r1, x1, fuel));
    assert(x4 == State { tape: t3, ..st });
}

#[verifier::spinoff_prover]
#[verifier::rlimit(60)]
proof fn lemma_spread_loop(ts: Seq<Token>, k: nat, st: State, fuel: nat)
    requires
        ts.len() >= 1,
        ts[0] matches Token::Loop(b) && b@ == spread_body(k),
        k >= 1,
        0 <= st.ptr,
        st.ptr + k + 1 < st.tape.len(),
        fuel > st.tape[st.ptr],
    ensures
        exec(ts, st, fuel) == exec(
            ts.drop_first(),
            State {
                tape: st.tape.update(st.ptr, 0u8).update(
                    st.ptr + k,
                    ((st.tape[st.ptr + k] + st.tape[st.ptr]) % 256) as u8,
                ).update(st.ptr + k + 1, ((st.tape[st.ptr + k + 1] + st.tape[st.ptr]) % 256) as u8),
                ..st
            },
            (fuel - st.tape[st.ptr]) as nat,
        ),
    decreases st.tape[st.ptr],
{
    let q = st.ptr;
    let v = st.tape[q];
    if v == 0 {
        assert(st.tape.update(q, 0u8).update(q + k, ((st.tape[q + k] + 0) % 256) as u8).update(
            q + k + 1,
            ((st.tape[q + k + 1] + 0) % 256) as u8,
        ) =~= st.tape);
        assert(exec(ts, st, fuel) == exec(ts.drop_first(), st, fuel));
    } else {
        lemma_spread_pass(k, st, (fuel - 1) as nat);
        let s2 = State {
            tape: bump(bump(bump(st.tape, q, false), q + k, true), q + k + 1, true),
            ..st
        };
        assert(exec(ts, st, fuel) == exec(ts, s2, (fuel - 1) as nat));
        assert(s2.tape[q] == v - 1);
        lemma_spread_loop(ts, k, s2, (fuel - 1) as nat);
        assert(s2.tape.update(q, 0u8).update(
            q + k,
            ((s2.tape[q + k] + s2.tape[q]) % 256) as u8,
        ).update(q + k + 1, ((s2.tape[q + k + 1] + s2.tape[q]) % 256) as u8) =~= st.tape.update(
            q,
            0u8,
        ).update(q + k, ((st.tape[q + k] + v) % 256) as u8).update(
            q + k + 1,
            ((st.tape[q + k + 1] + v) % 256) as u8,
        ));
    }
}

#[verifier::spinoff_prover]
#[verifier::rlimit(60)]
proof fn lemma_return_loop(ts: Seq<Token>, k: nat, st: State, fuel: nat)
    requires
        ts.len() >= 1,
        ts[0] matches Token::Loop(b) && b@ == return_body(k),
        st.ptr - k - 1 >= 0,
        st.ptr < st.tape.len(),
        fuel > st.tape[st.ptr],
    ensures
        exec(ts, st, fuel) == exec(
            ts.drop_first(),
            State {
                tape: st.tape.update(st.ptr, 0u8).update(
                    st.ptr - k - 1,
                    ((st.tape[st.ptr - k - 1] + st.tape[st.ptr]) % 256) as u8,
                ),
                ..st
            },
            (fuel - st.tape[st.ptr]) as nat,
        ),
    decreases st.tape[st.ptr],
{
    let r = st.ptr;
    let v = st.tape[r];
    if v == 0 {
        assert(st.tape.update(r, 0u8).update(r - k - 1, ((st.tape[r - k - 1] + 0) % 256) as u8)
            =~= st.tape);
        assert(exec(ts, st, fuel) == exec(ts.drop_first(), st, fuel));
    } else {
        lemma_return_pass(k, st, (fuel - 1) as nat);
        let s2 = State { tape: bump(bump(st.tape, r, false), r - k - 1, true), ..st };
        assert(exec(ts, st, fuel) == exec(ts, s2, (fuel - 1) as nat));
        assert(s2.tape[r] == v - 1);
        lemma_return_loop(ts, k, s2, (fuel - 1) as nat);
        assert(s2.tape.update(r, 0u8).update(
            r - k - 1,
            ((s2.tape[r - k - 1] + s2.tape[r]) % 256) as u8,
        ) =~= st.tape.update(r, 0u8).update(r - k - 1, ((st.tape[r - k - 1] + v) % 256) as u8));
    }
}

proof fn lemma_render_concat(a: Seq<Token>, b: Seq<Token>)
    ensures
        render(a + b) == render(a) + render(b),
    decreases b.len(),
{
    if b.len() == 0 {
        assert(a + b =~= a);
        assert(render(a) + render(b) =~= render(a));
    } else {
        assert((a + b).drop_last() =~= a + b.drop_last());
        assert((a + b).last() == b.last());
        lemma_render_concat(a, b.drop_last());
        assert(render(a) + render(b.drop_last()) + render_one(b.last()) =~= render(a) + (render(
            b.drop_last(),
        ) + render_one(b.last())));
    }
}

proof fn lemma_render_steps(k: nat, left: bool)
    ensures
        render(steps(k, left)) == rep(
            k as int,
            if left {
                '<'
            } else {
                '>'
            },
        ),
    decreases k,
{
    if k == 0 {
        assert(steps(k, left) =~= Seq::<Token>::empty());
        assert(rep(0, if left { '<' } else { '>' }) =~= Seq::<char>::empty());
    } else {
        assert(steps(k, left).drop_last() =~= steps((k - 1) as nat, left));
        lemma_render_steps((k - 1) as nat, left);
        assert(rep(k - 1, if left { '<' } else { '>' }) + render_one(steps(k, left).last()) =~= rep(
            k as int,
            if left {
                '<'
            } else {
                '>'
            },
        ));
    }
}

proof fn lemma_render_single(t: Token)
    ensures
        render(seq![t]) == render_one(t),
{
    assert(seq![t].drop_last() =~= Seq::<Token>::empty());
    assert(render(Seq::<Token>::empty()) + render_one(t) =~= render_one(t));
}

proof fn lemma_render_spread(k: nat)
    ensures
        render(spread_body(k)) == seq!['-'] + rep(k as int, '>') + seq!['+', '>', '+'] + rep(
            k + 1 as int,
            '<',
        ),
{
    let d = seq![Token::DecVal];
    let three = seq![Token::IncVal, Token::IncPtr, Token::IncVal];
    assert(three =~= seq![Token::IncVal] + seq![Token::IncPtr] + seq![Token::IncVal]);
    lemma_render_single(Token::DecVal);
    lemma_render_single(Token::IncVal);
    lemma_render_single(Token::IncPtr);
    lemma_render_concat(seq![Token::IncVal], seq![Token::IncPtr]);
    lemma_render_concat(seq![Token::IncVal] + seq![Token::IncPtr], seq![Token::IncVal]);
    assert(render(three) =~= seq!['+', '>', '+']);
    lemma_render_steps(k, false);
    lemma_render_steps((k + 1) as nat, true);
    lemma_render_concat(d, steps(k, false));
    lemma_render_concat(d + steps(k, false), three);
    lemma_render_concat(d + steps(k, false) + three, steps((k + 1) as nat, true));
}

proof fn lemma_render_return(k: nat)
    ensures
        render(return_body(k)) == seq!['-'] + rep(k + 1 as int, '<') + seq!['+'] + rep(k + 1 as int, '>'),
{
    let d = seq![Token::DecVal];
    lemma_render_single(Token::DecVal);
    lemma_render_single(Token::IncVal);
    lemma_render_steps((k + 1) as nat, true);
    lemma_render_steps((k + 1) as nat, false);
    lemma_render_concat(d, steps((k + 1) as nat, true));
    lemma_render_concat(d + steps((k + 1) as nat, true), seq![Token::IncVal]);
    lemma_render_concat(
        d + steps((k + 1) as nat, true) + seq![Token::IncVal],
        steps((k + 1) as nat, false),
    );
}

#[verifier::spinoff_prover]
#[verifier::rlimit(60)]
proof fn lemma_duplicate_text(ts: Seq<Token>, l1: Token, l2: Token, k: nat)
    requires
        ts == steps(k, true) + seq![l1] + steps((k + 1) as nat, false) + seq![l2],
        l1 matches Token::Loop(b) && b@ == spread_body(k),
        l2 matches Token::Loop(b) && b@ == return_body(k),
    ensures
        render(ts) == dup_code(k as int),
{
    lemma_render_spread(k);
    lemma_render_return(k);
    lemma_render_single(l1);
    lemma_render_single(l2);
    lemma_render_steps(k, true);
    lemma_render_steps((k + 1) as nat, false);
    lemma_render_concat(steps(k, true), seq![l1]);
    lemma_render_concat(steps(k, true) + seq![l1], steps((k + 1) as nat, false));
    lemma_render_concat(steps(k, true) + seq![l1] + steps((k + 1) as nat, false), seq![l2]);
    assert(render(ts) =~= dup_code(k as int));
}

#[verifier::spinoff_prover]
#[verifier::rlimit(80)]
proof fn lemma_duplicate_run(ts: Seq<Token>, l1: Token, l2: Token, k: nat, st: State, fuel: nat)
    requires
        ts == steps(k, true) + seq![l1] + steps((k + 1) as nat, false) + seq![l2],
        l1 matches Token::Loop(b) && b@ == spread_body(k),
        l2 matches Token::Loop(b) && b@ == return_body(k),
        k >= 1,
        k <= st.ptr,
        st.ptr + 1 < st.tape.len(),
        st.tape[st.ptr] == 0,
        st.tape[st.ptr + 1] == 0,
        fuel > 2 * st.tape[st.ptr - k],
    ensures
        exec(ts, st, fuel) == Outcome::Done(
            State {
                ptr: st.ptr + 1,
                tape: st.tape.update(st.ptr, st.tape[st.ptr - k]),
                ..st
            },
        ),
{
    let p = st.ptr;
    let q = p - k;
    let v = st.tape[q];
    let n = ts.len();
    assert(ts.subrange(0, k as int) =~= steps(k, true));
    lemma_steps(ts, k, true, st, fuel);
    let ts1 = ts.subrange(k as int, n as int);
    let sq = State { ptr: q, ..st };
    assert(ts1[0] == l1);
    lemma_spread_loop(ts1, k, sq, fuel);
    let ta = st.tape.update(q, 0u8).update(p, ((st.tape[p] + v) % 256) as u8).update(
        p + 1,
        ((st.tape[p + 1] + v) % 256) as u8,
    );
    let sa = State { tape: ta, ..sq };
    let ts2 = ts1.drop_first();
    assert(ts2.subrange(0, k + 1 as int) =~= steps((k + 1) as nat, false));
    lemma_steps(ts2, (k + 1) as nat, false, sa, (fuel - v) as nat);
    let ts3 = ts2.subrange(k + 1 as int, ts2.len() as int);
    let sb = State { ptr: p + 1, ..sa };
    assert(ts3 =~= seq![l2]);
    assert(sb.tape[p + 1] == v);
    lemma_return_loop(ts3, k, sb, (fuel - v) as nat);
    let tc = ta.update(p + 1, 0u8).update(q, ((ta[q] + v) % 256) as u8);
    let sc = State { tape: tc, ..sb };
    assert(ts3.drop_first() =~= Seq::<Token>::empty());
    assert(exec(Seq::<Token>::empty(), sc, (fuel - v - v) as nat) == Outcome::Done(sc));
    assert(tc =~= st.tape.update(p, v));
}

/// Non-destructive read: with the stack top at `p` (its cell and the next one
/// zero) and a variable `k` cells below, the tokens that spell the read sequence
/// leave the variable's value unchanged, put a copy of it in the cell at `p`, and
/// end with the pointer one cell higher.
pub proof fn lemma_duplicate(ts: Seq<Token>, l1: Token, l2: Token, k: nat, st: State, fuel: nat)
    requires
        ts == steps(k, true) + seq![l1] + steps((k + 1) as nat, false) + seq![l2],
        l1 matches Token::Loop(b) && b@ == spread_body(k),
        l2 matches Token::Loop(b) && b@ == return_body(k),
        k >= 1,
        k <= st.ptr,
        st.ptr + 1 < st.tape.len(),
        st.tape[st.ptr] == 0,
        st.tape[st.ptr + 1] == 0,
        fuel > 2 * st.tape[st.ptr - k],
    ensures
        render(ts) == dup_code(k as int),
        exec(ts, st, fuel) == Outcome::Done(
            State {
                ptr: st.ptr + 1,
                tape: st.tape.update(st.ptr, st.tape[st.ptr - k]),
                ..st
            },
        ),
{
    lemma_duplicate_text(ts, l1, l2, k);
    lemma_duplicate_run(ts, l1, l2, k, st, fuel);
}

/// `n` increments.
pub open spec fn incs(n: nat) -> Seq<Token> {
    Seq::new(n, |_i: int| Token::IncVal)
}

proof fn lemma_incs(ts: Seq<Token>, n: nat, st: State, fuel: nat)
    requires
        n <= ts.len(),
        ts.subrange(0, n as int) == incs(n),
        0 <= st.ptr < st.tape.len(),
    ensures
        exec(ts, st, fuel) == exec(
            ts.subrange(n as int, ts.len() as int),
            State { tape: st.tape.update(st.ptr, ((st.tape[st.ptr] + n) % 256) as u8), ..st },
            fuel,
        ),
    decreases n,
{
    let p = st.ptr;
    if n == 0 {
        assert(ts.subrange(0, ts.len() as int) =~= ts);
        assert(st.tape.update(p, ((st.tape[p] + 0) % 256) as u8) =~= st.tape);
        assert(State { tape: st.tape, ..st } == st);
    } else {
        assert(ts[0] == ts.subrange(0, n as int)[0]);
        let s1 = State { tape: st.tape.update(p, ((st.tape[p] + 1) % 256) as u8), ..st };
        assert(step(ts[0], st) == Ok::<State, RunError>(s1));
        assert(exec(ts, st, fuel) == exec(ts.drop_first(), s1, fuel));
        assert forall|j: int| 0 <= j < n - 1 implies #[trigger] ts.drop_first().subrange(0, n - 1)[j]
            == incs((n - 1) as nat)[j] by {
            assert(ts.drop_first().subrange(0, n - 1)[j] == ts.subrange(0, n as int)[j + 1]);
        }
        assert(ts.drop_first().subrange(0, n - 1) =~= incs((n - 1) as nat));
        lemma_incs(ts.drop_first(), (n - 1) as nat, s1, fuel);
        assert(ts.drop_first().subrange(n - 1, ts.drop_first().len() as int) =~= ts.subrange(
            n as int,
            ts.len() as int,
        ));
        assert(s1.tape.update(p, ((s1.tape[p] + (n - 1)) % 256) as u8) =~= st.tape.update(
            p,
            ((st.tape[p] + n) % 256) as u8,
        ));
    }
}

proof fn lemma_render_incs(n: nat)
    ensures
        render(incs(n)) == rep(n as int, '+'),
    decreases n,
{
    if n == 0 {
        assert(incs(n) =~= Seq::<Token>::empty());
        assert(rep(0, '+') =~= Seq::<char>::empty());
    } else {
        assert(incs(n).drop_last() =~= incs((n - 1) as nat));
        lemma_render_incs((n - 1) as nat);
        assert(rep(n - 1, '+') + render_one(incs(n).last()) =~= rep(n as int, '+'));
    }
}

proof fn lemma_move_text(ts: Seq<Token>, up: bool)
    requires
        ts.len() == 2,
        ts[0] == Token::DecPtr,
        move_loop(ts[1], up),
    ensures
        render(ts) == if up {
            add_code()
        } else {
            sub_code()
        },
{
    reveal_with_fuel(render, 6);
    let body = ts[1]->Loop_0;
    assert(body@.drop_last().drop_last().drop_last().drop_last() =~= Seq::<Token>::empty());
    assert(ts.drop_last().drop_last() =~= Seq::<Token>::empty());
    assert(ts.drop_last() =~= seq![ts[0]]);
    assert(render(body@) =~= if up {
        seq!['<', '+', '>', '-']
    } else {
        seq!['<', '-', '>', '-']
    });
    assert(render(ts) =~= if up {
        add_code()
    } else {
        sub_code()
    });
}

proof fn lemma_mod_combine(a: int, b: int)
    ensures
        (a % 256 + b % 256) % 256 == (a + b) % 256,
        (a % 256 - b % 256 + 256) % 256 == (a - b) % 256,
{
    assert((a % 256 + b % 256) % 256 == (a + b) % 256) by (nonlinear_arith);
    assert((a % 256 - b % 256 + 256) % 256 == (a - b) % 256) by (nonlinear_arith);
}

proof fn lemma_literal_text(ts: Seq<Token>, l: Token, a: nat, b: nat, up: bool)
    requires
        ts == incs(a) + seq![Token::IncPtr] + incs(b) + seq![Token::IncPtr] + seq![Token::DecPtr, l],
        move_loop(l, up),
    ensures
        render(ts) == literal_code(a as int) + literal_code(b as int) + if up {
            add_code()
        } else {
            sub_code()
        },
{
    lemma_render_incs(a);
    lemma_render_incs(b);
    lemma_render_single(Token::IncPtr);
    assert(seq![Token::DecPtr, l] =~= seq![Token::DecPtr] + seq![l]);
    let mv = seq![Token::DecPtr, l];
    lemma_render_concat(incs(a), seq![Token::IncPtr]);
    lemma_render_concat(incs(a) + seq![Token::IncPtr], incs(b));
    lemma_render_concat(incs(a) + seq![Token::IncPtr] + incs(b), seq![Token::IncPtr]);
    lemma_render_concat(incs(a) + seq![Token::IncPtr] + incs(b) + seq![Token::IncPtr], mv);
    lemma_move_text(mv, up);
    assert(render(ts) =~= literal_code(a as int) + literal_code(b as int) + if up {
        add_code()
    } else {
        sub_code()
    });
}

#[verifier::spinoff_prover]
#[verifier::rlimit(100)]
proof fn lemma_literal_run(
    ts: Seq<Token>,
    l: Token,
    a: nat,
    b: nat,
    up: bool,
    st: State,
    fuel: nat,
)
    requires
        ts == incs(a) + seq![Token::IncPtr] + incs(b) + seq![Token::IncPtr] + seq![Token::DecPtr, l],
        move_loop(l, up),
        st.ptr + 2 < st.tape.len(),
        0 <= st.ptr,
        st.tape[st.ptr] == 0,
        st.tape[st.ptr + 1] == 0,
        fuel > 255,
    ensures
        exec(ts, st, fuel) == Outcome::Done(
            State {
                ptr: st.ptr + 1,
                tape: st.tape.update(
                    st.ptr,
                    (if up {
                        (a + b) as int % 256
                    } else {
                        (a - b) % 256
                    }) as u8,
                ),
                ..st
            },
        ),
{
    let p = st.ptr;
    let n = ts.len();
    assert(ts.subrange(0, a as int) =~= incs(a));
    lemma_incs(ts, a, st, fuel);
    let t1 = ts.subrange(a as int, n as int);
    let s1 = State { tape: st.tape.update(p, (a % 256) as u8), ..st };
    assert(st.tape.update(p, ((st.tape[p] + a) % 256) as u8) == s1.tape);
    let s2 = State { ptr: p + 1, ..s1 };
    assert(t1[0] == Token::IncPtr);
    assert(step(t1[0], s1) == Ok::<State, RunError>(s2));
    let t2 = t1.drop_first();
    assert(t2.subrange(0, b as int) =~= incs(b));
    lemma_incs(t2, b, s2, fuel);
    let t3 = t2.subrange(b as int, t2.len() as int);
    let s3 = State { tape: s2.tape.update(p + 1, (b % 256) as u8), ..s2 };
    assert(s2.tape.update(p + 1, ((s2.tape[p + 1] + b) % 256) as u8) == s3.tape);
    let s4 = State { ptr: p + 2, ..s3 };
    assert(t3[0] == Token::IncPtr);
    assert(step(t3[0], s3) == Ok::<State, RunError>(s4));
    let t4 = t3.drop_first();
    assert(t4 =~= seq![Token::DecPtr, l]);
    lemma_move_arithmetic(t4, up, s4, fuel);
    let fin = moved(State { ptr: p + 1, ..s4 }, p + 1, up);
    assert(fin.tape =~= st.tape.update(
        p,
        (if up {
            (a + b) as int % 256
        } else {
            (a - b) % 256
        }) as u8,
    )) by {
        lemma_mod_combine(a as int, b as int);
    }
}

/// Sum and difference of literals: from a stack top at `p` with two zero cells,
/// the tokens that spell the literal `a`, the literal `b` and then move-add (or
/// move-subtract) leave `(a + b) mod 256` (or `(a - b) mod 256`) in the cell at
/// `p`, zero above it, and the pointer one cell higher.
pub proof fn lemma_literal_arithmetic(
    ts: Seq<Token>,
    l: Token,
    a: nat,
    b: nat,
    up: bool,
    st: State,
    fuel: nat,
)
    requires
        ts == incs(a) + seq![Token::IncPtr] + incs(b) + seq![Token::IncPtr] + seq![Token::DecPtr, l],
        move_loop(l, up),
        st.ptr + 2 < st.tape.len(),
        0 <= st.ptr,
        st.tape[st.ptr] == 0,
        st.tape[st.ptr + 1] == 0,
        fuel > 255,
    ensures
        render(ts) == literal_code(a as int) + literal_code(b as int) + if up {
            add_code()
        } else {
            sub_code()
        },
        exec(ts, st, fuel) == Outcome::Done(
            State {
                ptr: st.ptr + 1,
                tape: st.tape.update(
                    st.ptr,
                    (if up {
                        (a + b) as int % 256
                    } else {
                        (a - b) % 256
                    }) as u8,
                ),
                ..st
            },
        ),
{
    lemma_literal_text(ts, l, a, b, up);
    lemma_literal_run(ts, l, a, b, up, st, fuel);
}

/// The tokens of an if/else once its condition is computed: `<[<->[-]`, the
/// consequence `c1`, `]<[-`, the alternative `c2`, `]`.
pub open spec fn if_else_tokens(ts: Seq<Token>, w: Token, c1: Seq<Token>, c2: Seq<Token>) -> bool {
    &&& ts.len() == 4
    &&& ts[0] == Token::DecPtr
    &&& ts[2] == Token::DecPtr
    &&& clear_loop(w)
    &&& ts[1] matches Token::Loop(v1) && v1@ == seq![Token::DecPtr, Token::DecVal, Token::IncPtr, w]
        + c1
    &&& ts[3] matches Token::Loop(v2) && v2@ == seq![Token::DecVal] + c2
}

/// If/else exclusivity: with the counter cell (1) at `p` and the condition `c`
/// at `p + 1`, a nonzero condition runs the consequence alone and a zero one the
/// alternative alone; either way the machine ends as that branch left it, with
/// the pointer back on `p`. Each branch is given by how it ends from the state
/// in which it starts, and must hand back the pointer and its flag cell as it
/// found them.
#[verifier::spinoff_prover]
#[verifier::rlimit(60)]
pub proof fn lemma_if_else(
    ts: Seq<Token>,
    w: Token,
    c1: Seq<Token>,
    c2: Seq<Token>,
    st: State,
    fuel: nat,
    r1: State,
    r2: State,
)
    requires
        if_else_tokens(ts, w, c1, c2),
        2 <= st.ptr < st.tape.len(),
        st.tape[st.ptr - 2] == 1,
        fuel > st.tape[st.ptr - 1] + 2,
        st.tape[st.ptr - 1] != 0 ==> exec(
            c1,
            State {
                ptr: st.ptr - 1,
                tape: st.tape.update(st.ptr - 2, 0u8).update(st.ptr - 1, 0u8),
                ..st
            },
            (fuel - 1 - st.tape[st.ptr - 1]) as nat,
        ) == Outcome::Done(r1) && r1.ptr == st.ptr - 1 && r1.tape.len() == st.tape.len()
            && r1.tape[st.ptr - 1] == 0 && r1.tape[st.ptr - 2] == 0,
        st.tape[st.ptr - 1] == 0 ==> exec(
            c2,
            State { ptr: st.ptr - 2, tape: st.tape.update(st.ptr - 2, 0u8), ..st },
            (fuel - 1) as nat,
        ) == Outcome::Done(r2) && r2.ptr == st.ptr - 2 && r2.tape.len() == st.tape.len()
            && r2.tape[st.ptr - 2] == 0,
    ensures
        exec(ts, st, fuel) == if st.tape[st.ptr - 1] != 0 {
            Outcome::Done(State { ptr: st.ptr - 2, ..r1 })
        } else {
            Outcome::Done(r2)
        },
{
    let p = st.ptr - 2;
    let c = st.tape[p + 1];
    let v1 = ts[1]->Loop_0;
    let v2 = ts[3]->Loop_0;
    let s0 = State { ptr: p + 1, ..st };
    assert(step(ts[0], st) == Ok::<State, RunError>(s0));
    let t1 = ts.drop_first();
    assert(exec(ts, st, fuel) == exec(t1, s0, fuel));
    assert(t1[0] == ts[1]);
    let t2 = t1.drop_first();
    assert(t2[0] == Token::DecPtr);
    let t3 = t2.drop_first();
    assert(t3 =~= seq![ts[3]]);
    assert(t3.drop_first() =~= Seq::<Token>::empty());
    if c != 0 {
        let g = (fuel - 1) as nat;
        let x1 = State { ptr: p, ..s0 };
        let x2 = State { tape: st.tape.update(p, 0u8), ..x1 };
        let x3 = State { ptr: p + 1, ..x2 };
        assert(v1[0] == Token::DecPtr && v1[1] == Token::DecVal && v1[2] == Token::IncPtr);
        assert(step(v1@[0], s0) == Ok::<State, RunError>(x1));
        assert(step(v1@[1], x1) == Ok::<State, RunError>(x2)) by {
            assert(st.tape.update(p, ((1 + 255) % 256) as u8) =~= st.tape.update(p, 0u8));
        }
        assert(step(v1@[2], x2) == Ok::<State, RunError>(x3));
        let u = v1@.drop_first().drop_first().drop_first();
        assert(u[0] == w);
        assert(u.drop_first() =~= c1);
        lemma_clear_then(u, x3, g);
        let sc = State { tape: x3.tape.update(p + 1, 0u8), ..x3 };
        assert(sc == State {
            ptr: p + 1,
            tape: st.tape.update(p, 0u8).update(p + 1, 0u8),
            ..st
        });
        assert(exec(u.drop_first(), sc, (g - c) as nat) == Outcome::Done(r1));
        assert(exec(u, x3, g) == Outcome::Done(r1));
        assert(exec(v1@.drop_first().drop_first(), x2, g) == Outcome::Done(r1));
        assert(exec(v1@.drop_first(), x1, g) == Outcome::Done(r1));
        assert(exec(v1@, s0, g) == Outcome::Done(r1));
        assert(exec(t1, s0, fuel) == exec(t1, r1, g));
        assert(exec(t1, r1, g) == exec(t2, r1, g));
        let y = State { ptr: p, ..r1 };
        assert(step(t2[0], r1) == Ok::<State, RunError>(y));
        assert(exec(t2, r1, g) == exec(t3, y, g));
        assert(exec(Seq::<Token>::empty(), y, g) == Outcome::Done(y));
        assert(exec(t3, y, g) == Outcome::Done(y));
    } else {
        assert(exec(t1, s0, fuel) == exec(t2, s0, fuel));
        let y = State { ptr: p, ..st };
        assert(step(t2[0], s0) == Ok::<State, RunError>(y));
        assert(exec(t2, s0, fuel) == exec(t3, y, fuel));
        let g = (fuel - 1) as nat;
        let sa = State { tape: st.tape.update(p, 0u8), ..y };
        assert(v2@[0] == Token::DecVal);
        assert(step(v2@[0], y) == Ok::<State, RunError>(sa)) by {
            assert(st.tape.update(p, ((1 + 255) % 256) as u8) =~= st.tape.update(p, 0u8));
        }
        assert(v2@.drop_first() =~= c2);
        assert(sa == State { ptr: p, tape: st.tape.update(p, 0u8), ..st });
        assert(exec(v2@, y, g) == Outcome::Done(r2));
        assert(exec(t3, y, fuel) == exec(t3, r2, g));
        assert(exec(Seq::<Token>::empty(), r2, g) == Outcome::Done(r2));
        assert(exec(t3, r2, g) == Outcome::Done(r2));
    }
}

proof fn lemma_render_len(ts: Seq<Token>)
    ensures
        render(ts).len() >= ts.len(),
    decreases ts.len(),
{
    if ts.len() > 0 {
        lemma_render_len(ts.drop_last());
        let t = ts.last();
        assert(render_one(t).len() >= 1) by {
            match t {
                Token::Loop(b) => {
                    assert(render_one(t) == seq!['['] + render(b@) + seq![']']);
                },
                _ => {},
            }
        }
    }
}

proof fn lemma_render_front(ts: Seq<Token>)
    requires
        ts.len() > 0,
    ensures
        render(ts) == render_one(ts[0]) + render(ts.drop_first()),
{
    assert(ts =~= seq![ts[0]] + ts.drop_first());
    lemma_render_concat(seq![ts[0]], ts.drop_first());
    lemma_render_single(ts[0]);
}

/// The token that an instruction character other than a bracket stands for.
pub open spec fn token_of(c: char) -> Token {
    if c == '>' {
        Token::IncPtr
    } else if c == '<' {
        Token::DecPtr
    } else if c == '+' {
        Token::IncVal
    } else if c == '-' {
        Token::DecVal
    } else if c == '.' {
        Token::PutChar
    } else if c == ',' {
        Token::GetChar
    } else {
        Token::Debug
    }
}

/// Tokens whose text starts with an instruction other than a bracket start with
/// that instruction's token.
proof fn lemma_parse_one(ts: Seq<Token>, c: char, rest: Seq<char>)
    requires
        render(ts) == seq![c] + rest,
        c == '>' || c == '<' || c == '+' || c == '-' || c == '.' || c == ',' || c == '@',
    ensures
        ts.len() > 0,
        ts[0] == token_of(c),
        render(ts.drop_first()) == rest,
{
    if ts.len() == 0 {
        assert(render(ts).len() == 0);
        assert((seq![c] + rest).len() > 0);
    }
    lemma_render_front(ts);
    let t = ts[0];
    assert(render(ts)[0] == c);
    assert(render_one(t).len() >= 1);
    assert(render_one(t)[0] == c);
    assert(t == token_of(c));
    assert(render_one(t) =~= seq![c]);
    assert(render(ts.drop_first()) =~= render(ts).subrange(1, render(ts).len() as int));
    assert(rest =~= (seq![c] + rest).subrange(1, (seq![c] + rest).len() as int));
}

proof fn lemma_parse_incs(ts: Seq<Token>, a: nat, rest: Seq<char>)
    requires
        render(ts) == rep(a as int, '+') + rest,
    ensures
        a <= ts.len(),
        ts.subrange(0, a as int) == incs(a),
        render(ts.subrange(a as int, ts.len() as int)) == rest,
    decreases a,
{
    if a == 0 {
        assert(rep(0, '+') + rest =~= rest);
        assert(ts.subrange(0, ts.len() as int) =~= ts);
        assert(ts.subrange(0, 0) =~= incs(0));
    } else {
        assert(rep(a as int, '+') + rest =~= seq!['+'] + (rep(a - 1, '+') + rest));
        lemma_parse_one(ts, '+', rep(a - 1, '+') + rest);
        lemma_parse_incs(ts.drop_first(), (a - 1) as nat, rest);
        assert(ts.subrange(0, a as int) =~= incs(a)) by {
            assert forall|j: int| 0 <= j < a implies #[trigger] ts.subrange(0, a as int)[j]
                == incs(a)[j] by {
                if j > 0 {
                    assert(ts.subrange(0, a as int)[j] == ts.drop_first().subrange(0, a - 1)[j - 1]);
                }
            }
        }
        assert(ts.drop_first().subrange(a - 1, ts.drop_first().len() as int) =~= ts.subrange(
            a as int,
            ts.len() as int,
        ));
    }
}

/// Tokens that spell the move-add (or move-subtract) text are those of
/// `lemma_move_arithmetic`.
#[verifier::spinoff_prover]
#[verifier::rlimit(60)]
proof fn lemma_parse_move(ts: Seq<Token>, up: bool)
    requires
        render(ts) == if up {
            add_code()
        } else {
            sub_code()
        },
    ensures
        ts.len() == 2,
        ts[0] == Token::DecPtr,
        move_loop(ts[1], up),
{
    let m = if up { '+' } else { '-' };
    let tail_text = seq!['[', '<', m, '>', '-', ']'];
    assert(render(ts) =~= seq!['<'] + tail_text);
    lemma_parse_one(ts, '<', tail_text);
    let t1 = ts.drop_first();
    if t1.len() == 0 {
        assert(render(t1).len() == 0);
    }
    lemma_render_front(t1);
    let l = t1[0];
    assert(render(t1)[0] == '[');
    match l {
        Token::Loop(v) => {
            let body = render(v@);
            let bl = body.len() as int;
            assert(render_one(l) =~= seq!['['] + body + seq![']']);
            assert(render(t1)[bl + 1] == ']');
            assert forall|j: int| 1 <= j < 5 implies tail_text[j] != ']' by {}
            assert(bl + 1 >= 5);
            assert(bl + 2 <= 6);
            assert(bl == 4);
            let t2 = t1.drop_first();
            assert(render(t2).len() == 0);
            lemma_render_len(t2);
            assert(t2.len() == 0);
            assert(body =~= seq!['<', m, '>', '-']);
            let v0 = v@;
            assert(render(v0) =~= seq!['<'] + seq![m, '>', '-']);
            lemma_parse_one(v0, '<', seq![m, '>', '-']);
            assert(seq![m, '>', '-'] =~= seq![m] + seq!['>', '-']);
            lemma_parse_one(v0.drop_first(), m, seq!['>', '-']);
            assert(seq!['>', '-'] =~= seq!['>'] + seq!['-']);
            lemma_parse_one(v0.drop_first().drop_first(), '>', seq!['-']);
            assert(seq!['-'] =~= seq!['-'] + Seq::<char>::empty());
            lemma_parse_one(v0.drop_first().drop_first().drop_first(), '-', Seq::<char>::empty());
            let v4 = v0.drop_first().drop_first().drop_first().drop_first();
            lemma_render_len(v4);
            assert(v4.len() == 0);
            assert(v0 =~= seq![
                Token::DecPtr,
                if up {
                    Token::IncVal
                } else {
                    Token::DecVal
                },
                Token::IncPtr,
                Token::DecVal,
            ]);
            assert(t1 =~= seq![l]);
        },
        _ => {
            assert(render_one(l)[0] != '[');
        },
    }
}

/// Arithmetic of what the compiler emits: for `a + b` or `a - b` over two number
/// literals, lowered at stack height `sp` with the cells at `sp` and `sp + 1`
/// zero, any tokens that spell the emitted text leave `(a + b) mod 256` (or
/// `(a - b) mod 256`) at `sp`, zero above it, and the pointer at `sp + 1`.
#[verifier::spinoff_prover]
#[verifier::rlimit(100)]
pub proof fn lemma_emitted_arithmetic(
    n: SyntaxNode,
    env: Seq<(String, usize)>,
    ts: Seq<Token>,
    st: State,
    fuel: nat,
)
    requires
        kind_is(n, "binary_expression"),
        has_field(n, "left"@),
        has_field(n, "operator"@),
        has_field(n, "right"@),
        child(n, "operator"@).text@ == "+"@ || child(n, "operator"@).text@ == "-"@,
        kind_is(child(n, "left"@), "number_literal"),
        kind_is(child(n, "right"@), "number_literal"),
        number_value(child(n, "left"@).text@) is Some,
        number_value(child(n, "right"@).text@) is Some,
        0 <= st.ptr,
        st.ptr + 2 < st.tape.len(),
        st.ptr + 2 <= usize::MAX,
        st.tape[st.ptr] == 0,
        st.tape[st.ptr + 1] == 0,
        fuel > 255,
        expr_code(n, env, st.ptr) is Ok,
        render(ts) == expr_code(n, env, st.ptr)->Ok_0.0,
    ensures
        exec(ts, st, fuel) == Outcome::Done(
            State {
                ptr: st.ptr + 1,
                tape: st.tape.update(
                    st.ptr,
                    (if child(n, "operator"@).text@ == "+"@ {
                        (number_value(child(n, "left"@).text@)->Some_0 + number_value(
                            child(n, "right"@).text@,
                        )->Some_0) % 256
                    } else {
                        (number_value(child(n, "left"@).text@)->Some_0 - number_value(
                            child(n, "right"@).text@,
                        )->Some_0) % 256
                    }) as u8,
                ),
                ..st
            },
        ),
{
    reveal_strlit("assignment_expression");
    reveal_strlit("binary_expression");
    reveal_strlit("number_literal");
    reveal_strlit("+");
    reveal_strlit("-");
    reveal_strlit("==");
    reveal_strlit("!=");
    assert("assignment_expression"@.len() == 21);
    assert("binary_expression"@.len() == 17);
    assert("number_literal"@.len() == 14);
    assert("+"@.len() == 1 && "-"@.len() == 1 && "=="@.len() == 2 && "!="@.len() == 2);
    let sp = st.ptr;
    let op = child(n, "operator"@).text@;
    let up = op == "+"@;
    assert(up ==> op != "-"@) by {
        reveal_strlit("+");
        reveal_strlit("-");
        assert("+"@[0] == '+');
        assert("-"@[0] == '-');
    }
    let a = number_value(child(n, "left"@).text@)->Some_0;
    let b = number_value(child(n, "right"@).text@)->Some_0;
    lemma_decimal_grows(child(n, "left"@).text@, 0);
    lemma_decimal_grows(child(n, "right"@).text@, 0);
    assert(a >= 0 && b >= 0);
    lemma_number_literal_code(child(n, "left"@), env, sp);
    lemma_number_literal_code(child(n, "right"@), env, sp + 1);
    assert(expr_code(n, env, sp) == binary_code(n, env, sp));
    let tail = if up { add_code() } else { sub_code() };
    assert(binary_prefix(op) =~= Seq::<char>::empty());
    assert(binary_tail(op) == tail);
    let text = literal_code(a) + literal_code(b) + tail;
    assert(render(ts) =~= text);
    // Read the tokens off the text.
    let rest1 = seq!['>'] + rep(b, '+') + seq!['>'] + tail;
    assert(text =~= rep(a, '+') + rest1);
    lemma_parse_incs(ts, a as nat, rest1);
    let t1 = ts.subrange(a, ts.len() as int);
    let rest2 = rep(b, '+') + seq!['>'] + tail;
    assert(rest1 =~= seq!['>'] + rest2);
    lemma_parse_one(t1, '>', rest2);
    let t2 = t1.drop_first();
    let rest3 = seq!['>'] + tail;
    assert(rest2 =~= rep(b, '+') + rest3);
    lemma_parse_incs(t2, b as nat, rest3);
    let t3 = t2.subrange(b, t2.len() as int);
    lemma_parse_one(t3, '>', tail);
    let t4 = t3.drop_first();
    lemma_parse_move(t4, up);
    assert(t4 =~= seq![Token::DecPtr, t4[1]]);
    assert(ts =~= incs(a as nat) + seq![Token::IncPtr] + incs(b as nat) + seq![Token::IncPtr] + t4) by {
        assert(ts =~= ts.subrange(0, a) + t1);
        assert(t1 =~= seq![t1[0]] + t2);
        assert(t2 =~= t2.subrange(0, b) + t3);
        assert(t3 =~= seq![t3[0]] + t4);
    }
    lemma_literal_arithmetic(ts, t4[1], a as nat, b as nat, up, st, fuel);
}

/// A number literal lowers to its increments and a step right.
proof fn lemma_number_literal_code(n: SyntaxNode, env: Seq<(String, usize)>, sp: int)
    requires
        kind_is(n, "number_literal"),
        number_value(n.text@) is Some,
        sp < usize::MAX,
    ensures
        expr_code(n, env, sp) == Ok::<(Seq<char>, int), CompileError>(
            (literal_code(number_value(n.text@)->Some_0), sp + 1),
        ),
{
    reveal_strlit("assignment_expression");
    reveal_strlit("binary_expression");
    reveal_strlit("call_expression");
    reveal_strlit("char_literal");
    reveal_strlit("false");
    reveal_strlit("true");
    reveal_strlit("identifier");
    reveal_strlit("number_literal");
    assert("assignment_expression"@.len() == 21);
    assert("binary_expression"@.len() == 17);
    assert("call_expression"@.len() == 15);
    assert("char_literal"@.len() == 12);
    assert("false"@.len() == 5);
    assert("true"@.len() == 4);
    assert("identifier"@.len() == 10);
    assert("number_literal"@.len() == 14);
}

} // verus!
