use vstd::prelude::*;
use crate::codegen::{
    add_code, assign_code, dup_code, eq_test_code, literal_code, ne_test_code, putchar_code,
    sub_code, Codegen, CompileError,
};
use crate::env::{lookup_in, Environment};
use crate::literal::{escape_value, number_value, parse_escape, parse_number};
use crate::syntax::{child, field, has_field, kind_is, same, SyntaxNode};

verus! {

/// What lowering a node yields: the instructions, and the stack height after them.
pub type Lowered = Result<(Seq<char>, int), CompileError>;

/// The lowering `l` was carried out by a call that took the compile state from
/// `before` to `after` and returned `r`.
pub open spec fn performs(
    l: Lowered,
    before: Codegen,
    after: Codegen,
    r: Result<(), CompileError>,
) -> bool {
    match l {
        Ok((code, sp)) => {
            &&& r is Ok
            &&& after.output@ == before.output@ + code
            &&& after.stack_pointer == sp
        },
        Err(e) => r == Err::<(), CompileError>(e),
    }
}

/// The character code of a `char_literal` node.
pub open spec fn char_value(n: SyntaxNode) -> Result<int, CompileError> {
    if n.children@.len() != 1 {
        Err(CompileError::InvalidLiteral)
    } else {
        let ch = n.children@[0];
        if kind_is(ch, "character") {
            if ch.text@.len() == 0 {
                Err(CompileError::InvalidLiteral)
            } else {
                Ok(ch.text@[0] as int)
            }
        } else if kind_is(ch, "escape_sequence") {
            match escape_value(ch.text@) {
                Some(v) => Ok(v),
                None => Err(CompileError::Unsupported),
            }
        } else {
            Err(CompileError::Unsupported)
        }
    }
}

/// A fresh one-cell value made by `code` on top of the stack at `sp`.
pub open spec fn pushed(code: Seq<char>, sp: int) -> Lowered {
    if sp >= usize::MAX {
        Err(CompileError::StackOverflow)
    } else {
        Ok((code, sp + 1))
    }
}

/// Instructions placed before the operands of a binary operator.
pub open spec fn binary_prefix(op: Seq<char>) -> Seq<char> {
    if op == "=="@ {
        seq!['+', '>']
    } else if op == "!="@ {
        seq!['>']
    } else {
        Seq::empty()
    }
}

/// Instructions that combine the two operand cells of a binary operator.
pub open spec fn binary_tail(op: Seq<char>) -> Seq<char> {
    if op == "+"@ {
        add_code()
    } else if op == "-"@ {
        sub_code()
    } else if op == "=="@ {
        sub_code() + eq_test_code()
    } else {
        sub_code() + ne_test_code()
    }
}

pub open spec fn comparison(op: Seq<char>) -> bool {
    op == "=="@ || op == "!="@
}

/// Lowering of the expression `n` with the bindings `env` and stack height `sp`.
pub open spec fn expr_code(n: SyntaxNode, env: Seq<(String, usize)>, sp: int) -> Lowered
    decreases n, 1int,
{
    if kind_is(n, "assignment_expression") {
        assignment_code(n, env, sp)
    } else if kind_is(n, "binary_expression") {
        binary_code(n, env, sp)
    } else if kind_is(n, "call_expression") {
        call_code(n, env, sp)
    } else if kind_is(n, "char_literal") {
        match char_value(n) {
            Err(e) => Err(e),
            Ok(v) => pushed(literal_code(v), sp),
        }
    } else if kind_is(n, "false") {
        pushed(literal_code(0), sp)
    } else if kind_is(n, "true") {
        pushed(literal_code(1), sp)
    } else if kind_is(n, "identifier") {
        match lookup_in(env, n.text@) {
            None => Err(CompileError::UnresolvedIdentifier),
            Some(loc) => pushed(dup_code(sp - loc), sp),
        }
    } else if kind_is(n, "number_literal") {
        match number_value(n.text@) {
            None => Err(CompileError::InvalidLiteral),
            Some(v) => pushed(literal_code(v), sp),
        }
    } else if kind_is(n, "parenthesized_expression") {
        paren_code(n, env, sp)
    } else {
        Err(CompileError::Unsupported)
    }
}

/// Lowering of `identifier = value`: the value is computed on top of the stack,
/// the variable's cell is zeroed, and the value is moved into it.
pub open spec fn assignment_code(n: SyntaxNode, env: Seq<(String, usize)>, sp: int) -> Lowered
    decreases n, 0int,
{
    if !has_field(n, "left"@) || !has_field(n, "right"@) || !has_field(n, "operator"@) {
        Err(CompileError::MissingField)
    } else if !kind_is(child(n, "left"@), "identifier") {
        Err(CompileError::Unsupported)
    } else if child(n, "operator"@).text@ != "="@ {
        Err(CompileError::UnsupportedOperator)
    } else {
        match expr_code(child(n, "right"@), env, sp) {
            Err(e) => Err(e),
            Ok((c, s)) => if s != sp + 1 {
                Err(CompileError::Unsupported)
            } else {
                match lookup_in(env, child(n, "left"@).text@) {
                    None => Err(CompileError::UnresolvedIdentifier),
                    Some(loc) => Ok((c + assign_code(sp - loc), sp)),
                }
            },
        }
    }
}

/// Lowering of `left op right`: both operands as fresh cells (above a flag cell
/// for a comparison), then combined into one.
pub open spec fn binary_code(n: SyntaxNode, env: Seq<(String, usize)>, sp: int) -> Lowered
    decreases n, 0int,
{
    if !has_field(n, "left"@) || !has_field(n, "operator"@) || !has_field(n, "right"@) {
        Err(CompileError::MissingField)
    } else {
        let op = child(n, "operator"@).text@;
        if op != "+"@ && op != "-"@ && !comparison(op) {
            Err(CompileError::UnsupportedOperator)
        } else if comparison(op) && sp >= usize::MAX {
            Err(CompileError::StackOverflow)
        } else {
            let base = if comparison(op) {
                sp + 1
            } else {
                sp
            };
            match expr_code(child(n, "left"@), env, base) {
                Err(e) => Err(e),
                Ok((cl, s1)) => if s1 != base + 1 {
                    Err(CompileError::Unsupported)
                } else {
                    match expr_code(child(n, "right"@), env, base + 1) {
                        Err(e) => Err(e),
                        Ok((cr, s2)) => if s2 != base + 2 {
                            Err(CompileError::Unsupported)
                        } else {
                            Ok((binary_prefix(op) + cl + cr + binary_tail(op), sp + 1))
                        },
                    }
                },
            }
        }
    }
}

/// Lowering of `putchar(value)`: the value is computed, output and cleared.
pub open spec fn call_code(n: SyntaxNode, env: Seq<(String, usize)>, sp: int) -> Lowered
    decreases n, 0int,
{
    if !has_field(n, "function"@) || !has_field(n, "arguments"@) {
        Err(CompileError::MissingField)
    } else if child(n, "arguments"@).children@.len() != 1 {
        Err(CompileError::Unsupported)
    } else {
        match expr_code(child(n, "arguments"@).children@[0], env, sp) {
            Err(e) => Err(e),
            Ok((c, s)) => if s != sp + 1 {
                Err(CompileError::Unsupported)
            } else if child(n, "function"@).text@ != "putchar"@ {
                Err(CompileError::Unsupported)
            } else {
                Ok((c + putchar_code(), sp))
            },
        }
    }
}

/// Lowering of a `parenthesized_expression` node: its inner expression.
pub open spec fn paren_code(n: SyntaxNode, env: Seq<(String, usize)>, sp: int) -> Lowered
    decreases n, 0int,
{
    if n.children@.len() == 0 {
        Err(CompileError::MissingField)
    } else {
        expr_code(n.children@[0], env, sp)
    }
}

/// An expression leaves at most one new cell and never shrinks the stack.
pub proof fn lemma_expr_grows(n: SyntaxNode, env: Seq<(String, usize)>, sp: int)
    ensures
        expr_code(n, env, sp) matches Ok((_c, s)) ==> sp <= s <= sp + 1,
    decreases n,
{
    if kind_is(n, "parenthesized_expression") && n.children@.len() > 0 {
        lemma_expr_grows(n.children@[0], env, sp);
    }
}

/// `s` is one above `base`.
fn one_above(s: usize, base: usize) -> (r: bool)
    ensures
        r == (s as int == base as int + 1),
{
    s > base && s - base == 1
}

impl Codegen {
    /// Lowers an expression: on success the emitted instructions and the new
    /// stack height are exactly those of `expr_code`, and so is the error otherwise.
    pub fn expression(&mut self, node: &SyntaxNode, env: &Environment) -> (r: Result<
        (),
        CompileError,
    >)
        requires
            env.wf(old(self).stack_pointer as int),
        ensures
            performs(
                expr_code(*node, env.variables@, old(self).stack_pointer as int),
                *old(self),
                *final(self),
                r,
            ),
        decreases node, 1int,
    {
        let sp = self.stack_pointer;
        if same(&node.kind, "assignment_expression") {
            self.assignment(node, env)
        } else if same(&node.kind, "binary_expression") {
            self.binary(node, env)
        } else if same(&node.kind, "call_expression") {
            self.call(node, env)
        } else if same(&node.kind, "char_literal") {
            if node.children.len() != 1 {
                return Err(CompileError::InvalidLiteral);
            }
            let ch = &node.children[0];
            let value: usize = if same(&ch.kind, "character") {
                let t = ch.text.as_str();
                if t.unicode_len() == 0 {
                    return Err(CompileError::InvalidLiteral);
                }
                t.get_char(0) as u32 as usize
            } else if same(&ch.kind, "escape_sequence") {
                match parse_escape(&ch.text) {
                    Some(v) => v,
                    None => {
                        return Err(CompileError::Unsupported);
                    },
                }
            } else {
                return Err(CompileError::Unsupported);
            };
            self.push_value(value)
        } else if same(&node.kind, "false") {
            self.push_value(0)
        } else if same(&node.kind, "true") {
            self.push_value(1)
        } else if same(&node.kind, "identifier") {
            proof {
                env.lemma_lookup_below(node.text@, sp as int);
            }
            match env.lookup(&node.text) {
                None => Err(CompileError::UnresolvedIdentifier),
                Some(location) => {
                    if sp == usize::MAX {
                        return Err(CompileError::StackOverflow);
                    }
                    self.emit_dup(sp - location);
                    self.stack_pointer = sp + 1;
                    Ok(())
                },
            }
        } else if same(&node.kind, "number_literal") {
            match parse_number(&node.text) {
                None => Err(CompileError::InvalidLiteral),
                Some(v) => self.push_value(v),
            }
        } else if same(&node.kind, "parenthesized_expression") {
            self.parenthesized_expression(node, env)
        } else {
            Err(CompileError::Unsupported)
        }
    }

    /// Lowers an assignment expression.
    fn assignment(&mut self, node: &SyntaxNode, env: &Environment) -> (r: Result<(), CompileError>)
        requires
            env.wf(old(self).stack_pointer as int),
        ensures
            performs(
                assignment_code(*node, env.variables@, old(self).stack_pointer as int),
                *old(self),
                *final(self),
                r,
            ),
        decreases node, 0int,
    {
        let sp = self.stack_pointer;
        let left = field(node, "left");
        let right = field(node, "right");
        let operator = field(node, "operator");
        if left.is_none() || right.is_none() || operator.is_none() {
            return Err(CompileError::MissingField);
        }
        let left = left.unwrap();
        let right = right.unwrap();
        let operator = operator.unwrap();
        if !same(&left.kind, "identifier") {
            return Err(CompileError::Unsupported);
        }
        if !same(&operator.text, "=") {
            return Err(CompileError::UnsupportedOperator);
        }
        match self.expression(right, env) {
            Ok(()) => {},
            Err(e) => {
                return Err(e);
            },
        }
        if !one_above(self.stack_pointer, sp) {
            return Err(CompileError::Unsupported);
        }
        self.stack_pointer = sp;
        proof {
            env.lemma_lookup_below(left.text@, sp as int);
        }
        match env.lookup(&left.text) {
            None => Err(CompileError::UnresolvedIdentifier),
            Some(location) => {
                self.emit_assign(sp - location);
                assert(self.output@ =~= old(self).output@ + assignment_code(
                    *node,
                    env.variables@,
                    sp as int,
                ).unwrap().0);
                Ok(())
            },
        }
    }

    /// Lowers a binary expression.
    fn binary(&mut self, node: &SyntaxNode, env: &Environment) -> (r: Result<(), CompileError>)
        requires
            env.wf(old(self).stack_pointer as int),
        ensures
            performs(
                binary_code(*node, env.variables@, old(self).stack_pointer as int),
                *old(self),
                *final(self),
                r,
            ),
        decreases node, 0int,
    {
        let sp = self.stack_pointer;
        let left = field(node, "left");
        let operator = field(node, "operator");
        let right = field(node, "right");
        if left.is_none() || operator.is_none() || right.is_none() {
            return Err(CompileError::MissingField);
        }
        let left = left.unwrap();
        let right = right.unwrap();
        let op = &operator.unwrap().text;
        proof {
            reveal_strlit("+");
            reveal_strlit("-");
            reveal_strlit("==");
            reveal_strlit("!=");
        }
        let kind: u8 = if same(op, "+") {
            0
        } else if same(op, "-") {
            1
        } else if same(op, "==") {
            2
        } else if same(op, "!=") {
            3
        } else {
            return Err(CompileError::UnsupportedOperator);
        };
        if kind >= 2 {
            if sp == usize::MAX {
                return Err(CompileError::StackOverflow);
            }
            if kind == 2 {
                self.push('+');
            }
            self.push('>');
            self.stack_pointer = sp + 1;
            proof {
                env.lemma_wf_grow(sp as int, sp + 1);
            }
            assert(self.output@ =~= old(self).output@ + binary_prefix(op@));
        } else {
            assert(op@.len() == 1);
            assert(op@ != "=="@ && op@ != "!="@);
            assert(self.output@ =~= old(self).output@ + binary_prefix(op@));
        }
        let base = self.stack_pointer;
        let ghost mid = self.output@;
        match self.expression(left, env) {
            Ok(()) => {},
            Err(e) => {
                return Err(e);
            },
        }
        if !one_above(self.stack_pointer, base) {
            return Err(CompileError::Unsupported);
        }
        proof {
            env.lemma_wf_grow(base as int, base + 1);
        }
        match self.expression(right, env) {
            Ok(()) => {},
            Err(e) => {
                return Err(e);
            },
        }
        if !one_above(self.stack_pointer, base + 1) {
            return Err(CompileError::Unsupported);
        }
        let ghost before_tail = self.output@;
        if kind == 0 {
            self.emit_add();
        } else if kind == 1 {
            self.emit_sub();
        } else if kind == 2 {
            self.emit_sub();
            self.emit_eq_test();
        } else {
            self.emit_sub();
            self.emit_ne_test();
        }
        assert(self.output@ =~= before_tail + binary_tail(op@));
        self.stack_pointer = sp + 1;
        assert(self.output@ =~= old(self).output@ + binary_code(
            *node,
            env.variables@,
            sp as int,
        ).unwrap().0);
        Ok(())
    }

    /// Lowers a call expression.
    fn call(&mut self, node: &SyntaxNode, env: &Environment) -> (r: Result<(), CompileError>)
        requires
            env.wf(old(self).stack_pointer as int),
        ensures
            performs(
                call_code(*node, env.variables@, old(self).stack_pointer as int),
                *old(self),
                *final(self),
                r,
            ),
        decreases node, 0int,
    {
        let sp = self.stack_pointer;
        let function = field(node, "function");
        let arguments = field(node, "arguments");
        if function.is_none() || arguments.is_none() {
            return Err(CompileError::MissingField);
        }
        let function = function.unwrap();
        let arguments = arguments.unwrap();
        if arguments.children.len() != 1 {
            return Err(CompileError::Unsupported);
        }
        match self.expression(&arguments.children[0], env) {
            Ok(()) => {},
            Err(e) => {
                return Err(e);
            },
        }
        if !one_above(self.stack_pointer, sp) {
            return Err(CompileError::Unsupported);
        }
        if !same(&function.text, "putchar") {
            return Err(CompileError::Unsupported);
        }
        self.emit_putchar();
        self.stack_pointer = sp;
        assert(self.output@ =~= old(self).output@ + call_code(
            *node,
            env.variables@,
            sp as int,
        ).unwrap().0);
        Ok(())
    }

    /// Pushes a literal of value `v` as a fresh cell.
    fn push_value(&mut self, v: usize) -> (r: Result<(), CompileError>)
        ensures
            performs(
                pushed(literal_code(v as int), old(self).stack_pointer as int),
                *old(self),
                *final(self),
                r,
            ),
    {
        if self.stack_pointer == usize::MAX {
            return Err(CompileError::StackOverflow);
        }
        self.emit_literal(v);
        self.stack_pointer = self.stack_pointer + 1;
        Ok(())
    }

    /// Lowers the expression inside a pair of parentheses.
    pub fn parenthesized_expression(&mut self, node: &SyntaxNode, env: &Environment) -> (r: Result<
        (),
        CompileError,
    >)
        requires
            env.wf(old(self).stack_pointer as int),
        ensures
            performs(
                paren_code(*node, env.variables@, old(self).stack_pointer as int),
                *old(self),
                *final(self),
                r,
            ),
        decreases node, 0int,
    {
        if node.children.len() == 0 {
            return Err(CompileError::MissingField);
        }
        self.expression(&node.children[0], env)
    }
}

} // verus!
