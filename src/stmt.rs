use vstd::prelude::*;
use crate::codegen::{clear_code, rep, store_code, Codegen, CompileError};
use crate::env::{lookup_in, Environment};
use crate::expr::{expr_code, lemma_expr_grows, paren_code, performs, Lowered};
use crate::syntax::{
    child, expression_kind, field, has_field, is_expression, is_statement, kind_is, same,
    statement_kind, SyntaxNode,
};

verus! {

/// The supported types, each one cell wide.
pub open spec fn one_cell_type(t: Seq<char>) -> bool {
    t == "char"@ || t == "bool"@
}

/// The name that a `declaration` node declares.
pub open spec fn decl_name(d: SyntaxNode) -> Result<String, CompileError> {
    if !has_field(d, "declarator"@) || !has_field(d, "type"@) {
        Err(CompileError::MissingField)
    } else if !has_field(child(d, "declarator"@), "declarator"@) {
        Err(CompileError::MissingField)
    } else if !one_cell_type(child(d, "type"@).text@) {
        Err(CompileError::UnsupportedType)
    } else {
        Ok(child(child(d, "declarator"@), "declarator"@).text)
    }
}

/// Reserving the cell of a `declaration` node at stack height `sp`: the bindings and
/// stack height afterwards. One step right is emitted.
pub open spec fn reserve(d: SyntaxNode, vars: Seq<(String, usize)>, sp: int) -> Result<
    (Seq<(String, usize)>, int),
    CompileError,
> {
    if !kind_is(d, "declaration") {
        Err(CompileError::Unsupported)
    } else {
        match decl_name(d) {
            Err(e) => Err(e),
            Ok(name) => if sp >= usize::MAX {
                Err(CompileError::StackOverflow)
            } else {
                Ok((vars.push((name, sp as usize)), sp + 1))
            },
        }
    }
}

/// Reserving, in order, the declarations among the first `i` children of a block.
pub open spec fn reserved(n: SyntaxNode, i: int, vars: Seq<(String, usize)>, sp: int) -> Result<
    (Seq<(String, usize)>, int),
    CompileError,
>
    decreases i,
{
    if i <= 0 {
        Ok((vars, sp))
    } else {
        match reserved(n, i - 1, vars, sp) {
            Err(e) => Err(e),
            Ok((vs, s)) => if i - 1 < n.children@.len() && kind_is(
                n.children@[i - 1],
                "declaration",
            ) {
                reserve(n.children@[i - 1], vs, s)
            } else {
                Ok((vs, s))
            },
        }
    }
}

/// Lowering of a declaration whose cell is already reserved: the initializer is
/// computed and moved into the variable's cell.
pub open spec fn decl_code(d: SyntaxNode, env: Seq<(String, usize)>, sp: int) -> Lowered {
    if !has_field(d, "declarator"@) || !has_field(d, "type"@) {
        Err(CompileError::MissingField)
    } else if !one_cell_type(child(d, "type"@).text@) {
        Err(CompileError::UnsupportedType)
    } else if !has_field(child(d, "declarator"@), "value"@) || !has_field(
        child(d, "declarator"@),
        "declarator"@,
    ) {
        Err(CompileError::MissingField)
    } else {
        match expr_code(child(child(d, "declarator"@), "value"@), env, sp) {
            Err(e) => Err(e),
            Ok((c, s)) => if s != sp + 1 {
                Err(CompileError::Unsupported)
            } else {
                match lookup_in(env, child(child(d, "declarator"@), "declarator"@).text@) {
                    None => Err(CompileError::UnresolvedIdentifier),
                    Some(loc) => Ok((c + store_code(sp - loc), sp)),
                }
            },
        }
    }
}

/// Lowering of a statement.
pub open spec fn stmt_code(n: SyntaxNode, env: Seq<(String, usize)>, sp: int) -> Lowered
    decreases n, 2int, 0int,
{
    if kind_is(n, "compound_statement") {
        block_code(n, env, sp)
    } else if kind_is(n, "expression_statement") {
        if n.children@.len() == 0 || !expression_kind(n.children@[0].kind@) {
            Err(CompileError::Unsupported)
        } else {
            expr_code(n.children@[0], env, sp)
        }
    } else if kind_is(n, "for_statement") {
        for_code(n, env, sp)
    } else if kind_is(n, "if_statement") {
        if_code(n, env, sp)
    } else if kind_is(n, "while_statement") {
        while_code(n, env, sp)
    } else {
        Err(CompileError::Unsupported)
    }
}

/// Lowering of one child of a block: a declaration or a statement.
pub open spec fn item_code(d: SyntaxNode, env: Seq<(String, usize)>, sp: int) -> Lowered
    decreases d, 3int, 0int,
{
    if kind_is(d, "declaration") {
        decl_code(d, env, sp)
    } else if statement_kind(d.kind@) {
        stmt_code(d, env, sp)
    } else {
        Err(CompileError::Unsupported)
    }
}

/// Lowering of the first `i` children of a block, from stack height `sp`.
pub open spec fn items(n: SyntaxNode, i: int, env: Seq<(String, usize)>, sp: int) -> Lowered
    decreases n, 0int, i,
{
    if i <= 0 || i > n.children@.len() {
        Ok((Seq::empty(), sp))
    } else {
        match items(n, i - 1, env, sp) {
            Err(e) => Err(e),
            Ok((c, s)) => match item_code(n.children@[i - 1], env, s) {
                Err(e) => Err(e),
                Ok((c2, s2)) => Ok((c + c2, s2)),
            },
        }
    }
}

/// Lowering of a block: its declarations are reserved first, in source order,
/// then its children are lowered in order, and at the end every cell that the
/// block took is zeroed and the stack returns to its height at entry.
pub open spec fn block_code(n: SyntaxNode, env: Seq<(String, usize)>, sp: int) -> Lowered
    decreases n, 1int, 0int,
{
    match reserved(n, n.children@.len() as int, env, sp) {
        Err(e) => Err(e),
        Ok((vs, s)) => match items(n, n.children@.len() as int, vs, s) {
            Err(e) => Err(e),
            Ok((c, s2)) => Ok((rep(s - sp, '>') + c + clear_code(s2 - sp), sp)),
        },
    }
}

/// Opening of a loop whose condition was just computed: step onto it, enter
/// while it is nonzero, and clear it.
pub open spec fn loop_open() -> Seq<char> {
    seq!['<', '[', '[', '-', ']']
}

/// Lowering of `for (declaration; condition; update) body`: the declared variable
/// gets a cell and its initial value in a scope of its own around the loop.
pub open spec fn for_code(n: SyntaxNode, env: Seq<(String, usize)>, sp: int) -> Lowered
    decreases n, 0int, 0int,
{
    if !has_field(n, "body"@) {
        Err(CompileError::MissingField)
    } else if !has_field(n, "initializer"@) || !has_field(n, "condition"@) || !has_field(
        n,
        "update"@,
    ) {
        Err(CompileError::Unsupported)
    } else if !kind_is(child(n, "initializer"@), "declaration") || !expression_kind(
        child(n, "condition"@).kind@,
    ) || !expression_kind(child(n, "update"@).kind@) {
        Err(CompileError::Unsupported)
    } else {
        match reserve(child(n, "initializer"@), env, sp) {
            Err(e) => Err(e),
            Ok((inner, s1)) => match decl_code(child(n, "initializer"@), inner, s1) {
                Err(e) => Err(e),
                Ok((ci, _si)) => match expr_code(child(n, "condition"@), inner, s1) {
                    Err(e) => Err(e),
                    Ok((cc, s)) => if s != s1 + 1 {
                        Err(CompileError::Unsupported)
                    } else {
                        match stmt_code(child(n, "body"@), inner, s1) {
                            Err(e) => Err(e),
                            Ok((cb, sb)) => if sb != s1 {
                                Err(CompileError::UnbalancedBody)
                            } else {
                                match expr_code(child(n, "update"@), inner, s1) {
                                    Err(e) => Err(e),
                                    Ok((cu, su)) => if su != s1 {
                                        Err(CompileError::UnbalancedBody)
                                    } else {
                                        Ok(
                                            (
                                                seq!['>'] + ci + cc + loop_open() + cb + cu + cc
                                                    + seq!['<', ']'] + clear_code(1),
                                                sp,
                                            ),
                                        )
                                    },
                                }
                            },
                        }
                    },
                },
            },
        }
    }
}

/// Lowering of `if (condition) consequence`, with or without `else alternative`.
pub open spec fn if_code(n: SyntaxNode, env: Seq<(String, usize)>, sp: int) -> Lowered
    decreases n, 0int, 0int,
{
    if !has_field(n, "condition"@) || !has_field(n, "consequence"@) {
        Err(CompileError::MissingField)
    } else if has_field(n, "alternative"@) {
        if sp >= usize::MAX {
            Err(CompileError::StackOverflow)
        } else {
            match paren_code(child(n, "condition"@), env, sp + 1) {
                Err(e) => Err(e),
                Ok((cc, s)) => if s != sp + 2 {
                    Err(CompileError::Unsupported)
                } else {
                    match stmt_code(child(n, "consequence"@), env, sp + 1) {
                        Err(e) => Err(e),
                        Ok((c1, s1)) => if s1 != sp + 1 {
                            Err(CompileError::UnbalancedBody)
                        } else if child(n, "alternative"@).children@.len() == 0 {
                            Err(CompileError::MissingField)
                        } else {
                            match stmt_code(child(n, "alternative"@).children@[0], env, sp) {
                                Err(e) => Err(e),
                                Ok((c2, s2)) => if s2 != sp {
                                    Err(CompileError::UnbalancedBody)
                                } else {
                                    Ok(
                                        (
                                            seq!['+', '>'] + cc + seq!['<', '[', '<', '-', '>']
                                                + seq!['[', '-', ']'] + c1 + seq![']', '<', '[', '-']
                                                + c2 + seq![']'],
                                            sp,
                                        ),
                                    )
                                },
                            }
                        },
                    }
                },
            }
        }
    } else {
        match paren_code(child(n, "condition"@), env, sp) {
            Err(e) => Err(e),
            Ok((cc, s)) => if s != sp + 1 {
                Err(CompileError::Unsupported)
            } else {
                match stmt_code(child(n, "consequence"@), env, sp) {
                    Err(e) => Err(e),
                    Ok((c1, s1)) => if s1 != sp {
                        Err(CompileError::UnbalancedBody)
                    } else {
                        Ok((cc + loop_open() + c1 + seq![']'], sp))
                    },
                }
            },
        }
    }
}

/// Lowering of `while (condition) body`.
pub open spec fn while_code(n: SyntaxNode, env: Seq<(String, usize)>, sp: int) -> Lowered
    decreases n, 0int, 0int,
{
    if !has_field(n, "body"@) || !has_field(n, "condition"@) {
        Err(CompileError::MissingField)
    } else {
        match paren_code(child(n, "condition"@), env, sp) {
            Err(e) => Err(e),
            Ok((cc, s)) => if s != sp + 1 {
                Err(CompileError::Unsupported)
            } else {
                match stmt_code(child(n, "body"@), env, sp) {
                    Err(e) => Err(e),
                    Ok((cb, sb)) => if sb != sp {
                        Err(CompileError::UnbalancedBody)
                    } else {
                        Ok((cc + loop_open() + cb + cc + seq!['<', ']'], sp))
                    },
                }
            },
        }
    }
}

/// The name that `d` declares is bound in the innermost scope, whose bindings
/// start at index `start`.
pub open spec fn reserved_here(d: SyntaxNode, vars: Seq<(String, usize)>, start: int) -> bool {
    decl_name(d) matches Ok(name) ==> exists|k: int|
        start <= k < vars.len() && (#[trigger] vars[k]).0@ == name@
}

proof fn lemma_reserved_binds(n: SyntaxNode, i: int, vars: Seq<(String, usize)>, sp: int)
    requires
        0 <= i <= n.children@.len(),
        reserved(n, i, vars, sp) is Ok,
    ensures
        reserved(n, i, vars, sp)->Ok_0.0.len() >= vars.len(),
        reserved(n, i, vars, sp)->Ok_0.0.subrange(0, vars.len() as int) == vars,
        forall|j: int|
            0 <= j < i && kind_is(#[trigger] n.children@[j], "declaration") ==> reserved_here(
                n.children@[j],
                reserved(n, i, vars, sp)->Ok_0.0,
                vars.len() as int,
            ),
    decreases i,
{
    if i == 0 {
        assert(vars.subrange(0, vars.len() as int) =~= vars);
    } else {
        lemma_reserved_binds(n, i - 1, vars, sp);
        let (vs0, s0) = reserved(n, i - 1, vars, sp)->Ok_0;
        let vs = reserved(n, i, vars, sp)->Ok_0.0;
        let d = n.children@[i - 1];
        if kind_is(d, "declaration") {
            assert(vs == vs0.push((decl_name(d)->Ok_0, s0 as usize)));
            assert(vs.subrange(0, vars.len() as int) =~= vs0.subrange(0, vars.len() as int));
            assert forall|j: int|
                0 <= j < i && kind_is(#[trigger] n.children@[j], "declaration") implies reserved_here(
                n.children@[j],
                vs,
                vars.len() as int,
            ) by {
                if j == i - 1 {
                    assert(vs[vs0.len() as int].0@ == decl_name(d)->Ok_0@);
                } else {
                    assert(reserved_here(n.children@[j], vs0, vars.len() as int));
                    if decl_name(n.children@[j]) is Ok {
                        let name = decl_name(n.children@[j])->Ok_0;
                        let k = choose|k: int|
                            vars.len() <= k < vs0.len() && (#[trigger] vs0[k]).0@ == name@;
                        assert(vs[k] == vs0[k]);
                    }
                }
            }
        } else {
            assert(vs == vs0);
        }
    }
}

/// A statement leaves the stack at or above its height at entry.
pub proof fn lemma_stmt_grows(n: SyntaxNode, env: Seq<(String, usize)>, sp: int)
    ensures
        stmt_code(n, env, sp) matches Ok((_c, s)) ==> sp <= s,
{
    if kind_is(n, "expression_statement") && n.children@.len() > 0 {
        lemma_expr_grows(n.children@[0], env, sp);
    }
}

proof fn lemma_items_err(n: SyntaxNode, i: int, j: int, env: Seq<(String, usize)>, sp: int)
    requires
        0 < i <= j <= n.children@.len(),
        items(n, i, env, sp) is Err,
    ensures
        items(n, j, env, sp) == items(n, i, env, sp),
    decreases j - i,
{
    if j > i {
        lemma_items_err(n, i, j - 1, env, sp);
    }
}

proof fn lemma_items_step(n: SyntaxNode, i: int, env: Seq<(String, usize)>, sp: int)
    requires
        0 <= i < n.children@.len(),
    ensures
        items(n, i + 1, env, sp) == match items(n, i, env, sp) {
            Err(e) => Err(e),
            Ok((c, s)) => match item_code(n.children@[i], env, s) {
                Err(e) => Err(e),
                Ok((c2, s2)) => Ok((c + c2, s2)),
            },
        },
{
}

proof fn lemma_reserved_err(n: SyntaxNode, i: int, j: int, vars: Seq<(String, usize)>, sp: int)
    requires
        0 < i <= j,
        reserved(n, i, vars, sp) is Err,
    ensures
        reserved(n, j, vars, sp) == reserved(n, i, vars, sp),
    decreases j - i,
{
    if j > i {
        lemma_reserved_err(n, i, j - 1, vars, sp);
    }
}

/// On success the scopes are as they were before.
pub open spec fn restores(before: Environment, after: Environment, r: Result<(), CompileError>) -> bool {
    r is Ok ==> after.variables@ == before.variables@ && after.scopes@ == before.scopes@
}

impl Environment {
    /// Reserves the one cell of a declaration at the stack top and binds its name there.
    pub fn reserve_space(&mut self, declaration: &SyntaxNode, codegen: &mut Codegen) -> (r: Result<
        (),
        CompileError,
    >)
        requires
            old(self).wf(old(codegen).stack_pointer as int),
        ensures
            match reserve(*declaration, old(self).variables@, old(codegen).stack_pointer as int) {
                Ok((vs, s)) => {
                    &&& r is Ok
                    &&& final(self).variables@ == vs
                    &&& final(self).scopes@ == old(self).scopes@
                    &&& final(codegen).output@ == old(codegen).output@.push('>')
                    &&& final(codegen).stack_pointer == s
                    &&& final(self).wf(s)
                },
                Err(e) => r == Err::<(), CompileError>(e),
            },
            r is Err ==> *final(self) == *old(self) && *final(codegen) == *old(codegen),
    {
        if !same(&declaration.kind, "declaration") {
            return Err(CompileError::Unsupported);
        }
        let declarator = field(declaration, "declarator");
        let ty = field(declaration, "type");
        if declarator.is_none() || ty.is_none() {
            return Err(CompileError::MissingField);
        }
        let name = field(declarator.unwrap(), "declarator");
        if name.is_none() {
            return Err(CompileError::MissingField);
        }
        let ty = ty.unwrap();
        if !same(&ty.text, "char") && !same(&ty.text, "bool") {
            return Err(CompileError::UnsupportedType);
        }
        let sp = codegen.stack_pointer;
        if sp == usize::MAX {
            return Err(CompileError::StackOverflow);
        }
        self.bind(&name.unwrap().text, sp);
        codegen.push('>');
        codegen.stack_pointer = sp + 1;
        Ok(())
    }
}

impl Codegen {
    /// Lowers a declaration whose cell is already reserved.
    pub fn declaration(&mut self, node: &SyntaxNode, env: &Environment) -> (r: Result<
        (),
        CompileError,
    >)
        requires
            env.wf(old(self).stack_pointer as int),
            env.scopes@.len() > 0,
            reserved_here(*node, env.variables@, env.scopes@.last().1 as int),
        ensures
            performs(
                decl_code(*node, env.variables@, old(self).stack_pointer as int),
                *old(self),
                *final(self),
                r,
            ),
    {
        let sp = self.stack_pointer;
        let declarator = field(node, "declarator");
        let ty = field(node, "type");
        if declarator.is_none() || ty.is_none() {
            return Err(CompileError::MissingField);
        }
        let ty = ty.unwrap();
        if !same(&ty.text, "char") && !same(&ty.text, "bool") {
            return Err(CompileError::UnsupportedType);
        }
        let declarator = declarator.unwrap();
        let value = field(declarator, "value");
        let name = field(declarator, "declarator");
        if value.is_none() || name.is_none() {
            return Err(CompileError::MissingField);
        }
        let name = name.unwrap();
        match self.expression(value.unwrap(), env) {
            Ok(()) => {},
            Err(e) => {
                return Err(e);
            },
        }
        if !(self.stack_pointer > sp && self.stack_pointer - sp == 1) {
            return Err(CompileError::Unsupported);
        }
        self.stack_pointer = sp;
        proof {
            env.lemma_lookup_below(name.text@, sp as int);
        }
        match env.lookup(&name.text) {
            None => Err(CompileError::UnresolvedIdentifier),
            Some(location) => {
                self.emit_store(sp - location);
                assert(self.output@ =~= old(self).output@ + decl_code(
                    *node,
                    env.variables@,
                    sp as int,
                ).unwrap().0);
                Ok(())
            },
        }
    }

    /// Lowers a statement.
    pub fn statement(&mut self, node: &SyntaxNode, env: &mut Environment) -> (r: Result<
        (),
        CompileError,
    >)
        requires
            old(env).wf(old(self).stack_pointer as int),
        ensures
            performs(
                stmt_code(*node, old(env).variables@, old(self).stack_pointer as int),
                *old(self),
                *final(self),
                r,
            ),
            restores(*old(env), *final(env), r),
        decreases node, 2int,
    {
        if same(&node.kind, "compound_statement") {
            self.compound_statement(node, env)
        } else if same(&node.kind, "expression_statement") {
            if node.children.len() == 0 || !is_expression(&node.children[0].kind) {
                return Err(CompileError::Unsupported);
            }
            self.expression(&node.children[0], env)
        } else if same(&node.kind, "for_statement") {
            self.for_statement(node, env)
        } else if same(&node.kind, "if_statement") {
            self.if_statement(node, env)
        } else if same(&node.kind, "while_statement") {
            self.while_statement(node, env)
        } else {
            Err(CompileError::Unsupported)
        }
    }

    /// Lowers one child of a block.
    fn item(&mut self, d: &SyntaxNode, env: &mut Environment) -> (r: Result<(), CompileError>)
        requires
            old(env).wf(old(self).stack_pointer as int),
            kind_is(*d, "declaration") ==> old(env).scopes@.len() > 0 && reserved_here(
                *d,
                old(env).variables@,
                old(env).scopes@.last().1 as int,
            ),
        ensures
            performs(
                item_code(*d, old(env).variables@, old(self).stack_pointer as int),
                *old(self),
                *final(self),
                r,
            ),
            restores(*old(env), *final(env), r),
            r is Ok ==> final(self).stack_pointer >= old(self).stack_pointer,
        decreases d, 3int,
    {
        if same(&d.kind, "declaration") {
            self.declaration(d, env)
        } else if is_statement(&d.kind) {
            proof {
                lemma_stmt_grows(*d, env.variables@, self.stack_pointer as int);
            }
            self.statement(d, env)
        } else {
            Err(CompileError::Unsupported)
        }
    }

    /// Lowers a block in a scope of its own.
    #[verifier::rlimit(80)]
    #[verifier::spinoff_prover]
    pub fn compound_statement(&mut self, node: &SyntaxNode, env: &mut Environment) -> (r: Result<
        (),
        CompileError,
    >)
        requires
            old(env).wf(old(self).stack_pointer as int),
        ensures
            performs(
                block_code(*node, old(env).variables@, old(self).stack_pointer as int),
                *old(self),
                *final(self),
                r,
            ),
            restores(*old(env), *final(env), r),
        decreases node, 1int,
    {
        let base = self.stack_pointer;
        let ghost vars0 = env.variables@;
        let n0 = env.variables.len();
        let ghost scopes1 = env.scopes@.push((base, n0));
        let n = node.children.len();
        env.enter(base);
        let mut i: usize = 0;
        while i < n
            invariant
                n == node.children@.len(),
                i <= n,
                reserved(*node, i as int, vars0, base as int) == Ok::<
                    (Seq<(String, usize)>, int),
                    CompileError,
                >((env.variables@, self.stack_pointer as int)),
                self.stack_pointer >= base,
                self.output@ == old(self).output@ + rep(self.stack_pointer - base, '>'),
                env.scopes@ == scopes1,
                env.variables@.subrange(0, vars0.len() as int) == vars0,
                vars0.len() <= env.variables@.len(),
                env.wf(self.stack_pointer as int),
                old(env).variables@ == vars0,
                old(self).stack_pointer == base,
                scopes1 == old(env).scopes@.push((base, n0)),
                n0 == vars0.len(),
            decreases n - i,
        {
            let d = &node.children[i];
            if same(&d.kind, "declaration") {
                let ghost pre = env.variables@;
                match env.reserve_space(d, self) {
                    Ok(()) => {},
                    Err(e) => {
                        proof {
                            assert(*d == node.children@[i as int]);
                            assert(reserved(*node, i + 1, vars0, base as int) == Err::<
                                (Seq<(String, usize)>, int),
                                CompileError,
                            >(e));
                            lemma_reserved_err(*node, i + 1, n as int, vars0, base as int);
                            assert(block_code(*node, vars0, base as int) == Err::<
                                (Seq<char>, int),
                                CompileError,
                            >(e));

                        }
                        return Err(e);
                    },
                }
                assert(env.variables@.subrange(0, vars0.len() as int) =~= pre.subrange(
                    0,
                    vars0.len() as int,
                ));
                assert(self.output@ =~= old(self).output@ + rep(self.stack_pointer - base, '>'));
            }
            i += 1;
        }
        let ghost vs = env.variables@;
        proof {
            lemma_reserved_binds(*node, n as int, vars0, base as int);
        }
        let start = self.stack_pointer;
        let ghost out1 = self.output@;
        let mut i: usize = 0;
        let ghost mut acc: Seq<char> = Seq::empty();
        while i < n
            invariant
                n == node.children@.len(),
                i <= n,
                items(*node, i as int, vs, start as int) == Ok::<(Seq<char>, int), CompileError>(
                    (acc, self.stack_pointer as int),
                ),
                self.stack_pointer >= start,
                start >= base,
                self.output@ == out1 + acc,
                env.scopes@ == scopes1,
                scopes1 == old(env).scopes@.push((base, n0)),
                env.variables@ == vs,
                forall|j: int|
                    0 <= j < n && kind_is(#[trigger] node.children@[j], "declaration")
                        ==> reserved_here(node.children@[j], vs, vars0.len() as int),
                vs.subrange(0, vars0.len() as int) == vars0,
                vars0.len() <= vs.len(),
                scopes1.last() == (base, n0),
                n0 == vars0.len(),
                reserved(*node, n as int, vars0, base as int) == Ok::<
                    (Seq<(String, usize)>, int),
                    CompileError,
                >((vs, start as int)),
                env.wf(self.stack_pointer as int),
                old(env).variables@ == vars0,
                old(self).stack_pointer == base,
            decreases n - i,
        {
            let d = &node.children[i];
            let ghost s0 = self.stack_pointer;
            let ghost o0 = self.output@;
            proof {
                lemma_items_step(*node, i as int, vs, start as int);
            }
            match self.item(d, env) {
                Ok(()) => {},
                Err(e) => {
                    proof {
                        assert(*d == node.children@[i as int]);
                        assert(items(*node, i + 1, vs, start as int) == Err::<
                            (Seq<char>, int),
                            CompileError,
                        >(e));
                        lemma_items_err(*node, i + 1, n as int, vs, start as int);
                        assert(block_code(*node, vars0, base as int) == Err::<
                            (Seq<char>, int),
                            CompileError,
                        >(e));
                    }
                    return Err(e);
                },
            }
            proof {
                assert(*d == node.children@[i as int]);
                let c2 = item_code(*d, vs, s0 as int).unwrap().0;
                assert(self.output@.subrange(o0.len() as int, self.output@.len() as int) =~= c2);
                acc = acc + self.output@.subrange(o0.len() as int, self.output@.len() as int);
                assert(self.output@ =~= out1 + acc);
                env.lemma_wf_grow(s0 as int, self.stack_pointer as int);
            }
            i += 1;
        }
        let ghost before_clear = self.output@;
        env.clear(self);
        assert(env.variables@ =~= vars0);
        assert(env.scopes@ =~= old(env).scopes@);
        assert(self.output@ =~= old(self).output@ + block_code(
            *node,
            vars0,
            base as int,
        ).unwrap().0);
        Ok(())
    }

    /// Emits the opening of a loop on a condition just computed.
    fn emit_loop_open(&mut self)
        ensures
            final(self).output@ == old(self).output@ + loop_open(),
            final(self).stack_pointer == old(self).stack_pointer,
    {
        proof {
            reveal_strlit("<[[-]");
        }
        self.push_str("<[[-]");
        assert(self.output@ =~= old(self).output@ + loop_open());
    }

    /// Lowers a `while` loop: the condition is computed before the loop and again
    /// at the end of each pass.
    fn while_statement(&mut self, node: &SyntaxNode, env: &mut Environment) -> (r: Result<
        (),
        CompileError,
    >)
        requires
            old(env).wf(old(self).stack_pointer as int),
        ensures
            performs(
                while_code(*node, old(env).variables@, old(self).stack_pointer as int),
                *old(self),
                *final(self),
                r,
            ),
            restores(*old(env), *final(env), r),
        decreases node, 0int,
    {
        let sp = self.stack_pointer;
        let body = field(node, "body");
        let condition = field(node, "condition");
        if body.is_none() || condition.is_none() {
            return Err(CompileError::MissingField);
        }
        let body = body.unwrap();
        let condition = condition.unwrap();
        match self.parenthesized_expression(condition, env) {
            Ok(()) => {},
            Err(e) => {
                return Err(e);
            },
        }
        if !(self.stack_pointer > sp && self.stack_pointer - sp == 1) {
            return Err(CompileError::Unsupported);
        }
        self.stack_pointer = sp;
        self.emit_loop_open();
        match self.statement(body, env) {
            Ok(()) => {},
            Err(e) => {
                return Err(e);
            },
        }
        if self.stack_pointer != sp {
            return Err(CompileError::UnbalancedBody);
        }
        match self.parenthesized_expression(condition, env) {
            Ok(()) => {},
            Err(e) => {
                return Err(e);
            },
        }
        self.push('<');
        self.push(']');
        self.stack_pointer = sp;
        assert(self.output@ =~= old(self).output@ + while_code(
            *node,
            old(env).variables@,
            sp as int,
        ).unwrap().0);
        Ok(())
    }

    /// Lowers an `if`, with or without `else`.
    #[verifier::rlimit(80)]
    fn if_statement(&mut self, node: &SyntaxNode, env: &mut Environment) -> (r: Result<
        (),
        CompileError,
    >)
        requires
            old(env).wf(old(self).stack_pointer as int),
        ensures
            performs(
                if_code(*node, old(env).variables@, old(self).stack_pointer as int),
                *old(self),
                *final(self),
                r,
            ),
            restores(*old(env), *final(env), r),
        decreases node, 0int,
    {
        let sp = self.stack_pointer;
        let condition = field(node, "condition");
        let consequence = field(node, "consequence");
        if condition.is_none() || consequence.is_none() {
            return Err(CompileError::MissingField);
        }
        let condition = condition.unwrap();
        let consequence = consequence.unwrap();
        match field(node, "alternative") {
            Some(alternative) => {
                if sp == usize::MAX {
                    return Err(CompileError::StackOverflow);
                }
                self.push('+');
                self.push('>');
                self.stack_pointer = sp + 1;
                proof {
                    env.lemma_wf_grow(sp as int, sp + 1);
                }
                match self.parenthesized_expression(condition, env) {
                    Ok(()) => {},
                    Err(e) => {
                        return Err(e);
                    },
                }
                if !(self.stack_pointer > sp + 1 && self.stack_pointer - (sp + 1) == 1) {
                    return Err(CompileError::Unsupported);
                }
                self.stack_pointer = sp + 1;
                self.push('<');
                self.push('[');
                self.push('<');
                self.push('-');
                self.push('>');
                self.push('[');
                self.push('-');
                self.push(']');
                match self.statement(consequence, env) {
                    Ok(()) => {},
                    Err(e) => {
                        return Err(e);
                    },
                }
                if self.stack_pointer != sp + 1 {
                    return Err(CompileError::UnbalancedBody);
                }
                if alternative.children.len() == 0 {
                    return Err(CompileError::MissingField);
                }
                self.push(']');
                self.push('<');
                self.push('[');
                self.push('-');
                self.stack_pointer = sp;
                match self.statement(&alternative.children[0], env) {
                    Ok(()) => {},
                    Err(e) => {
                        return Err(e);
                    },
                }
                if self.stack_pointer != sp {
                    return Err(CompileError::UnbalancedBody);
                }
                self.push(']');
                assert(self.output@ =~= old(self).output@ + if_code(
                    *node,
                    old(env).variables@,
                    sp as int,
                ).unwrap().0);
                Ok(())
            },
            None => {
                match self.parenthesized_expression(condition, env) {
                    Ok(()) => {},
                    Err(e) => {
                        return Err(e);
                    },
                }
                if !(self.stack_pointer > sp && self.stack_pointer - sp == 1) {
                    return Err(CompileError::Unsupported);
                }
                self.stack_pointer = sp;
                self.emit_loop_open();
                match self.statement(consequence, env) {
                    Ok(()) => {},
                    Err(e) => {
                        return Err(e);
                    },
                }
                if self.stack_pointer != sp {
                    return Err(CompileError::UnbalancedBody);
                }
                self.push(']');
                assert(self.output@ =~= old(self).output@ + if_code(
                    *node,
                    old(env).variables@,
                    sp as int,
                ).unwrap().0);
                Ok(())
            },
        }
    }

    /// Lowers a `for` loop. Its declared variable is reserved and initialised in a
    /// scope of its own around the loop, which persists across passes and is
    /// cleared at the end.
    #[verifier::rlimit(80)]
    #[verifier::spinoff_prover]
    fn for_statement(&mut self, node: &SyntaxNode, env: &mut Environment) -> (r: Result<
        (),
        CompileError,
    >)
        requires
            old(env).wf(old(self).stack_pointer as int),
        ensures
            performs(
                for_code(*node, old(env).variables@, old(self).stack_pointer as int),
                *old(self),
                *final(self),
                r,
            ),
            restores(*old(env), *final(env), r),
        decreases node, 0int,
    {
        let sp = self.stack_pointer;
        let body = field(node, "body");
        if body.is_none() {
            return Err(CompileError::MissingField);
        }
        let body = body.unwrap();
        let initializer = field(node, "initializer");
        let condition = field(node, "condition");
        let update = field(node, "update");
        if initializer.is_none() || condition.is_none() || update.is_none() {
            return Err(CompileError::Unsupported);
        }
        let initializer = initializer.unwrap();
        let condition = condition.unwrap();
        let update = update.unwrap();
        if !same(&initializer.kind, "declaration") || !is_expression(&condition.kind)
            || !is_expression(&update.kind) {
            return Err(CompileError::Unsupported);
        }
        let ghost vars0 = env.variables@;
        let n0 = env.variables.len();
        env.enter(sp);
        match env.reserve_space(initializer, self) {
            Ok(()) => {},
            Err(e) => {
                return Err(e);
            },
        }
        let inner = self.stack_pointer;
        proof {
            let name = decl_name(*initializer)->Ok_0;
            assert(env.variables@[vars0.len() as int].0@ == name@);
        }
        match self.declaration(initializer, env) {
            Ok(()) => {},
            Err(e) => {
                return Err(e);
            },
        }
        match self.expression(condition, env) {
            Ok(()) => {},
            Err(e) => {
                return Err(e);
            },
        }
        if !(self.stack_pointer > inner && self.stack_pointer - inner == 1) {
            return Err(CompileError::Unsupported);
        }
        self.stack_pointer = inner;
        self.emit_loop_open();
        match self.statement(body, env) {
            Ok(()) => {},
            Err(e) => {
                return Err(e);
            },
        }
        if self.stack_pointer != inner {
            return Err(CompileError::UnbalancedBody);
        }
        match self.expression(update, env) {
            Ok(()) => {},
            Err(e) => {
                return Err(e);
            },
        }
        if self.stack_pointer != inner {
            return Err(CompileError::UnbalancedBody);
        }
        match self.expression(condition, env) {
            Ok(()) => {},
            Err(e) => {
                return Err(e);
            },
        }
        self.push('<');
        self.push(']');
        self.stack_pointer = inner;
        env.clear(self);
        assert(env.variables@ =~= vars0);
        assert(env.scopes@ =~= old(env).scopes@);
        assert(self.output@ =~= old(self).output@ + for_code(*node, vars0, sp as int).unwrap().0);
        Ok(())
    }
}

} // verus!
