use vstd::prelude::*;
use crate::codegen::{Codegen, CompileError};
use crate::env::{layout_wf, Environment};
use crate::expr::performs;
use crate::stmt::block_code;
use crate::syntax::{child, field, has_field, kind_is, same, SyntaxNode};

verus! {

/// The result of a compilation: the program text, and how many `#include`
/// directives were skipped.
pub struct Compiled {
    pub code: String,
    pub ignored_includes: usize,
}

/// Lowering of one top-level item: the instructions and the number of skipped
/// includes (0 or 1). Only a function named `main` is compiled; its body is the
/// outermost block, with no enclosing scope.
pub open spec fn top_code(d: SyntaxNode, sp: int) -> Result<(Seq<char>, int), CompileError> {
    if kind_is(d, "function_definition") {
        if !has_field(d, "declarator"@) || !has_field(child(d, "declarator"@), "declarator"@) {
            Err(CompileError::MissingField)
        } else if child(child(d, "declarator"@), "declarator"@).text@ != "main"@ {
            Err(CompileError::Unsupported)
        } else if !has_field(d, "body"@) {
            Err(CompileError::MissingField)
        } else {
            match block_code(child(d, "body"@), Seq::empty(), sp) {
                Err(e) => Err(e),
                Ok((c, _s)) => Ok((c, 0)),
            }
        }
    } else if kind_is(d, "preproc_include") {
        Ok((Seq::empty(), 1))
    } else {
        Err(CompileError::Unsupported)
    }
}

/// Lowering of the first `i` top-level items.
pub open spec fn unit_code(root: SyntaxNode, i: int, sp: int) -> Result<
    (Seq<char>, int),
    CompileError,
>
    decreases i,
{
    if i <= 0 || i > root.children@.len() {
        Ok((Seq::empty(), 0))
    } else {
        match unit_code(root, i - 1, sp) {
            Err(e) => Err(e),
            Ok((c, k)) => match top_code(root.children@[i - 1], sp) {
                Err(e) => Err(e),
                Ok((c2, k2)) => Ok((c + c2, k + k2)),
            },
        }
    }
}

/// Compilation of a whole syntax tree from stack height `sp`.
pub open spec fn compile(root: SyntaxNode, sp: int) -> Result<(Seq<char>, int), CompileError> {
    if !kind_is(root, "translation_unit") {
        Err(CompileError::Unsupported)
    } else {
        unit_code(root, root.children@.len() as int, sp)
    }
}

proof fn lemma_unit_step(root: SyntaxNode, i: int, sp: int)
    requires
        0 <= i < root.children@.len(),
    ensures
        unit_code(root, i + 1, sp) == match unit_code(root, i, sp) {
            Err(e) => Err(e),
            Ok((c, k)) => match top_code(root.children@[i], sp) {
                Err(e) => Err(e),
                Ok((c2, k2)) => Ok((c + c2, k + k2)),
            },
        },
{
}

proof fn lemma_unit_err(root: SyntaxNode, i: int, j: int, sp: int)
    requires
        0 < i <= j <= root.children@.len(),
        unit_code(root, i, sp) is Err,
    ensures
        unit_code(root, j, sp) == unit_code(root, i, sp),
    decreases j - i,
{
    if j > i {
        lemma_unit_err(root, i, j - 1, sp);
    }
}

/// Relies on `String::from_iter` over `char`s: the string holds exactly the
/// given characters, in order.
#[verifier::external_body]
fn collect_string(chars: &Vec<char>) -> (r: String)
    ensures
        r@ == chars@,
{
    chars.iter().collect()
}

impl Codegen {
    /// Compiles a syntax tree, which must be a `translation_unit`. The text is
    /// appended to what this state already holds.
    pub fn generate(self, root: &SyntaxNode) -> (r: Result<Compiled, CompileError>)
        ensures
            match compile(*root, self.stack_pointer as int) {
                Ok((c, k)) => r matches Ok(out) && out.code@ == self.output@ + c
                    && out.ignored_includes == k,
                Err(e) => r == Err::<Compiled, CompileError>(e),
            },
    {
        if !same(&root.kind, "translation_unit") {
            return Err(CompileError::Unsupported);
        }
        let mut state = self;
        match state.translation_unit(root) {
            Ok(k) => Ok(Compiled { code: collect_string(&state.output), ignored_includes: k }),
            Err(e) => Err(e),
        }
    }

    /// Compiles the top-level items in order.
    #[verifier::spinoff_prover]
    pub fn translation_unit(&mut self, root: &SyntaxNode) -> (r: Result<usize, CompileError>)
        ensures
            match unit_code(*root, root.children@.len() as int, old(self).stack_pointer as int) {
                Ok((c, k)) => r == Ok::<usize, CompileError>(k as usize) && 0 <= k <= usize::MAX
                    && final(self).output@ == old(self).output@ + c && final(self).stack_pointer
                    == old(self).stack_pointer,
                Err(e) => r == Err::<usize, CompileError>(e),
            },
    {
        let n = root.children.len();
        let sp = self.stack_pointer;
        let mut includes: usize = 0;
        let mut i: usize = 0;
        let ghost mut acc: Seq<char> = Seq::empty();
        while i < n
            invariant
                n == root.children@.len(),
                i <= n,
                includes <= i,
                sp == old(self).stack_pointer,
                self.stack_pointer == sp,
                unit_code(*root, i as int, sp as int) == Ok::<(Seq<char>, int), CompileError>(
                    (acc, includes as int),
                ),
                self.output@ == old(self).output@ + acc,
            decreases n - i,
        {
            let d = &root.children[i];
            let ghost o0 = self.output@;
            proof {
                lemma_unit_step(*root, i as int, sp as int);
                assert(*d == root.children@[i as int]);
            }
            let r = if same(&d.kind, "function_definition") {
                self.main(d)
            } else if same(&d.kind, "preproc_include") {
                assert(top_code(*d, sp as int) == Ok::<(Seq<char>, int), CompileError>(
                    (Seq::empty(), 1),
                ));
                includes = includes + 1;
                Ok(())
            } else {
                Err(CompileError::Unsupported)
            };
            match r {
                Ok(()) => {},
                Err(e) => {
                    proof {
                        assert(*d == root.children@[i as int]);
                        lemma_unit_err(*root, i + 1, n as int, sp as int);
                    }
                    return Err(e);
                },
            }
            proof {
                assert(*d == root.children@[i as int]);
                let c2 = top_code(*d, sp as int).unwrap().0;
                assert(self.output@.subrange(o0.len() as int, self.output@.len() as int) =~= c2);
                acc = acc + c2;
                assert(self.output@ =~= old(self).output@ + acc);
            }
            i += 1;
        }
        Ok(includes)
    }

    /// Compiles a function definition, which must be `main`.
    fn main(&mut self, node: &SyntaxNode) -> (r: Result<(), CompileError>)
        requires
            kind_is(*node, "function_definition"),
        ensures
            match top_code(*node, old(self).stack_pointer as int) {
                Ok((c, _k)) => r is Ok && final(self).output@ == old(self).output@ + c
                    && final(self).stack_pointer == old(self).stack_pointer,
                Err(e) => r == Err::<(), CompileError>(e),
            },
    {
        let declarator = field(node, "declarator");
        if declarator.is_none() {
            return Err(CompileError::MissingField);
        }
        let name = field(declarator.unwrap(), "declarator");
        if name.is_none() {
            return Err(CompileError::MissingField);
        }
        if !same(&name.unwrap().text, "main") {
            return Err(CompileError::Unsupported);
        }
        let body = field(node, "body");
        if body.is_none() {
            return Err(CompileError::MissingField);
        }
        let mut env = Environment::new();
        proof {
            reveal(layout_wf);
            assert(env.variables@ =~= Seq::<(String, usize)>::empty());
        }
        self.compound_statement(body.unwrap(), &mut env)
    }
}

} // verus!
