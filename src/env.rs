use vstd::prelude::*;
use crate::codegen::{clear_code, Codegen};

verus! {

/// The innermost location bound to `name` among `vars`: the newest binding wins,
/// so an inner scope's variable shadows an outer one.
pub open spec fn lookup_in(vars: Seq<(String, usize)>, name: Seq<char>) -> Option<usize>
    decreases vars.len(),
{
    if vars.len() == 0 {
        None
    } else if vars.last().0@ == name {
        Some(vars.last().1)
    } else {
        lookup_in(vars.drop_last(), name)
    }
}

/// Every bound location lies below `sp`.
pub open spec fn below(vars: Seq<(String, usize)>, sp: int) -> bool {
    forall|i: int| 0 <= i < vars.len() ==> (#[trigger] vars[i]).1 < sp
}

pub proof fn lemma_lookup_below(vars: Seq<(String, usize)>, name: Seq<char>, sp: int)
    requires
        below(vars, sp),
    ensures
        lookup_in(vars, name) matches Some(l) ==> l < sp,
    decreases vars.len(),
{
    if vars.len() > 0 {
        assert(vars.last() == vars[vars.len() - 1]);
        if vars.last().0@ != name {
            assert forall|i: int| 0 <= i < vars.drop_last().len() implies (
            #[trigger] vars.drop_last()[i]).1 < sp by {
                assert(vars.drop_last()[i] == vars[i]);
            }
            lemma_lookup_below(vars.drop_last(), name, sp);
        }
    }
}

/// Every binding lies below `sp`; every scope starts at or below `sp`, and above
/// the bindings of the scopes around it; scopes are nested in order.
#[verifier::opaque]
pub open spec fn layout_wf(vars: Seq<(String, usize)>, scopes: Seq<(usize, usize)>, sp: int) -> bool {
    &&& below(vars, sp)
    &&& forall|k: int|
        0 <= k < scopes.len() ==> {
            &&& (#[trigger] scopes[k]).0 <= sp
            &&& scopes[k].1 <= vars.len()
            &&& forall|i: int| 0 <= i < scopes[k].1 ==> (#[trigger] vars[i]).1 < scopes[k].0
        }
    &&& forall|k1: int, k2: int|
        0 <= k1 < k2 < scopes.len() ==> (#[trigger] scopes[k1]).0 <= (#[trigger] scopes[k2]).0
            && scopes[k1].1 <= scopes[k2].1
}

/// The compile-time model of the tape as a stack of lexical scopes.
///
/// `variables` holds every live binding, outermost scope first; `scopes` holds,
/// for each open scope, the stack height at its entry and the index of its first
/// binding.
pub struct Environment {
    pub variables: Vec<(String, usize)>,
    pub scopes: Vec<(usize, usize)>,
}

impl Environment {
    /// The layout is consistent with a tracked stack height of `sp`.
    pub open spec fn wf(&self, sp: int) -> bool {
        layout_wf(self.variables@, self.scopes@, sp)
    }

    pub fn new() -> (r: Self)
        ensures
            r.variables@.len() == 0,
            r.scopes@.len() == 0,
    {
        Environment { variables: Vec::new(), scopes: Vec::new() }
    }

    /// Searches the scopes from the innermost outwards.
    pub fn lookup(&self, name: &String) -> (r: Option<usize>)
        ensures
            r == lookup_in(self.variables@, name@),
    {
        let mut k: usize = self.variables.len();
        assert(self.variables@.subrange(0, k as int) =~= self.variables@);
        while k > 0
            invariant
                k <= self.variables@.len(),
                lookup_in(self.variables@, name@) == lookup_in(
                    self.variables@.subrange(0, k as int),
                    name@,
                ),
            decreases k,
        {
            let ghost pre = self.variables@.subrange(0, k as int);
            assert(pre.drop_last() =~= self.variables@.subrange(0, k - 1));
            assert(pre.last() == self.variables@[k - 1]);
            if self.variables[k - 1].0 == *name {
                return Some(self.variables[k - 1].1);
            }
            k -= 1;
        }
        None
    }

    /// Opens a scope whose cells start at stack height `stack_base`.
    pub fn enter(&mut self, stack_base: usize)
        requires
            old(self).wf(stack_base as int),
        ensures
            final(self).variables@ == old(self).variables@,
            final(self).scopes@ == old(self).scopes@.push((stack_base, old(self).variables@.len() as usize)),
            old(self).variables@.len() <= usize::MAX,
            final(self).wf(stack_base as int),
    {
        let n = self.variables.len();
        self.scopes.push((stack_base, n));
        reveal(layout_wf);
        assert forall|k: int| 0 <= k < self.scopes@.len() implies {
            &&& (#[trigger] self.scopes@[k]).0 <= stack_base
            &&& self.scopes@[k].1 <= self.variables@.len()
            &&& forall|i: int|
                0 <= i < self.scopes@[k].1 ==> (#[trigger] self.variables@[i]).1
                    < self.scopes@[k].0
        } by {
            if k < old(self).scopes@.len() {
                assert(self.scopes@[k] == old(self).scopes@[k]);
            }
        }
        assert forall|k1: int, k2: int|
            0 <= k1 < k2 < self.scopes@.len() implies (#[trigger] self.scopes@[k1]).0
            <= (#[trigger] self.scopes@[k2]).0 && self.scopes@[k1].1 <= self.scopes@[k2].1 by {
            assert(self.scopes@[k1] == old(self).scopes@[k1]);
            if k2 < old(self).scopes@.len() {
                assert(self.scopes@[k2] == old(self).scopes@[k2]);
            }
        }
    }

    /// Binds `name` to the cell at stack height `location` in the innermost scope.
    pub fn bind(&mut self, name: &String, location: usize)
        requires
            old(self).wf(location as int),
        ensures
            final(self).variables@ == old(self).variables@.push((*name, location)),
            final(self).scopes@ == old(self).scopes@,
            final(self).wf(location + 1),
    {
        self.variables.push((name.clone(), location));
        reveal(layout_wf);
        let ghost sp = location + 1;
        assert forall|k: int| 0 <= k < self.scopes@.len() implies {
            &&& (#[trigger] self.scopes@[k]).0 <= sp
            &&& self.scopes@[k].1 <= self.variables@.len()
            &&& forall|i: int|
                0 <= i < self.scopes@[k].1 ==> (#[trigger] self.variables@[i]).1
                    < self.scopes@[k].0
        } by {
            assert forall|i: int| 0 <= i < self.scopes@[k].1 implies (
            #[trigger] self.variables@[i]).1 < self.scopes@[k].0 by {
                assert(self.variables@[i] == old(self).variables@[i]);
            }
        }
        assert forall|i: int| 0 <= i < self.variables@.len() implies (
        #[trigger] self.variables@[i]).1 < sp by {
            if i < old(self).variables@.len() {
                assert(self.variables@[i] == old(self).variables@[i]);
            }
        }
    }
}

} // verus!

verus! {

impl Environment {
    /// A location bound in a consistent layout lies below the stack height.
    pub proof fn lemma_lookup_below(&self, name: Seq<char>, sp: int)
        requires
            self.wf(sp),
        ensures
            lookup_in(self.variables@, name) matches Some(l) ==> l < sp,
    {
        reveal(layout_wf);
        lemma_lookup_below(self.variables@, name, sp);
    }

    /// A layout consistent with a stack height stays so as the stack grows.
    pub proof fn lemma_wf_grow(&self, a: int, b: int)
        requires
            self.wf(a),
            a <= b,
        ensures
            self.wf(b),
    {
        reveal(layout_wf);
        assert forall|k: int| 0 <= k < self.scopes@.len() implies (
        #[trigger] self.scopes@[k]).0 <= b by {}
    }
}

} // verus!

verus! {

impl Environment {
    /// Closes the innermost scope: every cell from the stack top down to the
    /// scope's base is zeroed, the stack returns to that base, and the scope's
    /// bindings are dropped.
    pub fn clear(&mut self, codegen: &mut Codegen)
        requires
            old(self).scopes@.len() > 0,
            old(self).wf(old(codegen).stack_pointer as int),
        ensures
            final(codegen).output@ == old(codegen).output@ + clear_code(
                old(codegen).stack_pointer - old(self).scopes@.last().0,
            ),
            final(codegen).stack_pointer == old(self).scopes@.last().0,
            final(self).scopes@ == old(self).scopes@.drop_last(),
            final(self).variables@ == old(self).variables@.subrange(
                0,
                old(self).scopes@.last().1 as int,
            ),
            final(self).wf(old(self).scopes@.last().0 as int),
    {
        proof {
            reveal(layout_wf);
        }
        let last = self.scopes.len() - 1;
        let (stack_base, start) = self.scopes[last];
        assert(self.scopes@[last as int] == self.scopes@.last());
        let stack_size = codegen.stack_pointer - stack_base;
        let mut i: usize = 0;
        while i < stack_size
            invariant
                i <= stack_size,
                codegen.output@ == old(codegen).output@ + clear_code(i as int),
                codegen.stack_pointer == old(codegen).stack_pointer,
            decreases stack_size - i,
        {
            codegen.push('<');
            proof {
                reveal_strlit("[-]");
            }
            codegen.push_str("[-]");
            i += 1;
            assert(codegen.output@ =~= old(codegen).output@ + clear_code(i as int));
        }
        codegen.stack_pointer = stack_base;
        self.scopes.pop();
        self.variables.truncate(start);
        proof {
            reveal(layout_wf);
            let sc = old(self).scopes@;
            assert forall|j: int| 0 <= j < self.variables@.len() implies (
            #[trigger] self.variables@[j]).1 < stack_base by {
                assert(self.variables@[j] == old(self).variables@[j]);
            }
            assert forall|k: int| 0 <= k < self.scopes@.len() implies {
                &&& (#[trigger] self.scopes@[k]).0 <= stack_base
                &&& self.scopes@[k].1 <= self.variables@.len()
                &&& forall|j: int|
                    0 <= j < self.scopes@[k].1 ==> (#[trigger] self.variables@[j]).1
                        < self.scopes@[k].0
            } by {
                assert(self.scopes@[k] == sc[k]);
                assert(sc[k].0 <= sc[last as int].0 && sc[k].1 <= sc[last as int].1);
                assert forall|j: int| 0 <= j < self.scopes@[k].1 implies (
                #[trigger] self.variables@[j]).1 < self.scopes@[k].0 by {
                    assert(self.variables@[j] == old(self).variables@[j]);
                }
            }
            assert forall|k1: int, k2: int|
                0 <= k1 < k2 < self.scopes@.len() implies (#[trigger] self.scopes@[k1]).0
                <= (#[trigger] self.scopes@[k2]).0 && self.scopes@[k1].1 <= self.scopes@[k2].1 by {
                assert(self.scopes@[k1] == sc[k1]);
                assert(self.scopes@[k2] == sc[k2]);
            }
        }
    }
}

} // verus!
