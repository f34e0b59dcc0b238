use vstd::prelude::*;

verus! {

/// Why a syntax tree could not be compiled. Every error aborts the whole compilation.
#[derive(Debug, Clone, Copy, PartialEq, Eq, Structural)]
pub enum CompileError {
    /// A node kind outside the supported subset of the language.
    Unsupported,
    /// An operator other than `+`, `-`, `==`, `!=` and plain `=`.
    UnsupportedOperator,
    /// A declared type other than `char` and `bool`.
    UnsupportedType,
    /// A name that no enclosing scope declares.
    UnresolvedIdentifier,
    /// A node lacks a child that its grammar rule guarantees.
    MissingField,
    /// A number or character literal that cannot be read.
    InvalidLiteral,
    /// A branch or loop body that leaves a value on the stack, so that the data
    /// pointer would depend on whether it ran.
    UnbalancedBody,
    /// The tracked stack height would no longer fit in a `usize`.
    StackOverflow,
}

/// `n` copies of `c`.
pub open spec fn rep(n: int, c: char) -> Seq<char> {
    Seq::new(n as nat, |_i: int| c)
}

/// A literal: `v` increments of a fresh cell, then a step onto the next one.
pub open spec fn literal_code(v: int) -> Seq<char> {
    rep(v, '+') + seq!['>']
}

/// Non-destructive read of the cell `off` below the stack top: the value is moved
/// into the top cell and the one above it, and the latter is moved back.
pub open spec fn dup_code(off: int) -> Seq<char> {
    rep(off, '<') + seq!['[', '-'] + rep(off, '>') + seq!['+', '>', '+'] + rep(off + 1, '<')
        + seq![']'] + rep(off + 1, '>') + seq!['[', '-'] + rep(off + 1, '<') + seq!['+'] + rep(
        off + 1,
        '>',
    ) + seq![']']
}

/// Move-add of the top cell into the one below it.
pub open spec fn add_code() -> Seq<char> {
    seq!['<', '[', '<', '+', '>', '-', ']']
}

/// Move-subtract of the top cell from the one below it.
pub open spec fn sub_code() -> Seq<char> {
    seq!['<', '[', '<', '-', '>', '-', ']']
}

/// Flag test for `==`: where the difference is nonzero, clear it and drop the flag to 0.
pub open spec fn eq_test_code() -> Seq<char> {
    seq!['<', '[', '[', '-', ']', '<', '-', '>', ']']
}

/// Flag test for `!=`: where the difference is nonzero, clear it and raise the flag to 1.
pub open spec fn ne_test_code() -> Seq<char> {
    seq!['<', '[', '[', '-', ']', '<', '+', '>', ']']
}

/// Move-loop from the current cell into the cell `off` below it.
pub open spec fn move_code(off: int) -> Seq<char> {
    seq!['['] + rep(off, '<') + seq!['+'] + rep(off, '>') + seq!['-', ']']
}

/// Step back onto a fresh value and move it into the cell `off` below.
pub open spec fn store_code(off: int) -> Seq<char> {
    seq!['<'] + move_code(off)
}

/// Step back onto a fresh value, zero the cell `off` below, and move the value there.
pub open spec fn assign_code(off: int) -> Seq<char> {
    seq!['<'] + rep(off, '<') + seq!['[', '-', ']'] + rep(off, '>') + move_code(off)
}

/// Output and clear the value on top of the stack.
pub open spec fn putchar_code() -> Seq<char> {
    seq!['<', '.', '[', '-', ']']
}

/// Step down and zero a cell, `k` times.
pub open spec fn clear_code(k: int) -> Seq<char>
    decreases k,
{
    if k <= 0 {
        Seq::empty()
    } else {
        clear_code(k - 1) + seq!['<', '[', '-', ']']
    }
}

/// The instruction alphabet of the target machine.
pub open spec fn instruction(c: char) -> bool {
    c == '>' || c == '<' || c == '+' || c == '-' || c == '.' || c == ',' || c == '[' || c == ']'
        || c == '@'
}

/// The compile state: the instructions emitted so far and the stack height that
/// the data pointer will have after running them from offset 0.
pub struct Codegen {
    pub stack_pointer: usize,
    pub output: Vec<char>,
}

impl Codegen {
    /// A fresh compile state: no instructions, stack height 0.
    pub fn new() -> (r: Self)
        ensures
            r.stack_pointer == 0,
            r.output@ == Seq::<char>::empty(),
    {
        Codegen { stack_pointer: 0, output: Vec::new() }
    }

    /// Emits one instruction.
    pub fn push(&mut self, c: char)
        requires
            instruction(c),
        ensures
            final(self).output@ == old(self).output@.push(c),
            final(self).stack_pointer == old(self).stack_pointer,
    {
        self.output.push(c);
    }

    /// Emits `n` copies of one instruction.
    pub fn push_n(&mut self, n: usize, c: char)
        requires
            instruction(c),
        ensures
            final(self).output@ == old(self).output@ + rep(n as int, c),
            final(self).stack_pointer == old(self).stack_pointer,
    {
        let mut i: usize = 0;
        while i < n
            invariant
                i <= n,
                instruction(c),
                self.output@ == old(self).output@ + rep(i as int, c),
                self.stack_pointer == old(self).stack_pointer,
            decreases n - i,
        {
            self.push(c);
            i += 1;
            assert(self.output@ =~= old(self).output@ + rep(i as int, c));
        }
    }

    /// Emits a run of instructions.
    pub fn push_str(&mut self, s: &str)
        requires
            forall|i: int| 0 <= i < s@.len() ==> instruction(#[trigger] s@[i]),
        ensures
            final(self).output@ == old(self).output@ + s@,
            final(self).stack_pointer == old(self).stack_pointer,
    {
        let n = s.unicode_len();
        let mut i: usize = 0;
        while i < n
            invariant
                i <= n,
                n == s@.len(),
                forall|j: int| 0 <= j < s@.len() ==> instruction(#[trigger] s@[j]),
                self.output@ == old(self).output@ + s@.subrange(0, i as int),
                self.stack_pointer == old(self).stack_pointer,
            decreases n - i,
        {
            self.push(s.get_char(i));
            i += 1;
            assert(self.output@ =~= old(self).output@ + s@.subrange(0, i as int));
        }
        assert(s@.subrange(0, n as int) =~= s@);
    }

    /// Emits the move-add primitive.
    pub fn emit_add(&mut self)
        ensures
            final(self).output@ == old(self).output@ + add_code(),
            final(self).stack_pointer == old(self).stack_pointer,
    {
        proof {
            reveal_strlit("<[<+>-]");
        }
        self.push_str("<[<+>-]");
        assert(self.output@ =~= old(self).output@ + add_code());
    }

    /// Emits the move-subtract primitive.
    pub fn emit_sub(&mut self)
        ensures
            final(self).output@ == old(self).output@ + sub_code(),
            final(self).stack_pointer == old(self).stack_pointer,
    {
        proof {
            reveal_strlit("<[<->-]");
        }
        self.push_str("<[<->-]");
        assert(self.output@ =~= old(self).output@ + sub_code());
    }

    /// Emits the flag test of `==`.
    pub fn emit_eq_test(&mut self)
        ensures
            final(self).output@ == old(self).output@ + eq_test_code(),
            final(self).stack_pointer == old(self).stack_pointer,
    {
        proof {
            reveal_strlit("<[[-]<->]");
        }
        self.push_str("<[[-]<->]");
        assert(self.output@ =~= old(self).output@ + eq_test_code());
    }

    /// Emits the flag test of `!=`.
    pub fn emit_ne_test(&mut self)
        ensures
            final(self).output@ == old(self).output@ + ne_test_code(),
            final(self).stack_pointer == old(self).stack_pointer,
    {
        proof {
            reveal_strlit("<[[-]<+>]");
        }
        self.push_str("<[[-]<+>]");
        assert(self.output@ =~= old(self).output@ + ne_test_code());
    }

    /// Emits the output of the top cell, which is then cleared.
    pub fn emit_putchar(&mut self)
        ensures
            final(self).output@ == old(self).output@ + putchar_code(),
            final(self).stack_pointer == old(self).stack_pointer,
    {
        proof {
            reveal_strlit("<.[-]");
        }
        self.push_str("<.[-]");
        assert(self.output@ =~= old(self).output@ + putchar_code());
    }

    /// Emits a literal of value `v`.
    pub fn emit_literal(&mut self, v: usize)
        ensures
            final(self).output@ == old(self).output@ + literal_code(v as int),
            final(self).stack_pointer == old(self).stack_pointer,
    {
        self.push_n(v, '+');
        self.push('>');
        assert(self.output@ =~= old(self).output@ + literal_code(v as int));
    }

    /// Emits a move-loop into the cell `off` below.
    pub fn emit_move(&mut self, off: usize)
        ensures
            final(self).output@ == old(self).output@ + move_code(off as int),
            final(self).stack_pointer == old(self).stack_pointer,
    {
        self.push('[');
        self.push_n(off, '<');
        self.push('+');
        self.push_n(off, '>');
        self.push('-');
        self.push(']');
        assert(self.output@ =~= old(self).output@ + move_code(off as int));
    }

    /// Emits the non-destructive read of the cell `off` below the stack top.
    pub fn emit_dup(&mut self, off: usize)
        requires
            off < usize::MAX,
        ensures
            final(self).output@ == old(self).output@ + dup_code(off as int),
            final(self).stack_pointer == old(self).stack_pointer,
    {
        self.push_n(off, '<');
        self.push('[');
        self.push('-');
        self.push_n(off, '>');
        self.push('+');
        self.push('>');
        self.push('+');
        self.push_n(off + 1, '<');
        self.push(']');
        self.push_n(off + 1, '>');
        self.push('[');
        self.push('-');
        self.push_n(off + 1, '<');
        self.push('+');
        self.push_n(off + 1, '>');
        self.push(']');
        assert(self.output@ =~= old(self).output@ + dup_code(off as int));
    }

    /// Emits the store of a fresh value into the cell `off` below it.
    pub fn emit_store(&mut self, off: usize)
        ensures
            final(self).output@ == old(self).output@ + store_code(off as int),
            final(self).stack_pointer == old(self).stack_pointer,
    {
        self.push('<');
        self.emit_move(off);
        assert(self.output@ =~= old(self).output@ + store_code(off as int));
    }

    /// Emits the assignment of a fresh value to the cell `off` below it.
    pub fn emit_assign(&mut self, off: usize)
        ensures
            final(self).output@ == old(self).output@ + assign_code(off as int),
            final(self).stack_pointer == old(self).stack_pointer,
    {
        proof {
            reveal_strlit("[-]");
        }
        self.push('<');
        self.push_n(off, '<');
        self.push_str("[-]");
        self.push_n(off, '>');
        self.emit_move(off);
        assert(self.output@ =~= old(self).output@ + assign_code(off as int));
    }
}

} // verus!
