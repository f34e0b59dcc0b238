use vstd::prelude::*;

verus! {

/// One instruction of the tape machine; a loop holds its body.
#[derive(Debug)]
pub enum Token {
    IncPtr,
    DecPtr,
    IncVal,
    DecVal,
    PutChar,
    GetChar,
    Loop(Vec<Token>),
    Debug,
}

/// Why a program could not be read or run to its end.
#[derive(Debug, Clone, Copy, PartialEq, Eq, Structural)]
pub enum RunError {
    /// A character that is neither an instruction nor whitespace.
    InvalidInstruction,
    /// A `[` without its `]`, or a `]` without its `[`.
    UnbalancedBrackets,
    /// The data pointer would leave the tape.
    PointerOutOfRange,
    /// A read found no input left.
    InputExhausted,
    /// The step budget ran out before the program ended.
    OutOfFuel,
}

/// The text of a token sequence.
pub open spec fn render(ts: Seq<Token>) -> Seq<char>
    decreases ts, 0int,
{
    if ts.len() == 0 {
        Seq::empty()
    } else {
        render(ts.drop_last()) + render_one(ts.last())
    }
}

/// The text of one token.
pub open spec fn render_one(t: Token) -> Seq<char>
    decreases t, 1int,
{
    match t {
        Token::IncPtr => seq!['>'],
        Token::DecPtr => seq!['<'],
        Token::IncVal => seq!['+'],
        Token::DecVal => seq!['-'],
        Token::PutChar => seq!['.'],
        Token::GetChar => seq![','],
        Token::Loop(body) => seq!['['] + render(body@) + seq![']'],
        Token::Debug => seq!['@'],
    }
}

pub open spec fn instruction_char(c: char) -> bool {
    c == '>' || c == '<' || c == '+' || c == '-' || c == '.' || c == ',' || c == '[' || c == ']'
        || c == '@'
}

/// Whether `c` has the Unicode `White_Space` property, as `char::is_whitespace`
/// decides it.
pub open spec fn white_space(c: char) -> bool {
    let u = c as u32;
    ||| (0x09 <= u && u <= 0x0d)
    ||| u == 0x20
    ||| u == 0x85
    ||| u == 0xa0
    ||| u == 0x1680
    ||| (0x2000 <= u && u <= 0x200a)
    ||| u == 0x2028
    ||| u == 0x2029
    ||| u == 0x202f
    ||| u == 0x205f
    ||| u == 0x3000
}

fn is_white_space(c: char) -> (r: bool)
    ensures
        r == white_space(c),
{
    let u = c as u32;
    (0x09 <= u && u <= 0x0d) || u == 0x20 || u == 0x85 || u == 0xa0 || u == 0x1680 || (0x2000 <= u
        && u <= 0x200a) || u == 0x2028 || u == 0x2029 || u == 0x202f || u == 0x205f || u == 0x3000
}

/// A character that a program text may not hold.
pub open spec fn stray(c: char) -> bool {
    !instruction_char(c) && !white_space(c)
}

/// The instruction characters of `s`, in order: what remains once whitespace is dropped.
pub open spec fn instructions_of(s: Seq<char>) -> Seq<char>
    decreases s.len(),
{
    if s.len() == 0 {
        Seq::empty()
    } else if instruction_char(s.last()) {
        instructions_of(s.drop_last()).push(s.last())
    } else {
        instructions_of(s.drop_last())
    }
}

proof fn lemma_instructions_step(s: Seq<char>, a: int, i: int)
    requires
        0 <= a <= i < s.len(),
    ensures
        instructions_of(s.subrange(a, i + 1)) == if instruction_char(s[i]) {
            instructions_of(s.subrange(a, i)).push(s[i])
        } else {
            instructions_of(s.subrange(a, i))
        },
{
    assert(s.subrange(a, i + 1).drop_last() =~= s.subrange(a, i));
}

proof fn lemma_instructions_concat(s: Seq<char>, a: int, m: int, e: int)
    requires
        0 <= a <= m <= e <= s.len(),
    ensures
        instructions_of(s.subrange(a, e)) == instructions_of(s.subrange(a, m)) + instructions_of(
            s.subrange(m, e),
        ),
    decreases e - m,
{
    if e == m {
        assert(s.subrange(m, e) =~= Seq::<char>::empty());
        assert(instructions_of(s.subrange(a, m)) + Seq::<char>::empty() =~= instructions_of(
            s.subrange(a, m),
        ));
    } else {
        lemma_instructions_concat(s, a, m, e - 1);
        lemma_instructions_step(s, a, e - 1);
        lemma_instructions_step(s, m, e - 1);
        if instruction_char(s[e - 1]) {
            assert(instructions_of(s.subrange(a, m)) + instructions_of(s.subrange(m, e - 1)).push(
                s[e - 1],
            ) =~= (instructions_of(s.subrange(a, m)) + instructions_of(s.subrange(m, e - 1))).push(
                s[e - 1],
            ));
        }
    }
}

/// The net bracket depth of `s[a..b)`: one up for each `[`, one down for each `]`.
pub open spec fn depth(s: Seq<char>, a: int, b: int) -> int
    decreases b - a,
{
    if b <= a {
        0
    } else {
        depth(s, a, b - 1) + if s[b - 1] == '[' {
            1
        } else if s[b - 1] == ']' {
            -1
        } else {
            0
        }
    }
}

/// No character of `s[a..b)` is stray.
pub open spec fn clean(s: Seq<char>, a: int, b: int) -> bool {
    forall|j: int| a <= j < b ==> !stray(#[trigger] s[j])
}

/// The brackets of `s[a..b)` never close more than they opened.
pub open spec fn never_below(s: Seq<char>, a: int, b: int) -> bool {
    forall|k: int| a <= k <= b ==> #[trigger] depth(s, a, k) >= 0
}

/// `s[e]` is the `]` that closes a loop whose body starts at `a`.
pub open spec fn closes(s: Seq<char>, a: int, e: int) -> bool {
    &&& a <= e < s.len()
    &&& s[e] == ']'
    &&& depth(s, a, e) == 0
    &&& never_below(s, a, e)
}

/// A well-formed program text: no stray character, and brackets that pair up.
pub open spec fn well_formed(s: Seq<char>) -> bool {
    clean(s, 0, s.len() as int) && never_below(s, 0, s.len() as int) && depth(s, 0, s.len() as int)
        == 0
}

proof fn lemma_depth_split(s: Seq<char>, a: int, m: int, b: int)
    requires
        a <= m <= b,
    ensures
        depth(s, a, b) == depth(s, a, m) + depth(s, m, b),
    decreases b - m,
{
    if b > m {
        lemma_depth_split(s, a, m, b - 1);
    }
}

proof fn lemma_depth_step(s: Seq<char>, a: int, b: int)
    requires
        a <= b,
    ensures
        depth(s, a, b + 1) == depth(s, a, b) + if s[b] == '[' {
            1
        } else if s[b] == ']' {
            -1
        } else {
            0
        },
{
}

/// From a point at depth at least 1, a later point at depth 0 is reached first
/// just after a `]` at depth 1.
proof fn lemma_first_close(s: Seq<char>, pos: int, a: int, e: int) -> (k: int)
    requires
        pos <= a <= e,
        depth(s, pos, a) >= 1,
        depth(s, pos, e) <= 0,
    ensures
        a < k <= e,
        depth(s, pos, k) == 0,
        depth(s, pos, k - 1) == 1,
        s[k - 1] == ']',
        forall|j: int| a <= j < k ==> #[trigger] depth(s, pos, j) >= 1,
    decreases e - a,
{
    lemma_depth_step(s, pos, a);
    if depth(s, pos, a + 1) == 0 {
        a + 1
    } else {
        let k = lemma_first_close(s, pos, a + 1, e);
        k
    }
}

proof fn lemma_close_inner(s: Seq<char>, pos: int, i: int, k: int, c: int)
    requires
        pos <= i,
        i + 1 < k <= s.len(),
        k - 1 <= c <= s.len(),
        s[i] == '[',
        depth(s, pos, i) == 0,
        depth(s, pos, k) == 0,
        depth(s, pos, k - 1) == 1,
        s[k - 1] == ']',
        forall|j: int| i + 1 <= j < k ==> #[trigger] depth(s, pos, j) >= 1,
        clean(s, pos, c),
    ensures
        closes(s, i + 1, k - 1),
        clean(s, i + 1, k - 1),
{
    lemma_depth_step(s, pos, i);
    lemma_depth_split(s, pos, i + 1, k - 1);
    assert forall|j: int| i + 1 <= j <= k - 1 implies #[trigger] depth(s, i + 1, j) >= 0 by {
        lemma_depth_split(s, pos, i + 1, j);
    }
}

proof fn lemma_plain_step(s: Seq<char>, pos: int, i: int)
    requires
        0 <= pos <= i < s.len(),
        !stray(s[i]),
        s[i] != '[',
        s[i] != ']',
        clean(s, pos, i),
        never_below(s, pos, i),
        depth(s, pos, i) == 0,
    ensures
        clean(s, pos, i + 1),
        never_below(s, pos, i + 1),
        depth(s, pos, i + 1) == 0,
{
    lemma_depth_step(s, pos, i);
    assert forall|k: int| pos <= k <= i + 1 implies #[trigger] depth(s, pos, k) >= 0 by {
        if k <= i {
            assert(never_below(s, pos, i));
        }
    }
}

proof fn lemma_nested_ok(s: Seq<char>, pos: int, i: int, end: int)
    requires
        0 <= pos <= i < s.len(),
        s[i] == '[',
        clean(s, pos, i),
        never_below(s, pos, i),
        depth(s, pos, i) == 0,
        closes(s, i + 1, end - 1),
        clean(s, i + 1, end - 1),
    ensures
        clean(s, pos, end),
        never_below(s, pos, end),
        depth(s, pos, end) == 0,
{
    lemma_depth_step(s, pos, i);
    lemma_depth_split(s, pos, i + 1, end - 1);
    lemma_depth_step(s, pos, end - 1);
    assert forall|j: int| pos <= j < end implies !stray(#[trigger] s[j]) by {
        if j < i {
            assert(clean(s, pos, i));
        } else if i < j < end - 1 {
            assert(clean(s, i + 1, end - 1));
        }
    }
    assert forall|k: int| pos <= k <= end implies #[trigger] depth(s, pos, k) >= 0 by {
        if k <= i {
            assert(never_below(s, pos, i));
        } else if k <= end - 1 {
            lemma_depth_split(s, pos, i + 1, k);
            assert(never_below(s, i + 1, end - 1));
            assert(depth(s, i + 1, k) >= 0);
        }
    }
}

/// Reads the instructions from `pos` on, up to the `]` that closes an enclosing
/// loop when `nested`, else to the end. Returns the tokens and the position after
/// what was read.
fn tokenize_from(s: &str, pos: usize, nested: bool) -> (r: Result<(Vec<Token>, usize), RunError>)
    requires
        pos <= s@.len(),
    ensures
        r matches Ok((ts, end)) ==> {
            &&& pos <= end <= s@.len()
            &&& (!nested ==> end == s@.len())
            &&& render(ts@) + (if nested {
                seq![']']
            } else {
                Seq::empty()
            }) == instructions_of(s@.subrange(pos as int, end as int))
            &&& (nested ==> closes(s@, pos as int, end - 1) && clean(s@, pos as int, end - 1))
            &&& (!nested ==> clean(s@, pos as int, end as int) && never_below(
                s@,
                pos as int,
                end as int,
            ) && depth(s@, pos as int, end as int) == 0)
        },
        r matches Err(e) ==> e == RunError::UnbalancedBrackets || (e == RunError::InvalidInstruction
            && exists|j: int| 0 <= j < s@.len() && stray(#[trigger] s@[j])),
        !nested && clean(s@, pos as int, s@.len() as int) && never_below(
            s@,
            pos as int,
            s@.len() as int,
        ) && depth(s@, pos as int, s@.len() as int) == 0 ==> r is Ok,
        forall|e: int|
            nested && #[trigger] closes(s@, pos as int, e) && clean(s@, pos as int, e) ==> (
            r matches Ok((_ts, end)) && end == e + 1),
    decreases s@.len() - pos,
{
    let n = s.unicode_len();
    let mut tokens: Vec<Token> = Vec::new();
    let mut i: usize = pos;
    assert(s@.subrange(pos as int, pos as int) =~= Seq::<char>::empty());
    assert(tokens@ =~= Seq::<Token>::empty());
    while i < n
        invariant
            n == s@.len(),
            pos <= i <= n,
            render(tokens@) == instructions_of(s@.subrange(pos as int, i as int)),
            clean(s@, pos as int, i as int),
            never_below(s@, pos as int, i as int),
            depth(s@, pos as int, i as int) == 0,
            !nested && clean(s@, pos as int, n as int) && never_below(s@, pos as int, n as int)
                && depth(s@, pos as int, n as int) == 0 ==> depth(s@, pos as int, i as int) == 0,
            forall|e: int|
                nested && #[trigger] closes(s@, pos as int, e) && clean(s@, pos as int, e) ==> (
                i <= e && depth(s@, pos as int, i as int) == 0),
        decreases n - i,
    {
        let c = s.get_char(i);
        proof {
            lemma_instructions_step(s@, pos as int, i as int);
            lemma_depth_step(s@, pos as int, i as int);
        }
        let t = if c == '>' {
            Token::IncPtr
        } else if c == '<' {
            Token::DecPtr
        } else if c == '+' {
            Token::IncVal
        } else if c == '-' {
            Token::DecVal
        } else if c == '.' {
            Token::PutChar
        } else if c == ',' {
            Token::GetChar
        } else if c == '@' {
            Token::Debug
        } else if c == '[' {
            proof {
                let ghost top = !nested && clean(s@, pos as int, n as int) && never_below(
                    s@,
                    pos as int,
                    n as int,
                ) && depth(s@, pos as int, n as int) == 0;
                if top {
                    let k = lemma_first_close(s@, pos as int, i + 1, n as int);
                    lemma_close_inner(s@, pos as int, i as int, k, n as int);
                }
                assert forall|e: int|
                    nested && #[trigger] closes(s@, pos as int, e) && clean(
                        s@,
                        pos as int,
                        e,
                    ) implies exists|e2: int|
                    #[trigger] closes(s@, i + 1, e2) && clean(s@, i + 1, e2) && e2 + 1 <= e
                        && depth(s@, pos as int, e2 + 1) == 0 by {
                        lemma_depth_step(s@, pos as int, e);
                    let k = lemma_first_close(s@, pos as int, i + 1, e + 1);
                    lemma_close_inner(s@, pos as int, i as int, k, e);
                }
            }
            match tokenize_from(s, i + 1, true) {
                Err(e) => {
                    return Err(e);
                },
                Ok((body, end)) => {
                    proof {
                        lemma_nested_ok(s@, pos as int, i as int, end as int);
                        lemma_instructions_concat(s@, pos as int, i + 1, end as int);
                        assert(render_one(Token::Loop(body)) =~= seq!['['] + render(body@) + seq![
                            ']',
                        ]);
                        let ghost before = tokens@;
                        assert(tokens@.push(Token::Loop(body)).drop_last() =~= before);
                        assert(render(tokens@) + render_one(Token::Loop(body)) =~= instructions_of(
                            s@.subrange(pos as int, end as int),
                        ));
                    }
                    tokens.push(Token::Loop(body));
                    i = end;
                    continue;
                },
            }
        } else if c == ']' {
            if nested {
                assert(render(tokens@) + seq![']'] =~= instructions_of(
                    s@.subrange(pos as int, i + 1),
                ));
                return Ok((tokens, i + 1));
            } else {
                return Err(RunError::UnbalancedBrackets);
            }
        } else if is_white_space(c) {
            proof {
                lemma_plain_step(s@, pos as int, i as int);
            }
            i += 1;
            continue;
        } else {
            assert(stray(s@[i as int]));
            return Err(RunError::InvalidInstruction);
        };
        proof {
            let ghost before = tokens@;
            assert(before.push(t).drop_last() =~= before);
            assert(render_one(t) =~= seq![c]);
            lemma_plain_step(s@, pos as int, i as int);
        }
        tokens.push(t);
        i += 1;
        assert(render(tokens@) =~= instructions_of(s@.subrange(pos as int, i as int)));
    }
    if nested {
        return Err(RunError::UnbalancedBrackets);
    }
    Ok((tokens, n))
}

/// Reads a program text: its instructions, with whitespace between them skipped.
/// On success the tokens spell out exactly the text's instructions. It fails on
/// a character that is neither, or on brackets that do not pair up, and only then.
pub fn tokenize(src: &str) -> (r: Result<Vec<Token>, RunError>)
    ensures
        r is Ok <==> well_formed(src@),
        r matches Ok(ts) ==> render(ts@) == instructions_of(src@),
        r matches Err(e) ==> e == RunError::UnbalancedBrackets || (e == RunError::InvalidInstruction
            && exists|j: int| 0 <= j < src@.len() && stray(#[trigger] src@[j])),
{
    match tokenize_from(src, 0, false) {
        Err(e) => Err(e),
        Ok((ts, end)) => {
            proof {
                assert(render(ts@) + Seq::<char>::empty() =~= render(ts@));
                assert(src@.subrange(0, end as int) =~= src@);
            }
            Ok(ts)
        },
    }
}

/// The number of cells on the tape.
pub const TAPE_LEN: usize = 30000;

/// A copy of the tape and the data pointer, taken by the debug instruction.
pub struct Snapshot {
    pub ptr: usize,
    pub cells: Vec<u8>,
}

/// The state of the tape machine. `input[input_pos..]` is the input not yet read.
pub struct Machine {
    pub memory: Vec<u8>,
    pub ptr: usize,
    pub input: Vec<u8>,
    pub input_pos: usize,
    pub output: Vec<u8>,
    pub snapshots: Vec<Snapshot>,
}

/// The machine state as a mathematical value.
pub struct State {
    pub tape: Seq<u8>,
    pub ptr: int,
    pub input: Seq<u8>,
    pub output: Seq<u8>,
    pub snapshots: Seq<(int, Seq<u8>)>,
}

/// How a run ends.
pub enum Outcome {
    Done(State),
    Fault(RunError),
    OutOfFuel,
}

impl Machine {
    /// The pointer is on the tape and the read position within the input.
    pub open spec fn wf(&self) -> bool {
        &&& self.ptr < self.memory@.len()
        &&& self.input_pos <= self.input@.len()
    }

    /// The machine as a mathematical value.
    pub open spec fn state(&self) -> State {
        State {
            tape: self.memory@,
            ptr: self.ptr as int,
            input: self.input@.subrange(self.input_pos as int, self.input@.len() as int),
            output: self.output@,
            snapshots: self.snapshots@.map_values(|s: Snapshot| (s.ptr as int, s.cells@)),
        }
    }

    /// A machine with a zeroed tape of `TAPE_LEN` cells, the pointer on the first
    /// one, the given input and no output.
    pub fn new(input: Vec<u8>) -> (r: Self)
        ensures
            r.wf(),
            r.memory@ == Seq::new(TAPE_LEN as nat, |_i: int| 0u8),
            r.ptr == 0,
            r.input@ == input@,
            r.input_pos == 0,
            r.output@.len() == 0,
            r.snapshots@.len() == 0,
    {
        let mut memory: Vec<u8> = Vec::new();
        let mut i: usize = 0;
        while i < TAPE_LEN
            invariant
                i <= TAPE_LEN,
                memory@ == Seq::new(i as nat, |_i: int| 0u8),
            decreases TAPE_LEN - i,
        {
            memory.push(0);
            i += 1;
            assert(memory@ =~= Seq::new(i as nat, |_i: int| 0u8));
        }
        Machine {
            memory,
            ptr: 0,
            input,
            input_pos: 0,
            output: Vec::new(),
            snapshots: Vec::new(),
        }
    }
}

/// The effect of one instruction other than a loop.
pub open spec fn step(t: Token, st: State) -> Result<State, RunError> {
    let cell = st.tape[st.ptr];
    match t {
        Token::IncPtr => if st.ptr + 1 >= st.tape.len() {
            Err(RunError::PointerOutOfRange)
        } else {
            Ok(State { ptr: st.ptr + 1, ..st })
        },
        Token::DecPtr => if st.ptr == 0 {
            Err(RunError::PointerOutOfRange)
        } else {
            Ok(State { ptr: st.ptr - 1, ..st })
        },
        Token::IncVal => Ok(State { tape: st.tape.update(st.ptr, ((cell + 1) % 256) as u8), ..st }),
        Token::DecVal => Ok(
            State { tape: st.tape.update(st.ptr, ((cell + 255) % 256) as u8), ..st },
        ),
        Token::PutChar => Ok(State { output: st.output.push(cell), ..st }),
        Token::GetChar => if st.input.len() == 0 {
            Err(RunError::InputExhausted)
        } else {
            Ok(State { tape: st.tape.update(st.ptr, st.input[0]), input: st.input.drop_first(), ..st })
        },
        Token::Debug => Ok(State { snapshots: st.snapshots.push((st.ptr, st.tape)), ..st }),
        Token::Loop(_b) => Ok(st),
    }
}

/// Running `ts` from `st`. Each entry into a loop body spends one unit of `fuel`;
/// a loop on a nonzero cell runs its body and then itself again.
pub open spec fn exec(ts: Seq<Token>, st: State, fuel: nat) -> Outcome
    decreases fuel, ts.len(),
{
    if ts.len() == 0 {
        Outcome::Done(st)
    } else {
        match ts[0] {
            Token::Loop(body) => if fuel == 0 {
                Outcome::OutOfFuel
            } else if st.tape[st.ptr] == 0 {
                exec(ts.drop_first(), st, fuel)
            } else {
                match exec(body@, st, (fuel - 1) as nat) {
                    Outcome::Done(s2) => exec(ts, s2, (fuel - 1) as nat),
                    other => other,
                }
            },
            _ => match step(ts[0], st) {
                Ok(s2) => exec(ts.drop_first(), s2, fuel),
                Err(e) => Outcome::Fault(e),
            },
        }
    }
}

/// The run `o` ended as a call returned `r` with the machine in `m`.
pub open spec fn ended(o: Outcome, m: Machine, r: Result<(), RunError>) -> bool {
    match o {
        Outcome::Done(st) => r is Ok && m.state() == st && m.wf(),
        Outcome::Fault(e) => r == Err::<(), RunError>(e),
        Outcome::OutOfFuel => r == Err::<(), RunError>(RunError::OutOfFuel),
    }
}

impl Machine {
    /// Carries out one instruction other than a loop.
    fn step(&mut self, t: &Token) -> (r: Result<(), RunError>)
        requires
            old(self).wf(),
            !(t is Loop),
        ensures
            match step(*t, old(self).state()) {
                Ok(st) => r is Ok && final(self).state() == st && final(self).wf(),
                Err(e) => r == Err::<(), RunError>(e),
            },
    {
        let p = self.ptr;
        match t {
            Token::IncPtr => {
                if p >= self.memory.len() - 1 {
                    return Err(RunError::PointerOutOfRange);
                }
                self.ptr = p + 1;
            },
            Token::DecPtr => {
                if p == 0 {
                    return Err(RunError::PointerOutOfRange);
                }
                self.ptr = p - 1;
            },
            Token::IncVal => {
                let v = self.memory[p];
                self.memory.set(p, if v == 255 { 0 } else { v + 1 });
            },
            Token::DecVal => {
                let v = self.memory[p];
                self.memory.set(p, if v == 0 { 255 } else { v - 1 });
            },
            Token::PutChar => {
                let v = self.memory[p];
                self.output.push(v);
            },
            Token::GetChar => {
                if self.input_pos >= self.input.len() {
                    assert(old(self).state().input.len() == 0);
                    return Err(RunError::InputExhausted);
                }
                let v = self.input[self.input_pos];
                self.memory.set(p, v);
                self.input_pos = self.input_pos + 1;
                assert(self.state().input =~= old(self).state().input.drop_first());
            },
            Token::Debug => {
                let mut cells: Vec<u8> = Vec::new();
                let mut i: usize = 0;
                while i < self.memory.len()
                    invariant
                        i <= self.memory@.len(),
                        cells@ == self.memory@.subrange(0, i as int),
                    decreases self.memory@.len() - i,
                {
                    cells.push(self.memory[i]);
                    i += 1;
                    assert(cells@ =~= self.memory@.subrange(0, i as int));
                }
                assert(cells@ =~= self.memory@);
                let ghost snaps0 = self.snapshots@;
                self.snapshots.push(Snapshot { ptr: p, cells });
                assert(self.snapshots@.map_values(|s: Snapshot| (s.ptr as int, s.cells@))
                    =~= snaps0.map_values(|s: Snapshot| (s.ptr as int, s.cells@)).push(
                    (p as int, self.memory@),
                ));
            },
            Token::Loop(_b) => {},
        }
        assert(self.state() =~= step(*t, old(self).state()).unwrap());
        Ok(())
    }
}

/// The state in which a run starts: a zeroed tape, the pointer on its first
/// cell, all of `input` unread, nothing written.
pub open spec fn initial(input: Seq<u8>) -> State {
    State {
        tape: Seq::new(TAPE_LEN as nat, |_i: int| 0u8),
        ptr: 0,
        input,
        output: Seq::empty(),
        snapshots: Seq::empty(),
    }
}

/// Runs `tokens` on the machine with a budget of `fuel` loop passes.
pub fn interpret(tokens: &Vec<Token>, m: &mut Machine, fuel: u64) -> (r: Result<(), RunError>)
    requires
        old(m).wf(),
    ensures
        ended(exec(tokens@, old(m).state(), fuel as nat), *final(m), r),
    decreases fuel,
{
    let n = tokens.len();
    let mut f = fuel;
    let mut i: usize = 0;
    assert(tokens@.subrange(0, n as int) =~= tokens@);
    while i < n
        invariant
            n == tokens@.len(),
            i <= n,
            m.wf(),
            f <= fuel,
            exec(tokens@, old(m).state(), fuel as nat) == exec(
                tokens@.subrange(i as int, n as int),
                m.state(),
                f as nat,
            ),
        decreases n - i,
    {
        let ghost rest = tokens@.subrange(i as int, n as int);
        assert(rest[0] == tokens@[i as int]);
        assert(rest.drop_first() =~= tokens@.subrange(i + 1, n as int));
        match &tokens[i] {
            Token::Loop(body) => {
                loop
                    invariant
                        m.wf(),
                        f <= fuel,
                        n == tokens@.len(),
                        i < n,
                        rest == tokens@.subrange(i as int, n as int),
                        rest[0] == Token::Loop(*body),
                        exec(tokens@, old(m).state(), fuel as nat) == exec(rest, m.state(), f as nat),
                    ensures
                        m.wf(),
                        f <= fuel,
                        0 < f,
                        m.memory@[m.ptr as int] == 0,
                        exec(tokens@, old(m).state(), fuel as nat) == exec(rest, m.state(), f as nat),
                    decreases f,
                {
                    if f == 0 {
                        return Err(RunError::OutOfFuel);
                    }
                    if m.memory[m.ptr] == 0 {
                        break;
                    }
                    match interpret(body, m, f - 1) {
                        Ok(()) => {},
                        Err(e) => {
                            return Err(e);
                        },
                    }
                    f = f - 1;
                }
            },
            t => match m.step(t) {
                Ok(()) => {},
                Err(e) => {
                    return Err(e);
                },
            },
        }
        i += 1;
    }
    assert(tokens@.subrange(n as int, n as int) =~= Seq::<Token>::empty());
    Ok(())
}

/// The only faults of a run are the pointer leaving the tape and a read with no
/// input left.
pub proof fn lemma_exec_faults(ts: Seq<Token>, st: State, fuel: nat)
    ensures
        exec(ts, st, fuel) matches Outcome::Fault(e) ==> e == RunError::PointerOutOfRange || e
            == RunError::InputExhausted,
    decreases fuel, ts.len(),
{
    if ts.len() > 0 {
        match ts[0] {
            Token::Loop(body) => {
                if fuel > 0 && st.tape[st.ptr] != 0 {
                    lemma_exec_faults(body@, st, (fuel - 1) as nat);
                    match exec(body@, st, (fuel - 1) as nat) {
                        Outcome::Done(s2) => lemma_exec_faults(ts, s2, (fuel - 1) as nat),
                        _ => {},
                    }
                } else if fuel > 0 {
                    lemma_exec_faults(ts.drop_first(), st, fuel);
                }
            },
            _ => {
                match step(ts[0], st) {
                    Ok(s2) => lemma_exec_faults(ts.drop_first(), s2, fuel),
                    Err(_e) => {},
                }
            },
        }
    }
}

/// Reads and runs a program on `input`, with a budget of `fuel` loop passes,
/// and hands back the machine as the program left it. A well-formed text is
/// always run, and ends as the machine's semantics says.
pub fn run(src: &str, input: Vec<u8>, fuel: u64) -> (r: Result<Machine, RunError>)
    ensures
        well_formed(src@) ==> exists|ts: Seq<Token>|
            render(ts) == instructions_of(src@) && match #[trigger] exec(
                ts,
                initial(input@),
                fuel as nat,
            ) {
                Outcome::Done(st) => r matches Ok(m) && m.state() == st,
                Outcome::Fault(e) => r == Err::<Machine, RunError>(e),
                Outcome::OutOfFuel => r == Err::<Machine, RunError>(RunError::OutOfFuel),
            },
        r matches Err(e) && (e == RunError::UnbalancedBrackets || e == RunError::InvalidInstruction)
            <==> !well_formed(src@),
        r matches Ok(m) ==> exists|ts: Seq<Token>|
            render(ts) == instructions_of(src@) && #[trigger] exec(ts, initial(input@), fuel as nat)
                == Outcome::Done(m.state()),
{
    let tokens = match tokenize(src) {
        Ok(ts) => ts,
        Err(e) => {
            return Err(e);
        },
    };
    let ghost inp = input@;
    let mut m = Machine::new(input);
    assert(m.state().input =~= inp);
    assert(m.state().snapshots =~= Seq::<(int, Seq<u8>)>::empty());
    assert(m.state().output =~= Seq::<u8>::empty());
    assert(m.state() =~= initial(inp));
    proof {
        lemma_exec_faults(tokens@, initial(inp), fuel as nat);
    }
    let r = match interpret(&tokens, &mut m, fuel) {
        Ok(()) => Ok(m),
        Err(e) => Err(e),
    };
    assert(exec(tokens@, initial(inp), fuel as nat) == exec(tokens@, initial(inp), fuel as nat));
    r
}

} // verus!
