use vstd::prelude::*;
use crate::syntax::same;

verus! {

pub open spec fn digit(c: char) -> bool {
    '0' <= c && c <= '9'
}

/// The value of a string of decimal digits.
pub open spec fn decimal(s: Seq<char>) -> int
    decreases s.len(),
{
    if s.len() == 0 {
        0
    } else {
        decimal(s.drop_last()) * 10 + (s.last() as int - '0' as int)
    }
}

/// The value of a decimal number literal, where it is one and fits in a `usize`.
pub open spec fn number_value(s: Seq<char>) -> Option<int> {
    if s.len() > 0 && (forall|i: int| 0 <= i < s.len() ==> digit(#[trigger] s[i])) && decimal(s)
        <= usize::MAX {
        Some(decimal(s))
    } else {
        None
    }
}

pub proof fn lemma_decimal_grows(s: Seq<char>, i: int)
    requires
        0 <= i <= s.len(),
        forall|j: int| 0 <= j < s.len() ==> digit(#[trigger] s[j]),
    ensures
        decimal(s.subrange(0, i)) <= decimal(s),
        decimal(s) >= 0,
    decreases s.len(),
{
    if s.len() > 0 {
        let d = s.drop_last();
        assert forall|j: int| 0 <= j < d.len() implies digit(#[trigger] d[j]) by {
            assert(d[j] == s[j]);
        }
        if i == s.len() {
            assert(s.subrange(0, i) =~= s);
            lemma_decimal_grows(d, 0);
        } else {
            assert(s.subrange(0, i) =~= d.subrange(0, i));
            lemma_decimal_grows(d, i);
        }
    } else {
        assert(s.subrange(0, i) =~= s);
    }
}

/// Reads a decimal number literal.
pub fn parse_number(text: &String) -> (r: Option<usize>)
    ensures
        r matches Some(v) ==> number_value(text@) == Some(v as int),
        r is None ==> number_value(text@) is None,
{
    let s = text.as_str();
    let n = s.unicode_len();
    if n == 0 {
        return None;
    }
    let mut i: usize = 0;
    let mut v: usize = 0;
    while i < n
        invariant
            n == s@.len(),
            s@ == text@,
            i <= n,
            forall|j: int| 0 <= j < i ==> digit(#[trigger] s@[j]),
            v as int == decimal(s@.subrange(0, i as int)),
        decreases n - i,
    {
        let c = s.get_char(i);
        if c < '0' || c > '9' {
            return None;
        }
        let d = (c as u32 - '0' as u32) as usize;
        assert(s@.subrange(0, i + 1).drop_last() =~= s@.subrange(0, i as int));
        if v > (usize::MAX - d) / 10 {
            proof {
                assert forall|j: int| 0 <= j < i + 1 implies digit(
                    #[trigger] s@.subrange(0, i + 1)[j],
                ) by {}
                if forall|j: int| 0 <= j < s@.len() ==> digit(#[trigger] s@[j]) {
                    lemma_decimal_grows(s@, i + 1);
                }
                assert(decimal(s@.subrange(0, i + 1)) == v * 10 + d) by (nonlinear_arith)
                    requires
                        decimal(s@.subrange(0, i + 1)) == decimal(s@.subrange(0, i as int)) * 10
                            + d,
                        v == decimal(s@.subrange(0, i as int)),
                ;
                assert(v * 10 + d > usize::MAX) by (nonlinear_arith)
                    requires
                        v > (usize::MAX - d) / 10,
                        d <= 9,
                ;
            }
            return None;
        }
        assert(v * 10 + d <= usize::MAX) by (nonlinear_arith)
            requires
                v <= (usize::MAX - d) / 10,
                d <= 9,
        ;
        v = v * 10 + d;
        i += 1;
    }
    assert(s@.subrange(0, n as int) =~= s@);
    Some(v)
}

/// The character code that a simple escape sequence stands for.
pub open spec fn escape_value(s: Seq<char>) -> Option<int> {
    if s == "\\'"@ {
        Some(39)
    } else if s == "\\\""@ {
        Some(34)
    } else if s == "\\?"@ {
        Some(63)
    } else if s == "\\\\"@ {
        Some(92)
    } else if s == "\\a"@ {
        Some(7)
    } else if s == "\\b"@ {
        Some(8)
    } else if s == "\\f"@ {
        Some(12)
    } else if s == "\\n"@ {
        Some(10)
    } else if s == "\\r"@ {
        Some(13)
    } else if s == "\\t"@ {
        Some(9)
    } else if s == "\\v"@ {
        Some(11)
    } else {
        None
    }
}

/// Reads a simple escape sequence; numeric and universal escapes are not supported.
pub fn parse_escape(text: &String) -> (r: Option<usize>)
    ensures
        r matches Some(v) ==> escape_value(text@) == Some(v as int),
        r is None ==> escape_value(text@) is None,
{
    if same(text, "\\'") {
        Some(39)
    } else if same(text, "\\\"") {
        Some(34)
    } else if same(text, "\\?") {
        Some(63)
    } else if same(text, "\\\\") {
        Some(92)
    } else if same(text, "\\a") {
        Some(7)
    } else if same(text, "\\b") {
        Some(8)
    } else if same(text, "\\f") {
        Some(12)
    } else if same(text, "\\n") {
        Some(10)
    } else if same(text, "\\r") {
        Some(13)
    } else if same(text, "\\t") {
        Some(9)
    } else if same(text, "\\v") {
        Some(11)
    } else {
        None
    }
}

} // verus!
