use vstd::prelude::*;

verus! {

/// A node of a concrete syntax tree, as a grammar-driven parser produces it.
pub struct SyntaxNode {
    /// The grammar rule that produced the node (`binary_expression`, ...).
    pub kind: String,
    /// The exact source text that the node spans.
    pub text: String,
    /// Children reachable by a role name (`declarator`, `condition`, ...), in source order.
    pub fields: Vec<(String, SyntaxNode)>,
    /// The named children, in source order.
    pub children: Vec<SyntaxNode>,
}

/// Index of the first field child from `i` on whose role is `name`, or -1.
pub open spec fn find_field(fs: Seq<(String, SyntaxNode)>, name: Seq<char>, i: int) -> int
    decreases fs.len() - i,
{
    if i < 0 || i >= fs.len() {
        -1
    } else if fs[i].0@ == name {
        i
    } else {
        find_field(fs, name, i + 1)
    }
}

/// The node has a child in the role `name`.
pub open spec fn has_field(n: SyntaxNode, name: Seq<char>) -> bool {
    0 <= find_field(n.fields@, name, 0) < n.fields@.len()
}

/// The first child of `n` in the role `name` (meaningful where `has_field(n, name)`).
pub open spec fn child(n: SyntaxNode, name: Seq<char>) -> SyntaxNode {
    n.fields@[find_field(n.fields@, name, 0)].1
}

/// The node's kind is `k`.
pub open spec fn kind_is(n: SyntaxNode, k: &str) -> bool {
    n.kind@ == k@
}

proof fn lemma_find_field_range(fs: Seq<(String, SyntaxNode)>, name: Seq<char>, i: int)
    ensures
        find_field(fs, name, i) == -1 || (i <= find_field(fs, name, i) < fs.len()),
    decreases fs.len() - i,
{
    if 0 <= i < fs.len() && fs[i].0@ != name {
        lemma_find_field_range(fs, name, i + 1);
    }
}

/// Compares a string with a literal, character by character.
pub fn same(s: &String, lit: &str) -> (r: bool)
    ensures
        r == (s@ == lit@),
{
    let a = s.as_str();
    let n = a.unicode_len();
    if n != lit.unicode_len() {
        return false;
    }
    let mut i: usize = 0;
    while i < n
        invariant
            n == a@.len(),
            n == lit@.len(),
            a@ == s@,
            i <= n,
            forall|j: int| 0 <= j < i ==> a@[j] == lit@[j],
        decreases n - i,
    {
        if a.get_char(i) != lit.get_char(i) {
            return false;
        }
        i += 1;
    }
    assert(s@ =~= lit@);
    true
}

/// The child of `n` in the role `name`, if any.
pub fn field<'a>(n: &'a SyntaxNode, name: &str) -> (r: Option<&'a SyntaxNode>)
    ensures
        r is Some <==> has_field(*n, name@),
        r is Some ==> *r->0 == child(*n, name@),
{
    let mut i: usize = 0;
    while i < n.fields.len()
        invariant
            i <= n.fields@.len(),
            find_field(n.fields@, name@, 0) == find_field(n.fields@, name@, i as int),
        decreases n.fields.len() - i,
    {
        if same(&n.fields[i].0, name) {
            return Some(&n.fields[i].1);
        }
        i += 1;
    }
    proof {
        lemma_find_field_range(n.fields@, name@, 0);
    }
    None
}

/// Statement kinds of the C grammar.
pub open spec fn statement_kind(k: Seq<char>) -> bool {
    ||| k == "attributed_statement"@
    ||| k == "break_statement"@
    ||| k == "case_statement"@
    ||| k == "compound_statement"@
    ||| k == "continue_statement"@
    ||| k == "do_statement"@
    ||| k == "expression_statement"@
    ||| k == "for_statement"@
    ||| k == "goto_statement"@
    ||| k == "if_statement"@
    ||| k == "labeled_statement"@
    ||| k == "return_statement"@
    ||| k == "seh_leave_statement"@
    ||| k == "seh_try_statement"@
    ||| k == "switch_statement"@
    ||| k == "while_statement"@
}

/// Expression kinds of the C grammar.
pub open spec fn expression_kind(k: Seq<char>) -> bool {
    ||| k == "alignof_expression"@
    ||| k == "assignment_expression"@
    ||| k == "binary_expression"@
    ||| k == "call_expression"@
    ||| k == "cast_expression"@
    ||| k == "char_literal"@
    ||| k == "compound_literal_expression"@
    ||| k == "concatenated_string"@
    ||| k == "conditional_expression"@
    ||| k == "extension_expression"@
    ||| k == "false"@
    ||| k == "field_expression"@
    ||| k == "generic_expression"@
    ||| k == "gnu_asm_expression"@
    ||| k == "identifier"@
    ||| k == "null"@
    ||| k == "number_literal"@
    ||| k == "offsetof_expression"@
    ||| k == "parenthesized_expression"@
    ||| k == "pointer_expression"@
    ||| k == "sizeof_expression"@
    ||| k == "string_literal"@
    ||| k == "subscript_expression"@
    ||| k == "true"@
    ||| k == "unary_expression"@
    ||| k == "update_expression"@
}

/// Whether `kind` names a statement of the C grammar.
pub fn is_statement(kind: &String) -> (r: bool)
    ensures
        r == statement_kind(kind@),
{
    same(kind, "attributed_statement") || same(kind, "break_statement") || same(
        kind,
        "case_statement",
    ) || same(kind, "compound_statement") || same(kind, "continue_statement") || same(
        kind,
        "do_statement",
    ) || same(kind, "expression_statement") || same(kind, "for_statement") || same(
        kind,
        "goto_statement",
    ) || same(kind, "if_statement") || same(kind, "labeled_statement") || same(
        kind,
        "return_statement",
    ) || same(kind, "seh_leave_statement") || same(kind, "seh_try_statement") || same(
        kind,
        "switch_statement",
    ) || same(kind, "while_statement")
}

/// Whether `kind` names an expression of the C grammar.
pub fn is_expression(kind: &String) -> (r: bool)
    ensures
        r == expression_kind(kind@),
{
    same(kind, "alignof_expression") || same(kind, "assignment_expression") || same(
        kind,
        "binary_expression",
    ) || same(kind, "call_expression") || same(kind, "cast_expression") || same(
        kind,
        "char_literal",
    ) || same(kind, "compound_literal_expression") || same(kind, "concatenated_string")
        || same(kind, "conditional_expression") || same(kind, "extension_expression") || same(
        kind,
        "false",
    ) || same(kind, "field_expression") || same(kind, "generic_expression") || same(
        kind,
        "gnu_asm_expression",
    ) || same(kind, "identifier") || same(kind, "null") || same(kind, "number_literal")
        || same(kind, "offsetof_expression") || same(kind, "parenthesized_expression") || same(
        kind,
        "pointer_expression",
    ) || same(kind, "sizeof_expression") || same(kind, "string_literal") || same(
        kind,
        "subscript_expression",
    ) || same(kind, "true") || same(kind, "unary_expression") || same(
        kind,
        "update_expression",
    )
}

} // verus!
