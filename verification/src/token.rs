use vstd::prelude::*;

verus! {

/// ASCII `+`.
pub const OPERATOR_PLUS: u8 = 43;

/// ASCII `-`.
pub const OPERATOR_MINUS: u8 = 45;

/// ASCII `*`.
pub const OPERATOR_MULTIPLY: u8 = 42;

/// ASCII `/`.
pub const OPERATOR_DIVIDE: u8 = 47;

/// ASCII `(`.
pub const LEFT_BRACE: u8 = 40;

/// ASCII `)`.
pub const RIGHT_BRACE: u8 = 41;

/// `b` is an ASCII decimal digit.
pub open spec fn is_digit_byte(b: u8) -> bool {
    48 <= b && b <= 57
}

/// `b` is one of the four binary operators `+ - * /`.
pub open spec fn is_operator_byte(b: u8) -> bool {
    b == OPERATOR_PLUS || b == OPERATOR_MINUS || b == OPERATOR_MULTIPLY || b == OPERATOR_DIVIDE
}

/// `b` is `(` or `)`.
pub open spec fn is_bracket_byte(b: u8) -> bool {
    b == LEFT_BRACE || b == RIGHT_BRACE
}

/// `b` is ASCII whitespace (space, tab, line feed, form feed, carriage
/// return).
pub open spec fn is_whitespace_byte(b: u8) -> bool {
    b == 32 || b == 9 || b == 10 || b == 12 || b == 13
}

/// `b` may appear in an expression: whitespace is skipped, digits build
/// numbers, operators and brackets stand for themselves.
pub open spec fn is_expression_byte(b: u8) -> bool {
    is_whitespace_byte(b) || is_digit_byte(b) || is_operator_byte(b) || is_bracket_byte(b)
}

/// A number token: a non-empty run of decimal digits.
pub open spec fn is_number_token(t: Seq<u8>) -> bool {
    t.len() > 0 && (forall|i: int| 0 <= i < t.len() ==> is_digit_byte(t[i]))
}

/// A well-formed token: a number, or a single operator or bracket byte.
pub open spec fn is_wf_token(t: Seq<u8>) -> bool {
    is_number_token(t) || (t.len() == 1 && (is_operator_byte(t[0]) || is_bracket_byte(t[0])))
}

/// Priority of a binary operator: `*` and `/` bind tighter (1) than
/// `+` and `-` (0). Meaningful only on operator bytes.
pub open spec fn spec_priority(b: u8) -> int {
    if b == OPERATOR_MULTIPLY || b == OPERATOR_DIVIDE {
        1
    } else {
        0
    }
}

/// The sequence of views of a vector of byte-string tokens.
pub open spec fn token_views(ts: Seq<Vec<u8>>) -> Seq<Seq<u8>> {
    Seq::new(ts.len(), |i: int| ts[i]@)
}

pub proof fn lemma_token_views_push(ts: Seq<Vec<u8>>, t: Vec<u8>)
    ensures
        token_views(ts.push(t)) == token_views(ts).push(t@),
{
    assert(token_views(ts.push(t)) =~= token_views(ts).push(t@));
}

pub proof fn lemma_token_views_drop_last(ts: Seq<Vec<u8>>)
    requires
        ts.len() > 0,
    ensures
        token_views(ts.drop_last()) == token_views(ts).drop_last(),
{
    assert(token_views(ts.drop_last()) =~= token_views(ts).drop_last());
}

/// Copy of a byte-string token, with the same bytes.
pub fn clone_token(token: &Vec<u8>) -> (r: Vec<u8>)
    ensures
        r@ == token@,
{
    let r = token.clone();
    proof {
        assert forall|i: int| 0 <= i < token@.len() implies r@[i] == token@[i] by {
            assert(cloned::<u8>(token@[i], r@[i]));
        }
        assert(r@ =~= token@);
    }
    r
}

/// `byte` is one of the four binary operators.
pub fn is_operator(byte: &u8) -> (r: bool)
    ensures
        r == is_operator_byte(*byte),
{
    *byte == OPERATOR_PLUS || *byte == OPERATOR_MINUS || *byte == OPERATOR_MULTIPLY
        || *byte == OPERATOR_DIVIDE
}

/// `byte` is an opening or closing parenthesis.
pub fn is_bracket(byte: &u8) -> (r: bool)
    ensures
        r == is_bracket_byte(*byte),
{
    *byte == LEFT_BRACE || *byte == RIGHT_BRACE
}

/// `byte` is an ASCII decimal digit.
pub fn is_digit(byte: &u8) -> (r: bool)
    ensures
        r == is_digit_byte(*byte),
{
    48 <= *byte && *byte <= 57
}

/// `byte` is ASCII whitespace.
pub fn is_whitespace(byte: &u8) -> (r: bool)
    ensures
        r == is_whitespace_byte(*byte),
{
    *byte == 32 || *byte == 9 || *byte == 10 || *byte == 12 || *byte == 13
}

/// Priority of an operator byte: `*` and `/` bind tighter than `+` and `-`.
pub fn priority(byte: &u8) -> (r: u8)
    ensures
        r as int == spec_priority(*byte),
{
    if *byte == OPERATOR_MULTIPLY || *byte == OPERATOR_DIVIDE {
        1
    } else {
        0
    }
}

} // verus!
