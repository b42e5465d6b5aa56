use vstd::prelude::*;

use crate::errors::TokenizeError;
use crate::token::is_bracket;
use crate::token::is_bracket_byte;
use crate::token::is_digit;
use crate::token::is_digit_byte;
use crate::token::is_expression_byte;
use crate::token::is_number_token;
use crate::token::is_operator;
use crate::token::is_operator_byte;
use crate::token::is_whitespace;
use crate::token::is_whitespace_byte;
use crate::token::is_wf_token;
use crate::token::lemma_token_views_push;
use crate::token::token_views;

verus! {

/// The token sequence of `s`, with `acc` the digits already collected
/// for the number being scanned. Whitespace is skipped; a digit joins
/// `acc`; an operator or bracket first flushes a non-empty `acc` as a
/// number token and then stands as a single-byte token of its own; at
/// the end of the input a non-empty `acc` is flushed. Meaningful only
/// when every byte of `s` is an expression byte.
pub open spec fn spec_tokens(s: Seq<u8>, acc: Seq<u8>) -> Seq<Seq<u8>>
    decreases s.len(),
{
    if s.len() == 0 {
        if acc.len() > 0 {
            seq![acc]
        } else {
            Seq::empty()
        }
    } else if is_whitespace_byte(s[0]) {
        spec_tokens(s.skip(1), acc)
    } else if is_digit_byte(s[0]) {
        spec_tokens(s.skip(1), acc.push(s[0]))
    } else if is_operator_byte(s[0]) || is_bracket_byte(s[0]) {
        (if acc.len() > 0 {
            seq![acc, seq![s[0]]]
        } else {
            seq![seq![s[0]]]
        }) + spec_tokens(s.skip(1), Seq::empty())
    } else {
        Seq::empty()
    }
}

/// Every token the scan produces is well formed: a non-empty digit run
/// or a single operator or bracket byte.
pub proof fn lemma_spec_tokens_wf(s: Seq<u8>, acc: Seq<u8>)
    requires
        forall|j: int| 0 <= j < s.len() ==> is_expression_byte(s[j]),
        forall|j: int| 0 <= j < acc.len() ==> is_digit_byte(acc[j]),
    ensures
        forall|k: int|
            0 <= k < spec_tokens(s, acc).len() ==> is_wf_token(spec_tokens(s, acc)[k]),
    decreases s.len(),
{
    if s.len() == 0 {
        if acc.len() > 0 {
            assert(is_number_token(acc));
        }
    } else {
        assert(is_expression_byte(s[0]));
        assert(forall|j: int|
            0 <= j < s.skip(1).len() ==> is_expression_byte(s.skip(1)[j]));
        if is_whitespace_byte(s[0]) {
            lemma_spec_tokens_wf(s.skip(1), acc);
            assert(spec_tokens(s, acc) == spec_tokens(s.skip(1), acc));
        } else if is_digit_byte(s[0]) {
            assert(forall|j: int|
                0 <= j < acc.push(s[0]).len() ==> is_digit_byte(acc.push(s[0])[j]));
            lemma_spec_tokens_wf(s.skip(1), acc.push(s[0]));
            assert(spec_tokens(s, acc) == spec_tokens(s.skip(1), acc.push(s[0])));
        } else {
            lemma_spec_tokens_wf(s.skip(1), Seq::empty());
            let front = if acc.len() > 0 {
                seq![acc, seq![s[0]]]
            } else {
                seq![seq![s[0]]]
            };
            let rest = spec_tokens(s.skip(1), Seq::<u8>::empty());
            if acc.len() > 0 {
                assert(is_number_token(acc));
            }
            assert(is_wf_token(seq![s[0]]));
            assert(spec_tokens(s, acc) == front + rest);
            assert(forall|k: int| 0 <= k < front.len() ==> is_wf_token(front[k]));
            assert(forall|k: int|
                0 <= k < (front + rest).len() ==> is_wf_token((front + rest)[k]));
        }
    }
}

/// Scan an ASCII expression into byte-string tokens.
///
/// Succeeds exactly when every byte of the input is an expression byte
/// (digit, operator, bracket or whitespace); the tokens are then the
/// maximal digit runs and the single operator and bracket bytes, in
/// input order, and every token is well formed. Otherwise the error
/// carries the first byte outside the alphabet and its position.
pub fn tokens_from_ascii(expression_ascii: &[u8]) -> (r: Result<
    Vec<Vec<u8>>,
    TokenizeError,
>)
    ensures
        match r {
            Ok(tokens) => {
                &&& forall|j: int|
                    0 <= j < expression_ascii@.len() ==> is_expression_byte(
                        expression_ascii@[j],
                    )
                &&& token_views(tokens@) == spec_tokens(
                    expression_ascii@,
                    Seq::<u8>::empty(),
                )
                &&& forall|k: int|
                    0 <= k < tokens@.len() ==> is_wf_token(token_views(tokens@)[k])
            },
            Err(e) => match e {
                TokenizeError::UnexpectedSymbol { symbol, position } => {
                    &&& position < expression_ascii@.len()
                    &&& symbol == expression_ascii@[position as int]
                    &&& !is_expression_byte(symbol)
                    &&& forall|j: int|
                        0 <= j < position ==> is_expression_byte(expression_ascii@[j])
                },
            },
        },
{
    let mut tokens_ascii: Vec<Vec<u8>> = Vec::new();
    let mut number: Vec<u8> = Vec::new();
    let n: usize = expression_ascii.len();
    let mut i: usize = 0;

    proof {
        assert(expression_ascii@.skip(0) =~= expression_ascii@);
        assert(number@ =~= Seq::<u8>::empty());
        assert(token_views(tokens_ascii@) + spec_tokens(expression_ascii@, Seq::<u8>::empty())
            =~= spec_tokens(expression_ascii@, Seq::<u8>::empty()));
    }

    while i < n
        invariant
            i <= n,
            n == expression_ascii@.len(),
            forall|j: int| 0 <= j < i ==> is_expression_byte(expression_ascii@[j]),
            forall|j: int| 0 <= j < number@.len() ==> is_digit_byte(number@[j]),
            token_views(tokens_ascii@) + spec_tokens(expression_ascii@.skip(i as int), number@)
                == spec_tokens(expression_ascii@, Seq::<u8>::empty()),
        decreases n - i,
    {
        let byte: u8 = expression_ascii[i];
        proof {
            assert(expression_ascii@.skip(i as int).skip(1) =~= expression_ascii@.skip(
                i as int + 1,
            ));
            assert(expression_ascii@.skip(i as int)[0] == expression_ascii@[i as int]);
        }
        if is_whitespace(&byte) {
            proof {
                assert(spec_tokens(expression_ascii@.skip(i as int), number@) == spec_tokens(
                    expression_ascii@.skip(i as int + 1),
                    number@,
                ));
            }
        } else if is_digit(&byte) {
            proof {
                assert(spec_tokens(expression_ascii@.skip(i as int), number@) == spec_tokens(
                    expression_ascii@.skip(i as int + 1),
                    number@.push(byte),
                ));
            }
            number.push(byte);
        } else if is_operator(&byte) || is_bracket(&byte) {
            let ghost old_tokens = tokens_ascii@;
            let ghost old_acc = number@;
            let ghost rest = spec_tokens(
                expression_ascii@.skip(i as int + 1),
                Seq::<u8>::empty(),
            );
            let ghost front = if old_acc.len() > 0 {
                seq![old_acc, seq![byte]]
            } else {
                seq![seq![byte]]
            };
            proof {
                assert(spec_tokens(expression_ascii@.skip(i as int), old_acc) == front + rest);
            }
            if number.len() > 0 {
                tokens_ascii.push(number);
                number = Vec::new();
            }
            let mut single: Vec<u8> = Vec::new();
            single.push(byte);
            tokens_ascii.push(single);
            proof {
                if old_acc.len() > 0 {
                    assert(tokens_ascii@.len() == old_tokens.len() + 2);
                    assert(tokens_ascii@[old_tokens.len() as int]@ == old_acc);
                    assert(tokens_ascii@[old_tokens.len() as int + 1]@ =~= seq![byte]);
                    assert(forall|j: int|
                        0 <= j < old_tokens.len() ==> tokens_ascii@[j] == old_tokens[j]);
                } else {
                    assert(tokens_ascii@.len() == old_tokens.len() + 1);
                    assert(tokens_ascii@[old_tokens.len() as int]@ =~= seq![byte]);
                    assert(forall|j: int|
                        0 <= j < old_tokens.len() ==> tokens_ascii@[j] == old_tokens[j]);
                }
                assert(number@ =~= Seq::<u8>::empty());
                assert(token_views(tokens_ascii@) =~= token_views(old_tokens) + front);
                assert((token_views(old_tokens) + front) + rest =~= token_views(old_tokens) + (
                front + rest));
                assert(token_views(tokens_ascii@) + spec_tokens(
                    expression_ascii@.skip(i as int + 1),
                    number@,
                ) == spec_tokens(expression_ascii@, Seq::<u8>::empty()));
            }
        } else {
            return Err(TokenizeError::UnexpectedSymbol { symbol: byte, position: i });
        }
        i = i + 1;
    }

    proof {
        assert(expression_ascii@.skip(n as int) =~= Seq::<u8>::empty());
    }
    if number.len() > 0 {
        proof {
            lemma_token_views_push(tokens_ascii@, number);
            assert(spec_tokens(expression_ascii@.skip(n as int), number@) == seq![number@]);
            assert(token_views(tokens_ascii@).push(number@) =~= token_views(tokens_ascii@)
                + seq![number@]);
        }
        tokens_ascii.push(number);
    } else {
        proof {
            assert(spec_tokens(expression_ascii@.skip(n as int), number@)
                =~= Seq::<Seq<u8>>::empty());
            assert(token_views(tokens_ascii@) + Seq::<Seq<u8>>::empty() =~= token_views(
                tokens_ascii@,
            ));
        }
    }
    proof {
        lemma_spec_tokens_wf(expression_ascii@, Seq::<u8>::empty());
    }
    Ok(tokens_ascii)
}

} // verus!
