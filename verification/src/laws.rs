use vstd::prelude::*;

use crate::errors::EvaluationError;
use crate::eval::spec_rpn_scan;
use crate::eval::spec_validate;
use crate::postfix::all_stack_entries;
use crate::postfix::is_stack_entry;
use crate::postfix::spec_drain;
use crate::postfix::spec_pop_higher;
use crate::postfix::spec_pop_until_left;
use crate::postfix::spec_shunt;
use crate::postfix::spec_to_postfix;
use crate::token::is_digit_byte;
use crate::token::is_number_token;
use crate::token::is_operator_byte;
use crate::token::is_wf_token;
use crate::token::spec_priority;
use crate::token::LEFT_BRACE;
use crate::token::RIGHT_BRACE;

verus! {

/// Syntactic validity of an infix token sequence, read left to right:
/// `expect` is true where an operand (a number or `(`) must come next,
/// false where an operator or `)` may; `depth` counts open parentheses.
/// A valid expression ends expecting nothing further and with every
/// parenthesis closed.
pub open spec fn infix_ok(tokens: Seq<Seq<u8>>, expect: bool, depth: nat) -> bool
    decreases tokens.len(),
{
    if tokens.len() == 0 {
        !expect && depth == 0
    } else {
        let t = tokens[0];
        if t.len() == 0 {
            false
        } else if is_digit_byte(t[0]) {
            expect && infix_ok(tokens.skip(1), false, depth)
        } else if t[0] == LEFT_BRACE {
            expect && infix_ok(tokens.skip(1), true, depth + 1)
        } else if t[0] == RIGHT_BRACE {
            !expect && depth > 0 && infix_ok(tokens.skip(1), false, (depth - 1) as nat)
        } else if is_operator_byte(t[0]) {
            !expect && infix_ok(tokens.skip(1), true, depth)
        } else {
            false
        }
    }
}

/// A syntactically valid infix expression: balanced parentheses, and
/// numbers alternating with binary operators.
pub open spec fn is_valid_infix(tokens: Seq<Seq<u8>>) -> bool {
    infix_ok(tokens, true, 0)
}

/// How many operator tokens the converter's stack holds.
pub open spec fn count_operators(stack: Seq<Seq<u8>>) -> nat
    decreases stack.len(),
{
    if stack.len() == 0 {
        0
    } else {
        count_operators(stack.drop_last()) + (if is_operator_byte(stack.last()[0]) {
            1nat
        } else {
            0nat
        })
    }
}

/// How many `(` tokens the converter's stack holds.
pub open spec fn count_braces(stack: Seq<Seq<u8>>) -> nat
    decreases stack.len(),
{
    if stack.len() == 0 {
        0
    } else {
        count_braces(stack.drop_last()) + (if stack.last()[0] == LEFT_BRACE {
            1nat
        } else {
            0nat
        })
    }
}

/// Appending a number token to a postfix sequence whose walk succeeds
/// leaves a walk that succeeds with one more value on the stack.
pub proof fn lemma_scan_push_number(s: Seq<Seq<u8>>, t: Seq<u8>, c: nat, k: nat)
    requires
        spec_rpn_scan(s, c) == Ok::<nat, EvaluationError>(k),
        is_number_token(t),
    ensures
        spec_rpn_scan(s.push(t), c) == Ok::<nat, EvaluationError>(k + 1),
    decreases s.len(),
{
    assert(is_digit_byte(t[0]));
    if s.len() == 0 {
        assert(s.push(t) =~= seq![t]);
        assert(seq![t][0] == t);
        assert(seq![t].skip(1) =~= Seq::<Seq<u8>>::empty());
        assert(spec_rpn_scan(Seq::<Seq<u8>>::empty(), c + 1) == Ok::<nat, EvaluationError>(
            c + 1,
        ));
        assert(spec_rpn_scan(seq![t], c) == Ok::<nat, EvaluationError>(c + 1));
    } else {
        assert(s.push(t).skip(1) =~= s.skip(1).push(t));
        assert(s.push(t)[0] == s[0]);
        let h = s[0];
        if h.len() == 0 {
            assert(false);
        } else if is_digit_byte(h[0]) {
            lemma_scan_push_number(s.skip(1), t, c + 1, k);
        } else {
            assert(c >= 2);
            lemma_scan_push_number(s.skip(1), t, (c - 1) as nat, k);
        }
    }
}

/// Appending an operator token to a postfix sequence whose walk leaves
/// at least two values consumes two of them and pushes the result.
pub proof fn lemma_scan_push_operator(s: Seq<Seq<u8>>, t: Seq<u8>, c: nat, k: nat)
    requires
        spec_rpn_scan(s, c) == Ok::<nat, EvaluationError>(k),
        k >= 2,
        t.len() > 0,
        !is_digit_byte(t[0]),
    ensures
        spec_rpn_scan(s.push(t), c) == Ok::<nat, EvaluationError>((k - 1) as nat),
    decreases s.len(),
{
    if s.len() == 0 {
        assert(s.push(t) =~= seq![t]);
        assert(seq![t][0] == t);
        assert(seq![t].skip(1) =~= Seq::<Seq<u8>>::empty());
        assert(spec_rpn_scan(Seq::<Seq<u8>>::empty(), (c - 1) as nat) == Ok::<
            nat,
            EvaluationError,
        >((c - 1) as nat));
        assert(spec_rpn_scan(seq![t], c) == Ok::<nat, EvaluationError>((c - 1) as nat));
    } else {
        assert(s.push(t).skip(1) =~= s.skip(1).push(t));
        assert(s.push(t)[0] == s[0]);
        let h = s[0];
        if h.len() == 0 {
            assert(false);
        } else if is_digit_byte(h[0]) {
            lemma_scan_push_operator(s.skip(1), t, c + 1, k);
        } else {
            assert(c >= 2);
            lemma_scan_push_operator(s.skip(1), t, (c - 1) as nat, k);
        }
    }
}

/// Popping operators of priority at least `p` keeps the walk of the
/// output successful, keeps every stack entry well placed, and moves
/// each popped operator's pending consumption from the stack to the
/// output.
proof fn lemma_pop_higher_props(stack: Seq<Seq<u8>>, out: Seq<Seq<u8>>, p: int, c: nat)
    requires
        all_stack_entries(stack),
        spec_rpn_scan(out, 0) == Ok::<nat, EvaluationError>(c),
        c == count_operators(stack) + 1,
    ensures
        all_stack_entries(spec_pop_higher(stack, out, p).0),
        count_braces(spec_pop_higher(stack, out, p).0) == count_braces(stack),
        spec_rpn_scan(spec_pop_higher(stack, out, p).1, 0) == Ok::<nat, EvaluationError>(
            count_operators(spec_pop_higher(stack, out, p).0) + 1,
        ),
    decreases stack.len(),
{
    if stack.len() == 0 {
    } else if is_operator_byte(stack.last()[0]) && spec_priority(stack.last()[0]) >= p {
        let t = stack.last();
        assert(is_stack_entry(stack[stack.len() - 1]));
        assert(count_operators(stack) == count_operators(stack.drop_last()) + 1);
        assert(!is_digit_byte(t[0]));
        lemma_scan_push_operator(out, t, 0, c);
        assert(forall|j: int|
            0 <= j < stack.drop_last().len() ==> stack.drop_last()[j] == stack[j]);
        assert(all_stack_entries(stack.drop_last()));
        lemma_pop_higher_props(stack.drop_last(), out.push(t), p, (c - 1) as nat);
    } else {
    }
}

/// Popping to the matching `(` succeeds whenever the stack holds one,
/// discards it, and keeps the walk of the output successful.
proof fn lemma_pop_until_props(stack: Seq<Seq<u8>>, out: Seq<Seq<u8>>, c: nat)
    requires
        all_stack_entries(stack),
        spec_rpn_scan(out, 0) == Ok::<nat, EvaluationError>(c),
        c == count_operators(stack) + 1,
        count_braces(stack) > 0,
    ensures
        spec_pop_until_left(stack, out) is Some,
        spec_pop_until_left(stack, out) matches Some(so) ==> {
            &&& all_stack_entries(so.0)
            &&& count_braces(so.0) == count_braces(stack) - 1
            &&& spec_rpn_scan(so.1, 0) == Ok::<nat, EvaluationError>(
                count_operators(so.0) + 1,
            )
        },
    decreases stack.len(),
{
    assert(stack.len() > 0);
    assert(is_stack_entry(stack[stack.len() - 1]));
    let t = stack.last();
    assert(forall|j: int|
        0 <= j < stack.drop_last().len() ==> stack.drop_last()[j] == stack[j]);
    assert(all_stack_entries(stack.drop_last()));
    if t[0] == LEFT_BRACE {
        assert(count_operators(stack) == count_operators(stack.drop_last()));
        assert(count_braces(stack) == count_braces(stack.drop_last()) + 1);
    } else {
        assert(is_operator_byte(t[0]));
        assert(count_operators(stack) == count_operators(stack.drop_last()) + 1);
        assert(count_braces(stack) == count_braces(stack.drop_last()));
        assert(!is_digit_byte(t[0]));
        lemma_scan_push_operator(out, t, 0, c);
        lemma_pop_until_props(stack.drop_last(), out.push(t), (c - 1) as nat);
    }
}

/// Draining a stack with no `(` left on it succeeds and leaves a
/// postfix sequence whose walk ends with exactly one value.
proof fn lemma_drain_props(stack: Seq<Seq<u8>>, out: Seq<Seq<u8>>, c: nat)
    requires
        all_stack_entries(stack),
        spec_rpn_scan(out, 0) == Ok::<nat, EvaluationError>(c),
        c == count_operators(stack) + 1,
        count_braces(stack) == 0,
    ensures
        spec_drain(stack, out) is Ok,
        spec_drain(stack, out) matches Ok(res) ==> spec_rpn_scan(res, 0) == Ok::<
            nat,
            EvaluationError,
        >(1),
    decreases stack.len(),
{
    if stack.len() == 0 {
    } else {
        assert(is_stack_entry(stack[stack.len() - 1]));
        let t = stack.last();
        assert(t[0] != LEFT_BRACE) by {
            if t[0] == LEFT_BRACE {
                assert(count_braces(stack) == count_braces(stack.drop_last()) + 1);
            }
        }
        assert(is_operator_byte(t[0]));
        assert(count_operators(stack) == count_operators(stack.drop_last()) + 1);
        assert(count_braces(stack) == count_braces(stack.drop_last()));
        assert(!is_digit_byte(t[0]));
        lemma_scan_push_operator(out, t, 0, c);
        assert(forall|j: int|
            0 <= j < stack.drop_last().len() ==> stack.drop_last()[j] == stack[j]);
        assert(all_stack_entries(stack.drop_last()));
        lemma_drain_props(stack.drop_last(), out.push(t), (c - 1) as nat);
    }
}

/// The shunting-yard invariant: while the remaining input is valid
/// infix for the current state, the output walks without fault, each
/// operator still on the stack will consume one value when it is
/// emitted, and the stack holds exactly `depth` open parentheses.
proof fn lemma_shunt_preserves(
    tokens: Seq<Seq<u8>>,
    stack: Seq<Seq<u8>>,
    out: Seq<Seq<u8>>,
    expect: bool,
    depth: nat,
    c: nat,
)
    requires
        forall|k: int| 0 <= k < tokens.len() ==> is_wf_token(tokens[k]),
        infix_ok(tokens, expect, depth),
        all_stack_entries(stack),
        spec_rpn_scan(out, 0) == Ok::<nat, EvaluationError>(c),
        c == count_operators(stack) + (if expect {
            0nat
        } else {
            1nat
        }),
        count_braces(stack) == depth,
    ensures
        spec_shunt(tokens, stack, out) is Ok,
        spec_shunt(tokens, stack, out) matches Ok(res) ==> spec_validate(res) == Ok::<
            (),
            EvaluationError,
        >(()),
    decreases tokens.len(),
{
    if tokens.len() == 0 {
        lemma_drain_props(stack, out, c);
    } else {
        let t = tokens[0];
        assert(is_wf_token(tokens[0]));
        assert(forall|k: int|
            0 <= k < tokens.skip(1).len() ==> is_wf_token(tokens.skip(1)[k]));
        assert(t.len() > 0);
        if is_digit_byte(t[0]) {
            assert(is_number_token(t));
            lemma_scan_push_number(out, t, 0, c);
            lemma_shunt_preserves(tokens.skip(1), stack, out.push(t), false, depth, c + 1);
        } else if t[0] == LEFT_BRACE {
            assert(stack.push(t).drop_last() =~= stack);
            assert(stack.push(t).last() == t);
            assert(forall|j: int| 0 <= j < stack.len() ==> stack.push(t)[j] == stack[j]);
            assert(is_stack_entry(t));
            assert(all_stack_entries(stack.push(t)));
            assert(count_operators(stack.push(t)) == count_operators(stack));
            assert(count_braces(stack.push(t)) == count_braces(stack) + 1);
            lemma_shunt_preserves(tokens.skip(1), stack.push(t), out, true, depth + 1, c);
        } else if t[0] == RIGHT_BRACE {
            lemma_pop_until_props(stack, out, c);
            match spec_pop_until_left(stack, out) {
                Option::Some(so) => {
                    lemma_shunt_preserves(
                        tokens.skip(1),
                        so.0,
                        so.1,
                        false,
                        (depth - 1) as nat,
                        count_operators(so.0) + 1,
                    );
                },
                Option::None => {
                    assert(false);
                },
            }
        } else {
            assert(is_operator_byte(t[0]));
            lemma_pop_higher_props(stack, out, spec_priority(t[0]), c);
            let so = spec_pop_higher(stack, out, spec_priority(t[0]));
            assert(so.0.push(t).drop_last() =~= so.0);
            assert(so.0.push(t).last() == t);
            assert(forall|j: int| 0 <= j < so.0.len() ==> so.0.push(t)[j] == so.0[j]);
            assert(is_stack_entry(t));
            assert(all_stack_entries(so.0.push(t)));
            assert(count_operators(so.0.push(t)) == count_operators(so.0) + 1);
            assert(count_braces(so.0.push(t)) == count_braces(so.0));
            lemma_shunt_preserves(
                tokens.skip(1),
                so.0.push(t),
                so.1,
                true,
                depth,
                count_operators(so.0) + 1,
            );
        }
    }
}

/// Law: a well-formed, syntactically valid infix token sequence always
/// converts — the shunting-yard reorders it without error — and its
/// postfix output evaluates with a value stack to exactly one result.
pub proof fn lemma_valid_infix_converts(tokens: Seq<Seq<u8>>)
    requires
        forall|k: int| 0 <= k < tokens.len() ==> is_wf_token(tokens[k]),
        is_valid_infix(tokens),
    ensures
        spec_to_postfix(tokens) is Ok,
        spec_to_postfix(tokens) matches Ok(postfix) ==> spec_validate(postfix) == Ok::<
            (),
            EvaluationError,
        >(()),
{
    assert(spec_rpn_scan(Seq::<Seq<u8>>::empty(), 0) == Ok::<nat, EvaluationError>(0));
    assert(count_operators(Seq::<Seq<u8>>::empty()) == 0);
    assert(count_braces(Seq::<Seq<u8>>::empty()) == 0);
    assert(all_stack_entries(Seq::<Seq<u8>>::empty()));
    lemma_shunt_preserves(tokens, Seq::empty(), Seq::empty(), true, 0, 0);
}

} // verus!
