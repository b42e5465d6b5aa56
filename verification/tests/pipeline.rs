use rpn_calc::errors::ConversionError;
use rpn_calc::errors::EvaluationError;
use rpn_calc::errors::TokenizeError;
use rpn_calc::eval::validate_reversed_polish;
use rpn_calc::postfix::reversed_polish_from_tokens_ascii;
use rpn_calc::tokenize::tokens_from_ascii;

fn toks(input: &str) -> Vec<Vec<u8>> {
    tokens_from_ascii(input.as_bytes()).unwrap()
}

fn postfix_of(input: &str) -> Vec<Vec<u8>> {
    reversed_polish_from_tokens_ascii(&toks(input)).unwrap()
}

fn bytes(words: &[&str]) -> Vec<Vec<u8>> {
    words.iter().map(|w| w.as_bytes().to_vec()).collect()
}

// Reverse-Polish evaluation with a value stack, in double precision;
// the library validates the structure, the arithmetic happens here.
fn eval_rpn(tokens: &[Vec<u8>]) -> f64 {
    let mut stack: Vec<f64> = Vec::new();
    for token in tokens {
        if token[0].is_ascii_digit() {
            let text = std::str::from_utf8(token).unwrap();
            stack.push(text.parse::<f64>().unwrap());
        } else {
            let right = stack.pop().unwrap();
            let left = stack.pop().unwrap();
            let value = match token[0] {
                b'+' => left + right,
                b'-' => left - right,
                b'*' => left * right,
                b'/' => left / right,
                _ => panic!("unknown operator"),
            };
            stack.push(value);
        }
    }
    assert_eq!(stack.len(), 1);
    stack.pop().unwrap()
}

fn eval_str(input: &str) -> f64 {
    let postfix = postfix_of(input);
    validate_reversed_polish(&postfix).unwrap();
    eval_rpn(&postfix)
}

#[test]
fn single_number() {
    assert_eq!(toks("42"), bytes(&["42"]));
    assert_eq!(postfix_of("42"), bytes(&["42"]));
    assert_eq!(validate_reversed_polish(&postfix_of("42")), Ok(()));
    assert_eq!(eval_str("42"), 42.0);
}

#[test]
fn precedence_multiplication_first() {
    assert_eq!(toks("3 + 4 * 2"), bytes(&["3", "+", "4", "*", "2"]));
    assert_eq!(postfix_of("3 + 4 * 2"), bytes(&["3", "4", "2", "*", "+"]));
    assert_eq!(eval_str("3 + 4 * 2"), 11.0);
}

#[test]
fn parentheses_group_first() {
    assert_eq!(
        toks("(3 + 4) * 2"),
        bytes(&["(", "3", "+", "4", ")", "*", "2"])
    );
    assert_eq!(postfix_of("(3 + 4) * 2"), bytes(&["3", "4", "+", "2", "*"]));
    assert_eq!(eval_str("(3 + 4) * 2"), 14.0);
}

#[test]
fn subtraction_is_left_associative() {
    assert_eq!(postfix_of("10 - 2 - 3"), bytes(&["10", "2", "-", "3", "-"]));
    assert_eq!(eval_str("10 - 2 - 3"), 5.0);
}

#[test]
fn division_is_left_associative() {
    assert_eq!(postfix_of("8 / 4 / 2"), bytes(&["8", "4", "/", "2", "/"]));
    assert_eq!(eval_str("8 / 4 / 2"), 1.0);
}

#[test]
fn division_by_zero_is_infinite() {
    let result = eval_str("5 / 0");
    assert!(result.is_infinite());
    assert!(result > 0.0);
}

#[test]
fn pipeline_is_deterministic() {
    let first_tokens = toks("2 * (3 + 4)");
    let second_tokens = toks("2 * (3 + 4)");
    assert_eq!(first_tokens, second_tokens);
    assert_eq!(postfix_of("2 * (3 + 4)"), postfix_of("2 * (3 + 4)"));
    assert_eq!(eval_str("2 * (3 + 4)"), eval_str("2 * (3 + 4)"));
}

#[test]
fn unexpected_symbol_with_position() {
    assert_eq!(
        tokens_from_ascii("3 ^ 2".as_bytes()),
        Err(TokenizeError::UnexpectedSymbol {
            symbol: b'^',
            position: 2,
        })
    );
}

#[test]
fn unmatched_opening_parenthesis() {
    let tokens = toks("(1+2");
    assert_eq!(
        reversed_polish_from_tokens_ascii(&tokens),
        Err(ConversionError::UnmatchedParenthesis)
    );
}

#[test]
fn unmatched_closing_parenthesis() {
    let tokens = toks("1+2)");
    assert_eq!(
        reversed_polish_from_tokens_ascii(&tokens),
        Err(ConversionError::UnmatchedParenthesis)
    );
}

#[test]
fn unknown_operator_reaches_converter() {
    let tokens = vec![vec![b'3'], vec![b'%'], vec![b'2']];
    assert_eq!(
        reversed_polish_from_tokens_ascii(&tokens),
        Err(ConversionError::UnknownOperator { symbol: b'%' })
    );
}

#[test]
fn operator_without_operands_underflows() {
    let postfix = postfix_of("1+");
    assert_eq!(
        validate_reversed_polish(&postfix),
        Err(EvaluationError::StackUnderflow)
    );
}

#[test]
fn two_values_without_operator_are_malformed() {
    let postfix = bytes(&["1", "2"]);
    assert_eq!(
        validate_reversed_polish(&postfix),
        Err(EvaluationError::MalformedExpression)
    );
}

#[test]
fn empty_input_is_malformed() {
    assert_eq!(toks(""), bytes(&[]));
    assert_eq!(postfix_of(""), bytes(&[]));
    assert_eq!(
        validate_reversed_polish(&postfix_of("")),
        Err(EvaluationError::MalformedExpression)
    );
}

#[test]
fn number_token_must_be_all_digits() {
    let postfix = vec![vec![b'1', b'a']];
    assert_eq!(
        validate_reversed_polish(&postfix),
        Err(EvaluationError::NumberFormat)
    );
}

#[test]
fn empty_token_is_a_number_format_error() {
    let postfix = vec![vec![]];
    assert_eq!(
        validate_reversed_polish(&postfix),
        Err(EvaluationError::NumberFormat)
    );
}

#[test]
fn whitespace_is_skipped() {
    assert_eq!(toks(" 1 \t+\r\n2 "), bytes(&["1", "+", "2"]));
    assert_eq!(eval_str(" 1 \t+\r\n2 "), 3.0);
}

#[test]
fn multi_digit_numbers() {
    assert_eq!(toks("10+200"), bytes(&["10", "+", "200"]));
    assert_eq!(eval_str("10+200"), 210.0);
}

#[test]
fn nested_parentheses() {
    assert_eq!(postfix_of("((2))"), bytes(&["2"]));
    assert_eq!(eval_str("((2))"), 2.0);
    assert_eq!(eval_str("(8 / 4) / 2"), 1.0);
}

#[test]
fn grouping_overrides_associativity() {
    assert_eq!(eval_str("10 - (2 - 3)"), 11.0);
    assert_eq!(eval_str("8 / (4 / 2)"), 4.0);
}

#[test]
fn operator_and_bracket_classification() {
    assert!(rpn_calc::token::is_operator(&b'+'));
    assert!(rpn_calc::token::is_operator(&b'-'));
    assert!(rpn_calc::token::is_operator(&b'*'));
    assert!(rpn_calc::token::is_operator(&b'/'));
    assert!(!rpn_calc::token::is_operator(&b'('));
    assert!(!rpn_calc::token::is_operator(&b'7'));
    assert!(rpn_calc::token::is_bracket(&b'('));
    assert!(rpn_calc::token::is_bracket(&b')'));
    assert!(!rpn_calc::token::is_bracket(&b'*'));
}

#[test]
fn mathematically_correct_results() {
    assert_eq!(eval_str("1 + 2 * 3 - 4 / 2"), 5.0);
    assert_eq!(eval_str("(1 + 2) * (3 - 4) / 2"), -1.5);
    assert_eq!(eval_str("7 / 2"), 3.5);
    assert_eq!(eval_str("0 * 100 + 3"), 3.0);
}
