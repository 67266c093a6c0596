use rpn_parser::{scan, ScanError, Span, SyntaxError, Token, TokenType, AST};

fn category(name: &str, pattern: &str, priority: i32, assoc_right: bool) -> TokenType {
    TokenType::new(
        String::from(name),
        String::from(pattern),
        priority,
        assoc_right,
        false,
        None,
        false,
        None,
    )
}

fn arithmetic() -> Vec<TokenType> {
    vec![
        category("number", r"-?\d+(\.\d+)?", 0, false),
        category("sum_operator", r"\+", 2, false),
        category("sub_operator", r"\-", 2, false),
        category("mul_operator", r"\*", 3, false),
        category("div_operator", r"\/", 3, false),
        category("power_operator", r"\^", 4, true),
        category("parenthesis_left", r"\(", 1, false),
        TokenType::new(
            String::from("parenthesis_right"),
            String::from(r"\)"),
            1,
            false,
            true,
            Some(String::from("parenthesis_left")),
            false,
            None,
        ),
        TokenType::new(
            String::from("max_fn"),
            String::from(r"max"),
            1,
            false,
            false,
            None,
            true,
            Some(vec![String::from("number"), String::from("number")]),
        ),
    ]
}

fn texts(tokens: &Vec<Token>) -> Vec<String> {
    tokens.iter().map(|t| t.text.clone().unwrap()).collect()
}

fn postfix(formula: &str) -> Vec<String> {
    let tokens = scan(&arithmetic(), formula).unwrap();
    texts(&AST::to_rpn(tokens))
}

fn words(line: &str) -> Vec<String> {
    line.split(' ').map(String::from).collect()
}

fn token(name: &str, priority: i32, text: &str, start: usize) -> Token {
    Token {
        token_type: category(name, "", priority, false),
        index: (start, start + text.len()),
        text: Ok(String::from(text)),
    }
}

fn leaf_text(tree: &AST) -> String {
    match tree {
        AST::Token(t) => t.text.clone().unwrap(),
        AST::ASTNode(_) => panic!("expected a leaf"),
    }
}

#[test]
fn precedence_orders_operators() {
    assert_eq!(postfix("3 + 4 * 2"), words("3 4 2 * +"));
}

#[test]
fn parentheses_override_precedence() {
    assert_eq!(postfix("(3 + 4) * 2"), words("3 4 + 2 *"));
}

#[test]
fn worked_example() {
    assert_eq!(
        postfix("3 + 4 * 2 / ( 1 - 5 ) ^ 2 ^ 3"),
        words("3 4 2 * 1 5 - 2 3 ^ ^ / +")
    );
}

#[test]
fn worked_example_renders_without_separators() {
    let tokens = scan(&arithmetic(), "3 + 4 * 2 / ( 1 - 5 ) ^ 2 ^ 3").unwrap();
    let rpn = AST::to_rpn(tokens);
    assert_eq!(AST::to_string(&rpn), "342*15-23^^/+");
}

#[test]
fn equal_priority_groups_to_the_left() {
    assert_eq!(postfix("8 - 3 + 2"), words("8 3 - 2 +"));
    assert_eq!(postfix("8 / 4 * 2"), words("8 4 / 2 *"));
}

#[test]
fn right_associative_operators_group_to_the_right() {
    assert_eq!(postfix("2 ^ 3 ^ 4"), words("2 3 4 ^ ^"));
}

#[test]
fn operands_keep_their_order() {
    assert_eq!(postfix("1 + 2 * 3 - 4 / 5 ^ 6"), words("1 2 3 * + 4 5 6 ^ / -"));
}

#[test]
fn looser_operator_flushes_an_open_group() {
    assert_eq!(postfix("( 3 * 4 + 5 )"), words("3 4 * ( 5 +"));
}

#[test]
fn looser_operator_empties_the_whole_stack() {
    assert_eq!(postfix("1 + 2 ^ 3 * 4"), words("1 2 3 ^ + 4 *"));
}

#[test]
fn closing_without_opening_empties_the_stack() {
    assert_eq!(postfix("3 + 4 ) * 2"), words("3 4 + 2 *"));
}

#[test]
fn unclosed_opening_is_emitted() {
    assert_eq!(postfix("( 3 + 4"), words("3 4 + ("));
}

#[test]
fn scan_then_convert_is_repeatable() {
    let formula = "3 + 4 * 2 / ( 1 - 5 ) ^ 2 ^ 3";
    let first = AST::to_rpn(scan(&arithmetic(), formula).unwrap());
    let second = AST::to_rpn(scan(&arithmetic(), formula).unwrap());
    assert_eq!(texts(&first), texts(&second));
    let first_tree = AST::to_ast(first);
    let second_tree = AST::to_ast(second);
    assert_eq!(format!("{:?}", first_tree), format!("{:?}", second_tree));
    assert!(first_tree.is_ok());
}

#[test]
fn lone_operator_is_an_invalid_branch() {
    let rpn = vec![token("sum_operator", 2, "+", 0)];
    assert!(matches!(AST::to_ast(rpn), Err(SyntaxError::InvalidFormulaBranch)));
}

#[test]
fn operator_with_one_operand_is_an_invalid_branch() {
    let rpn = vec![token("number", 0, "3", 0), token("sum_operator", 2, "+", 2)];
    assert!(matches!(AST::to_ast(rpn), Err(SyntaxError::InvalidFormulaBranch)));
}

#[test]
fn two_operands_are_an_invalid_formula() {
    let rpn = vec![token("number", 0, "3", 0), token("number", 0, "4", 2)];
    assert!(matches!(AST::to_ast(rpn), Err(SyntaxError::InvalidFormula)));
}

#[test]
fn no_tokens_are_an_invalid_formula() {
    assert!(matches!(AST::to_ast(Vec::new()), Err(SyntaxError::InvalidFormula)));
}

#[test]
fn single_operand_is_a_leaf() {
    let rpn = vec![token("number", 0, "7", 0)];
    let tree = AST::to_ast(rpn).unwrap();
    assert_eq!(leaf_text(&tree), "7");
}

#[test]
fn first_popped_tree_is_the_right_operand() {
    let rpn = vec![
        token("number", 0, "8", 0),
        token("number", 0, "3", 4),
        token("sub_operator", 2, "-", 2),
    ];
    match AST::to_ast(rpn).unwrap() {
        AST::ASTNode((operator, right, left)) => {
            assert_eq!(operator.text, Ok(String::from("-")));
            assert_eq!(leaf_text(&right), "3");
            assert_eq!(leaf_text(&left), "8");
        }
        AST::Token(_) => panic!("expected a node"),
    }
}

#[test]
fn tree_of_worked_example() {
    let tokens = scan(&arithmetic(), "3 + 4 * 2").unwrap();
    match AST::to_ast(AST::to_rpn(tokens)).unwrap() {
        AST::ASTNode((plus, right, left)) => {
            assert_eq!(plus.text, Ok(String::from("+")));
            assert_eq!(leaf_text(&left), "3");
            match *right {
                AST::ASTNode((times, inner_right, inner_left)) => {
                    assert_eq!(times.text, Ok(String::from("*")));
                    assert_eq!(leaf_text(&inner_left), "4");
                    assert_eq!(leaf_text(&inner_right), "2");
                }
                AST::Token(_) => panic!("expected a node"),
            }
        }
        AST::Token(_) => panic!("expected a node"),
    }
}

#[test]
fn error_messages() {
    assert_eq!(SyntaxError::InvalidFormula.message(), "Invalid formula");
    assert_eq!(SyntaxError::InvalidFormulaBranch.message(), "Invalid formula branch");
}

#[test]
fn category_defaults() {
    let plain = category("number", r"\d+", 0, false);
    assert_eq!(plain.typename, "number");
    assert_eq!(plain.pattern, r"\d+");
    assert_eq!(plain.priority, 0);
    assert!(!plain.assoc_right);
    assert!(!plain.is_context);
    assert!(!plain.is_function);
    assert_eq!(plain.context_match, "0");
    assert!(plain.params.is_empty());
}

#[test]
fn category_keeps_what_it_is_given() {
    let table = arithmetic();
    assert_eq!(table[7].context_match, "parenthesis_left");
    assert!(table[7].is_context);
    assert!(table[8].is_function);
    assert_eq!(table[8].params, vec![String::from("number"), String::from("number")]);
    assert!(table[5].assoc_right);
    assert_eq!(table[5].priority, 4);
}

#[test]
fn token_reports_priority_and_associativity() {
    let power = Token {
        token_type: category("power_operator", r"\^", 4, true),
        index: (0, 1),
        text: Ok(String::from("^")),
    };
    assert_eq!(power.get_priority(), 4);
    assert!(power.is_right_assoc());
    let sum = token("sum_operator", 2, "+", 0);
    assert_eq!(sum.get_priority(), 2);
    assert!(!sum.is_right_assoc());
}

#[test]
fn token_text_is_the_covered_piece() {
    let t = Token::new(
        category("number", r"\d+", 0, false),
        String::from("12 + 345"),
        Span { start: 5, end: 8 },
    );
    assert_eq!(t.index, (5, 8));
    assert_eq!(t.text, Ok(String::from("345")));
    assert_eq!(t.token_type.typename, "number");
}

#[test]
fn token_text_may_be_empty_or_everything() {
    let nothing = Token::new(category("n", "", 0, false), String::from("abc"), Span { start: 3, end: 3 });
    assert_eq!(nothing.text, Ok(String::new()));
    let all = Token::new(category("n", "", 0, false), String::from("abc"), Span { start: 0, end: 3 });
    assert_eq!(all.text, Ok(String::from("abc")));
}

#[test]
fn token_text_fails_out_of_range() {
    let t = Token::new(category("n", "", 0, false), String::from("abc"), Span { start: 1, end: 4 });
    assert_eq!(t.text, Err(String::from("Error")));
    assert_eq!(t.index, (1, 4));
}

#[test]
fn token_text_fails_when_start_is_behind_end() {
    let t = Token::new(category("n", "", 0, false), String::from("abc"), Span { start: 2, end: 1 });
    assert_eq!(t.text, Err(String::from("Error")));
}

#[test]
fn token_text_fails_inside_a_character() {
    let formula = String::from("aéb");
    let split = Token::new(category("n", "", 0, false), formula.clone(), Span { start: 0, end: 2 });
    assert_eq!(split.text, Err(String::from("Error")));
    let whole = Token::new(category("n", "", 0, false), formula.clone(), Span { start: 1, end: 3 });
    assert_eq!(whole.text, Ok(String::from("é")));
    let tail = Token::new(category("n", "", 0, false), formula, Span { start: 2, end: 4 });
    assert_eq!(tail.text, Err(String::from("Error")));
}

#[test]
fn resolver_finds_each_match_in_order() {
    let found = Token::resolver(category("number", r"\d+", 0, false), String::from("12 + 345 - 6"))
        .unwrap();
    let spans: Vec<(usize, usize)> = found.iter().map(|t| t.index).collect();
    assert_eq!(spans, vec![(0, 2), (5, 8), (11, 12)]);
    assert_eq!(texts(&found), words("12 345 6"));
    assert!(found.iter().all(|t| t.token_type.typename == "number"));
}

#[test]
fn resolver_finds_nothing_where_nothing_matches() {
    let found = Token::resolver(category("number", r"\d+", 0, false), String::from("a + b")).unwrap();
    assert!(found.is_empty());
}

#[test]
fn resolver_measures_in_bytes() {
    let found = Token::resolver(category("number", r"\d+", 0, false), String::from("é 42")).unwrap();
    assert_eq!(found.len(), 1);
    assert_eq!(found[0].index, (3, 5));
    assert_eq!(found[0].text, Ok(String::from("42")));
}

#[test]
fn resolver_rejects_a_broken_pattern() {
    let found = Token::resolver(category("broken", r"(", 0, false), String::from("3 + 4"));
    assert!(matches!(found, Err(ScanError::InvalidPattern)));
}

#[test]
fn scan_rejects_a_broken_pattern() {
    let table = vec![category("number", r"\d+", 0, false), category("broken", r"[", 2, false)];
    assert!(matches!(scan(&table, "3 + 4"), Err(ScanError::InvalidPattern)));
}

#[test]
fn from_spans_builds_one_token_per_span() {
    let spans = vec![Span { start: 4, end: 5 }, Span { start: 0, end: 1 }, Span { start: 0, end: 9 }];
    let formula = String::from("3 + 4");
    let found = Token::from_spans(&category("any", ".", 0, false), &formula, &spans);
    assert_eq!(found.len(), 3);
    assert_eq!(found[0].text, Ok(String::from("4")));
    assert_eq!(found[1].text, Ok(String::from("3")));
    assert_eq!(found[2].text, Err(String::from("Error")));
    assert_eq!(found[2].index, (0, 9));
}

#[test]
fn scan_orders_tokens_by_start() {
    let tokens = scan(&arithmetic(), "3 + 4 * 2").unwrap();
    let starts: Vec<usize> = tokens.iter().map(|t| t.index.0).collect();
    assert_eq!(starts, vec![0, 2, 4, 6, 8]);
    assert_eq!(texts(&tokens), words("3 + 4 * 2"));
}

#[test]
fn scan_of_empty_text_or_table_is_empty() {
    assert!(scan(&arithmetic(), "").unwrap().is_empty());
    assert!(scan(&Vec::new(), "3 + 4").unwrap().is_empty());
}

#[test]
fn scan_breaks_ties_by_table_order() {
    let table = vec![category("letters", r"[a-z]+", 0, false), category("a", r"a", 2, false)];
    let tokens = scan(&table, "ab a").unwrap();
    let seen: Vec<(usize, String)> =
        tokens.iter().map(|t| (t.index.0, t.token_type.typename.clone())).collect();
    assert_eq!(
        seen,
        vec![
            (0, String::from("letters")),
            (0, String::from("a")),
            (3, String::from("letters")),
            (3, String::from("a")),
        ]
    );
    let swapped = vec![category("a", r"a", 2, false), category("letters", r"[a-z]+", 0, false)];
    let tokens = scan(&swapped, "ab a").unwrap();
    let names: Vec<String> = tokens.iter().map(|t| t.token_type.typename.clone()).collect();
    assert_eq!(names, words("a letters a letters"));
}

#[test]
fn scan_keeps_overlapping_matches() {
    let tokens = scan(&arithmetic(), "3 -4").unwrap();
    assert_eq!(texts(&tokens), words("3 -4 -"));
}

#[test]
fn sort_is_stable() {
    let tokens = vec![
        token("c", 0, "c", 5),
        token("a", 0, "a", 1),
        token("d", 0, "d", 5),
        token("b", 0, "b", 1),
        token("e", 0, "e", 0),
    ];
    let sorted = rpn_parser::sort_by_start(tokens);
    assert_eq!(texts(&sorted), words("e a b c d"));
}

#[test]
fn rendering_concatenates_texts() {
    let tokens = vec![token("number", 0, "12", 0), token("sum_operator", 2, "+", 3)];
    assert_eq!(AST::to_string(&tokens), "12+");
    assert_eq!(AST::to_string(&Vec::new()), "");
}

#[test]
fn clone_copies_every_field() {
    let source = Token::new(arithmetic().remove(8), String::from("max"), Span { start: 0, end: 3 });
    let copy = source.clone();
    assert_eq!(format!("{:?}", copy), format!("{:?}", source));
    assert_eq!(copy.token_type.params.len(), 2);
}
