use rpn_parser::{merge, scan, ScanError, Span, Token, TokenType, AST};

fn plain(name: &str, pattern: &str, priority: i32) -> TokenType {
    TokenType::new(
        String::from(name),
        String::from(pattern),
        priority,
        false,
        false,
        None,
        false,
        None,
    )
}

fn closing(name: &str, pattern: &str, opens: &str) -> TokenType {
    TokenType::new(
        String::from(name),
        String::from(pattern),
        1,
        false,
        true,
        Some(String::from(opens)),
        false,
        None,
    )
}

fn grammar() -> Vec<TokenType> {
    vec![
        plain("number", r"\d+", 0),
        plain("sum", r"\+", 2),
        plain("product", r"\*", 3),
        plain("round_open", r"\(", 1),
        closing("round_close", r"\)", "round_open"),
        plain("square_open", r"\[", 1),
        closing("square_close", r"\]", "square_open"),
    ]
}

fn at(name: &str, start: usize) -> Token {
    Token {
        token_type: plain(name, "", 0),
        index: (start, start + 1),
        text: Ok(String::from(name)),
    }
}

fn names(tokens: &Vec<Token>) -> Vec<String> {
    tokens.iter().map(|t| t.token_type.typename.clone()).collect()
}

fn rendered(formula: &str) -> String {
    AST::to_string(&AST::to_rpn(scan(&grammar(), formula).unwrap()))
}

#[test]
fn merge_orders_across_groups_and_keeps_group_order_on_ties() {
    let groups = vec![
        vec![at("a", 4), at("b", 9)],
        vec![],
        vec![at("c", 0), at("d", 4), at("e", 4)],
        vec![at("f", 9), at("g", 2)],
    ];
    assert_eq!(names(&merge(groups)), vec!["c", "g", "a", "d", "e", "b", "f"]);
}

#[test]
fn merge_of_nothing_is_empty() {
    assert!(merge(Vec::new()).is_empty());
    assert!(merge(vec![Vec::new(), Vec::new()]).is_empty());
}

#[test]
fn failed_search_is_an_invalid_pattern() {
    let failure = regex::Regex::new("(").unwrap_err();
    let found = Token::from_search(&plain("number", "(", 0), &String::from("1 2"), Err(failure));
    assert!(matches!(found, Err(ScanError::InvalidPattern)));
}

#[test]
fn successful_search_gives_one_token_per_span() {
    let spans = vec![Span { start: 2, end: 3 }, Span { start: 0, end: 1 }];
    let found =
        Token::from_search(&plain("number", r"\d", 0), &String::from("1 2"), Ok(spans)).unwrap();
    assert_eq!(found.len(), 2);
    assert_eq!(found[0].text, Ok(String::from("2")));
    assert_eq!(found[0].index, (2, 3));
    assert_eq!(found[1].text, Ok(String::from("1")));
    assert_eq!(found[1].token_type.typename, "number");
}

#[test]
fn oversized_pattern_is_an_invalid_pattern() {
    let found = Token::resolver(plain("word", r"\w{1000}", 0), String::from("abc"));
    assert!(matches!(found, Err(ScanError::InvalidPattern)));
}

#[test]
fn empty_matches_are_tokens_without_text() {
    let found = Token::resolver(plain("gap", r"x*", 0), String::from("ab")).unwrap();
    let spans: Vec<(usize, usize)> = found.iter().map(|t| t.index).collect();
    assert_eq!(spans, vec![(0, 0), (1, 1), (2, 2)]);
    assert!(found.iter().all(|t| t.text == Ok(String::new())));
}

#[test]
fn operands_of_the_output_are_the_operands_of_the_input() {
    for formula in ["1 + 2 * 3", "( 1 + 2 ) * 3", "1 ) 2 ( 3", "[ 1 * ( 2 + 3 ] 4 )", "+ * 7"] {
        let tokens = scan(&grammar(), formula).unwrap();
        let given: Vec<(usize, usize)> =
            tokens.iter().filter(|t| t.get_priority() == 0).map(|t| t.index).collect();
        let rpn = AST::to_rpn(tokens);
        let kept: Vec<(usize, usize)> =
            rpn.iter().filter(|t| t.get_priority() == 0).map(|t| t.index).collect();
        assert_eq!(kept, given);
    }
}

#[test]
fn closing_markers_never_reach_the_output() {
    for formula in ["( 1 + 2 ) * 3", "1 ) ) 2", "[ ( 1 ] )", ") ] ( ["] {
        let rpn = AST::to_rpn(scan(&grammar(), formula).unwrap());
        assert!(rpn.iter().all(|t| !t.token_type.is_context));
    }
}

#[test]
fn resolved_groups_leave_no_marker() {
    assert_eq!(rendered("( 1 + 2 ) * 3"), "12+3*");
    assert_eq!(rendered("[ ( 1 + 2 ) * 3 ] + 4"), "12+3*4+");
    assert_eq!(rendered("( ( 1 ) )"), "1");
}

#[test]
fn closing_marker_stops_at_its_own_opening_marker() {
    assert_eq!(rendered("[ ( 1 + 2 ] * 3"), "12+(3*");
    assert_eq!(rendered("( 1 + 2 ] * 3"), "12+(3*");
}

#[test]
fn higher_priority_waits_above_lower() {
    assert_eq!(rendered("1 * 2 + 3"), "12*3+");
    assert_eq!(rendered("1 + 2 * 3 + 4"), "123*+4+");
}

#[test]
fn operators_alone_are_emitted_from_the_top() {
    assert_eq!(rendered("+ *"), "*+");
    assert_eq!(rendered("* +"), "*+");
}

#[test]
fn empty_input_converts_to_nothing() {
    assert!(AST::to_rpn(Vec::new()).is_empty());
}

#[test]
fn resolver_tokens_stand_in_source_order_without_overlap() {
    let found = Token::resolver(plain("run", r"a+|b*", 0), String::from("aab ba")).unwrap();
    let spans: Vec<(usize, usize)> = found.iter().map(|t| t.index).collect();
    assert_eq!(spans, vec![(0, 2), (2, 3), (4, 5), (5, 6)]);
    for pair in spans.windows(2) {
        assert!(pair[0].0 <= pair[0].1);
        assert!(pair[0].1 <= pair[1].0);
    }
}

#[test]
fn scan_succeeds_exactly_when_every_pattern_compiles() {
    let good = vec![plain("number", r"\d+", 0), plain("sum", r"\+", 2)];
    assert!(scan(&good, "1 + 2").is_ok());
    assert!(scan(&good, "").is_ok());
    let bad_last = vec![plain("number", r"\d+", 0), plain("broken", r"(", 2)];
    assert!(matches!(scan(&bad_last, "1 + 2"), Err(ScanError::InvalidPattern)));
    let bad_first = vec![plain("broken", r"a{2,1}", 2), plain("number", r"\d+", 0)];
    assert!(matches!(scan(&bad_first, ""), Err(ScanError::InvalidPattern)));
}

#[test]
fn resolver_succeeds_on_text_without_matches() {
    assert!(Token::resolver(plain("number", r"\d+", 0), String::new()).unwrap().is_empty());
}

#[test]
fn unpaired_tokens_come_out_exactly_once() {
    for formula in ["1 + 2 * 3", "( 1 + 2 ) * 3 + 4", "1 ) + 2 ( * 3", "[ 1 * ( 2 + 3 ] 4 )"] {
        let tokens = scan(&grammar(), formula).unwrap();
        let given: Vec<(usize, usize)> = tokens
            .iter()
            .filter(|t| t.get_priority() == 0 || t.get_priority() >= 2)
            .map(|t| t.index)
            .collect();
        let rpn = AST::to_rpn(tokens);
        for index in given {
            assert_eq!(rpn.iter().filter(|t| t.index == index).count(), 1);
        }
    }
}

#[test]
fn operator_that_a_closing_marker_names_is_dropped() {
    let table = vec![
        plain("number", r"\d+", 0),
        plain("sum", r"\+", 2),
        closing("end", r";", "sum"),
    ];
    let rpn = AST::to_rpn(scan(&table, "1 + 2 ;").unwrap());
    assert_eq!(AST::to_string(&rpn), "12");
}

#[test]
fn repeated_scans_agree_on_failure() {
    let table = vec![plain("broken", r"(", 2)];
    assert!(matches!(scan(&table, "1"), Err(ScanError::InvalidPattern)));
    assert!(matches!(scan(&table, "1"), Err(ScanError::InvalidPattern)));
}
