use lazy_regex::Regex;
use nnc::grammar::{get_rule, ASTNode, ASTNodeContent, ParseRule, Token, TokenMatcher, TokenName};
use nnc::matching::ParseErrorKind;
use nnc::nano_grammar::{is_ghost_token, nano_parse_rules, nano_token_patterns};
use nnc::parser::build_tree;
use nnc::text::same_text;
use nnc::tokenizer::tokenize;

fn nano_matchers() -> Vec<TokenMatcher> {
    nano_token_patterns()
        .into_iter()
        .map(|(name, pattern)| TokenMatcher { name, regex: Regex::new(pattern).unwrap() })
        .collect()
}

#[test]
fn get_rule_finds_by_exact_name() {
    let rules = vec![
        ("Program", vec![ParseRule::Nest("Exprs")]),
        ("Expr", vec![ParseRule::SingleToken(TokenName::IntLiteral, None)]),
    ];
    let program = get_rule(&rules, "Program").unwrap();
    assert_eq!(program.len(), 1);
    assert!(matches!(program[0], ParseRule::Nest("Exprs")));
    let expr = get_rule(&rules, "Expr").unwrap();
    assert!(matches!(expr[0], ParseRule::SingleToken(TokenName::IntLiteral, None)));
}

#[test]
fn get_rule_is_empty_for_an_absent_name() {
    let rules = vec![("Program", vec![ParseRule::Nest("Exprs")])];
    assert!(get_rule(&rules, "Exprs").is_none());
    assert!(get_rule(&rules, "program").is_none());
    assert!(get_rule(&rules, "Program ").is_none());
    assert!(get_rule(&rules, "Progra").is_none());
    assert!(get_rule(&rules, "").is_none());
    assert!(get_rule(&[], "Program").is_none());
}

#[test]
fn get_rule_takes_the_first_of_two_entries() {
    let rules = vec![
        ("Other", vec![]),
        ("Twice", vec![ParseRule::Nest("first")]),
        ("Twice", vec![ParseRule::Nest("second")]),
    ];
    let found = get_rule(&rules, "Twice").unwrap();
    assert!(matches!(found[0], ParseRule::Nest("first")));
    assert_eq!(get_rule(&rules, "Other").unwrap().len(), 0);
}

#[test]
fn ghost_kinds_are_exactly_five() {
    let ghosts = [
        TokenName::Whitespace,
        TokenName::Indent,
        TokenName::Comment,
        TokenName::BlockComment,
        TokenName::Newline,
    ];
    for kind in ghosts {
        assert!(is_ghost_token(&kind));
    }
    let significant = [
        TokenName::EOF,
        TokenName::Identifier,
        TokenName::ThinArrow,
        TokenName::Pipe,
        TokenName::Semicolon,
        TokenName::Comma,
        TokenName::ScopeAnnotation,
        TokenName::BranchAnnotation,
        TokenName::IntLiteral,
        TokenName::StringLiteral,
        TokenName::BooleanLiteral,
        TokenName::ParenthesisOpen,
        TokenName::ParenthesisClose,
        TokenName::SqBracketsOpen,
        TokenName::SqBracketsClose,
        TokenName::CrBracketsOpen,
        TokenName::CrBracketsClose,
        TokenName::AgBracketsOpen,
        TokenName::AgBracketsClose,
        TokenName::Reticences,
        TokenName::ExclusiveReticences,
        TokenName::Colon,
        TokenName::OpAddrof,
        TokenName::OpTypeof,
        TokenName::OpType,
        TokenName::OpValue,
        TokenName::OpIs,
        TokenName::OpXis,
        TokenName::OpAnd,
        TokenName::OpOr,
        TokenName::OpNot,
        TokenName::OpPipe,
        TokenName::OpAmpersand,
        TokenName::OpPlus,
        TokenName::OpDash,
        TokenName::OpAsterisk,
        TokenName::OpForwardSlash,
        TokenName::OpDoubleForwardSlash,
        TokenName::OpPercent,
        TokenName::OpEqSign,
    ];
    for kind in significant {
        assert!(!is_ghost_token(&kind));
    }
}

#[test]
fn nano_rules_are_program_exprs_expr() {
    let rules = nano_parse_rules();
    assert_eq!(rules.len(), 3);
    assert_eq!(rules[0].0, "Program");
    assert!(matches!(rules[0].1[..], [ParseRule::Nest("Exprs")]));
    assert_eq!(rules[1].0, "Exprs");
    match &rules[1].1[..] {
        [ParseRule::Nest("Expr"), ParseRule::OptionalMany(more)] => {
            assert!(matches!(
                more[..],
                [ParseRule::SingleToken(TokenName::Semicolon, None), ParseRule::Nest("Expr")]
            ));
        }
        _ => panic!("Exprs is an expression and then more of them"),
    }
    assert_eq!(rules[2].0, "Expr");
    assert!(matches!(rules[2].1[..], [ParseRule::SingleToken(TokenName::IntLiteral, None)]));
}

#[test]
fn build_tree_fails_on_an_unknown_start_rule() {
    let tokens = vec![Token { name: TokenName::EOF, str_content: None }];
    let rules = nano_parse_rules();
    let failed = build_tree("", &tokens, &rules, "Module", false, 8).unwrap_err();
    assert_eq!(failed.kind, ParseErrorKind::UnknownRule);
}

#[test]
fn build_tree_fails_as_the_start_rule_fails() {
    let scanned = tokenize("foo", &nano_matchers());
    let rules = nano_parse_rules();
    let failed = build_tree("foo", &scanned.tokens, &rules, "Program", false, 8).unwrap_err();
    assert_eq!(failed.kind, ParseErrorKind::NoMatch);
    let failed = build_tree("foo", &scanned.tokens, &rules, "Program", false, 1).unwrap_err();
    assert_eq!(failed.kind, ParseErrorKind::DepthExceeded);
}

#[test]
fn build_tree_of_a_nano_program() {
    let source = "1; 2 ;3";
    let scanned = tokenize(source, &nano_matchers());
    assert_eq!(scanned.diagnostic, None);
    let tokens = &scanned.tokens;
    let rules = nano_parse_rules();
    let expr = |i: usize| {
        ASTNodeContent::Node(ASTNode { matched_with: "Expr", content: vec![ASTNodeContent::Tok(&tokens[i])] })
    };

    let tree = build_tree(source, tokens, &rules, "Program", false, 2).unwrap();
    assert!(tree.is_abstract);
    assert_eq!(
        tree.root,
        ASTNode {
            matched_with: "Program",
            content: vec![ASTNodeContent::Node(ASTNode {
                matched_with: "Exprs",
                content: vec![
                    expr(0),
                    ASTNodeContent::Grouping(vec![
                        ASTNodeContent::Grouping(vec![ASTNodeContent::Tok(&tokens[1]), expr(3)]),
                        ASTNodeContent::Grouping(vec![ASTNodeContent::Tok(&tokens[5]), expr(6)]),
                    ]),
                ],
            })],
        }
    );

    let tree = build_tree(source, tokens, &rules, "Program", true, 2).unwrap();
    assert!(!tree.is_abstract);
    let ws_then_expr = |w: usize, i: usize| {
        ASTNodeContent::Node(ASTNode {
            matched_with: "Expr",
            content: vec![ASTNodeContent::Tok(&tokens[w]), ASTNodeContent::Tok(&tokens[i])],
        })
    };
    assert_eq!(
        tree.root,
        ASTNode {
            matched_with: "Program",
            content: vec![ASTNodeContent::Node(ASTNode {
                matched_with: "Exprs",
                content: vec![
                    expr(0),
                    ASTNodeContent::Grouping(vec![
                        ASTNodeContent::Grouping(vec![ASTNodeContent::Tok(&tokens[1]), ws_then_expr(2, 3)]),
                        ASTNodeContent::Grouping(vec![
                            ASTNodeContent::Tok(&tokens[4]),
                            ASTNodeContent::Tok(&tokens[5]),
                            expr(6)
                        ]),
                    ]),
                ],
            })],
        }
    );
}

#[test]
fn build_tree_leaves_trailing_tokens_alone() {
    let source = "1 foo";
    let scanned = tokenize(source, &nano_matchers());
    let rules = nano_parse_rules();
    let tree = build_tree(source, &scanned.tokens, &rules, "Expr", false, 0).unwrap();
    assert_eq!(tree.root.matched_with, "Expr");
    assert_eq!(tree.root.content, vec![ASTNodeContent::Tok(&scanned.tokens[0])]);
}

#[test]
fn tree_items_point_into_the_token_sequence() {
    let source = "7";
    let scanned = tokenize(source, &nano_matchers());
    let rules = nano_parse_rules();
    let tree = build_tree(source, &scanned.tokens, &rules, "Expr", false, 0).unwrap();
    match &tree.root.content[0] {
        ASTNodeContent::Tok(token) => assert!(std::ptr::eq(*token, &scanned.tokens[0])),
        other => panic!("expected a token, found {:?}", other),
    }
}

#[test]
fn same_text_compares_every_character() {
    assert!(same_text("", ""));
    assert!(same_text("Program", "Program"));
    assert!(same_text("caf\u{e9}", "caf\u{e9}"));
    assert!(!same_text("Program", "Progran"));
    assert!(!same_text("Program", "program"));
    assert!(!same_text("Program", "Programs"));
    assert!(!same_text("Programs", "Program"));
    assert!(!same_text("", "a"));
    assert!(!same_text("caf\u{e9}", "caf\u{e8}"));
    assert!(!same_text("caf\u{e9}", "cafe"));
}
