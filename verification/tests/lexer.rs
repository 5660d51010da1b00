use lazy_regex::Regex;
use nnc::grammar::{Token, TokenMatcher, TokenName};
use nnc::nano_grammar::nano_token_patterns;
use nnc::tokenizer::{place_after, token_length, tokenize, LexDiagnostic};

fn matcher(name: TokenName, pattern: &str) -> TokenMatcher {
    TokenMatcher { name, regex: Regex::new(pattern).unwrap() }
}

fn nano_matchers() -> Vec<TokenMatcher> {
    nano_token_patterns().into_iter().map(|(name, pattern)| matcher(name, pattern)).collect()
}

fn texts(tokens: &[Token]) -> String {
    let mut all = String::new();
    for token in tokens {
        if let Some(text) = token.str_content {
            all.push_str(text);
        }
    }
    all
}

fn kinds(tokens: &[Token]) -> Vec<TokenName> {
    tokens.iter().map(|t| t.name).collect()
}

#[test]
fn empty_source_is_just_eof() {
    let scanned = tokenize("", &nano_matchers());
    assert_eq!(scanned.diagnostic, None);
    assert_eq!(scanned.tokens, vec![Token { name: TokenName::EOF, str_content: None }]);
}

#[test]
fn no_matchers_means_first_character_is_reported() {
    let scanned = tokenize("abc", &[]);
    assert_eq!(scanned.diagnostic, Some(LexDiagnostic { character: 'a', line: 1, column: 1 }));
    assert_eq!(scanned.tokens, vec![Token { name: TokenName::EOF, str_content: None }]);
}

#[test]
fn nano_program_is_cut_into_its_tokens() {
    let source = "1; 22 ;foo_bar(x) -> \"s\"\n";
    let scanned = tokenize(source, &nano_matchers());
    assert_eq!(scanned.diagnostic, None);
    assert_eq!(
        scanned.tokens,
        vec![
            Token { name: TokenName::IntLiteral, str_content: Some("1") },
            Token { name: TokenName::Semicolon, str_content: Some(";") },
            Token { name: TokenName::Whitespace, str_content: Some(" ") },
            Token { name: TokenName::IntLiteral, str_content: Some("22") },
            Token { name: TokenName::Whitespace, str_content: Some(" ") },
            Token { name: TokenName::Semicolon, str_content: Some(";") },
            Token { name: TokenName::Identifier, str_content: Some("foo_bar") },
            Token { name: TokenName::ParenthesisOpen, str_content: Some("(") },
            Token { name: TokenName::Identifier, str_content: Some("x") },
            Token { name: TokenName::ParenthesisClose, str_content: Some(")") },
            Token { name: TokenName::Whitespace, str_content: Some(" ") },
            Token { name: TokenName::ThinArrow, str_content: Some("->") },
            Token { name: TokenName::Whitespace, str_content: Some(" ") },
            Token { name: TokenName::StringLiteral, str_content: Some("\"s\"") },
            Token { name: TokenName::Newline, str_content: Some("\n") },
            Token { name: TokenName::EOF, str_content: None },
        ]
    );
}

#[test]
fn tokens_cover_the_source() {
    let sources = [
        "",
        "42",
        "a b\tc\n",
        "### block\ncomment ###x",
        "# line comment\nfoo",
        "0xFF,0b01;[{(:)}]|>",
        "\"caf\u{e9} \u{2764}\"\r\nend",
    ];
    let matchers = nano_matchers();
    for source in sources {
        let scanned = tokenize(source, &matchers);
        assert_eq!(scanned.diagnostic, None);
        assert_eq!(texts(&scanned.tokens), source);
        assert_eq!(scanned.tokens.last().unwrap().name, TokenName::EOF);
        let before_last = &scanned.tokens[..scanned.tokens.len() - 1];
        assert!(before_last.iter().all(|t| t.str_content.map_or(false, |s| !s.is_empty())));
        assert!(before_last.iter().all(|t| t.name != TokenName::EOF));
    }
}

#[test]
fn tokens_before_a_failure_cover_the_front() {
    let source = "ab 12 $ cd";
    let scanned = tokenize(source, &nano_matchers());
    assert_eq!(scanned.diagnostic, Some(LexDiagnostic { character: '$', line: 1, column: 7 }));
    assert_eq!(texts(&scanned.tokens), "ab 12 ");
    assert_eq!(scanned.tokens.last().unwrap().name, TokenName::EOF);
}

#[test]
fn scanning_twice_gives_the_same_tokens() {
    let matchers = nano_matchers();
    for source in ["1;2;3", "foo ( bar )\n# c\n", "x @ y", ""] {
        let first = tokenize(source, &matchers);
        let second = tokenize(source, &matchers);
        assert_eq!(first.tokens, second.tokens);
        assert_eq!(first.diagnostic, second.diagnostic);
        // ... and so does a scan with matchers compiled anew.
        let third = tokenize(source, &nano_matchers());
        assert_eq!(first.tokens, third.tokens);
        assert_eq!(first.diagnostic, third.diagnostic);
    }
}

#[test]
fn earlier_matcher_wins_over_longer_match() {
    let short_first =
        vec![matcher(TokenName::OpDash, r"^-"), matcher(TokenName::ThinArrow, r"^->")];
    let scanned = tokenize("->", &short_first);
    assert_eq!(scanned.diagnostic, Some(LexDiagnostic { character: '>', line: 1, column: 2 }));
    assert_eq!(
        scanned.tokens,
        vec![
            Token { name: TokenName::OpDash, str_content: Some("-") },
            Token { name: TokenName::EOF, str_content: None },
        ]
    );

    let long_first =
        vec![matcher(TokenName::ThinArrow, r"^->"), matcher(TokenName::OpDash, r"^-")];
    let scanned = tokenize("->-", &long_first);
    assert_eq!(scanned.diagnostic, None);
    assert_eq!(kinds(&scanned.tokens), vec![TokenName::ThinArrow, TokenName::OpDash, TokenName::EOF]);
}

#[test]
fn priority_restarts_at_every_position() {
    // After `b` matched, `a` is tried first again.
    let matchers =
        vec![matcher(TokenName::Identifier, r"^a"), matcher(TokenName::IntLiteral, r"^b")];
    let scanned = tokenize("baab", &matchers);
    assert_eq!(scanned.diagnostic, None);
    assert_eq!(
        kinds(&scanned.tokens),
        vec![
            TokenName::IntLiteral,
            TokenName::Identifier,
            TokenName::Identifier,
            TokenName::IntLiteral,
            TokenName::EOF
        ]
    );
}

#[test]
fn match_further_on_is_no_match() {
    // Without an anchor the expression finds `b` behind the `a`; that is not at the start.
    let matchers = vec![matcher(TokenName::Identifier, r"b+")];
    let scanned = tokenize("abb", &matchers);
    assert_eq!(scanned.diagnostic, Some(LexDiagnostic { character: 'a', line: 1, column: 1 }));
    assert_eq!(kinds(&scanned.tokens), vec![TokenName::EOF]);

    let scanned = tokenize("bba", &matchers);
    assert_eq!(scanned.diagnostic, Some(LexDiagnostic { character: 'a', line: 1, column: 3 }));
    assert_eq!(
        scanned.tokens,
        vec![
            Token { name: TokenName::Identifier, str_content: Some("bb") },
            Token { name: TokenName::EOF, str_content: None },
        ]
    );
}

#[test]
fn empty_match_is_no_match() {
    let matchers =
        vec![matcher(TokenName::Whitespace, r"^ *"), matcher(TokenName::Identifier, r"^[a-z]+")];
    let scanned = tokenize("ab  cd", &matchers);
    assert_eq!(scanned.diagnostic, None);
    assert_eq!(
        scanned.tokens,
        vec![
            Token { name: TokenName::Identifier, str_content: Some("ab") },
            Token { name: TokenName::Whitespace, str_content: Some("  ") },
            Token { name: TokenName::Identifier, str_content: Some("cd") },
            Token { name: TokenName::EOF, str_content: None },
        ]
    );

    let only_empty = vec![matcher(TokenName::Whitespace, r"^ *")];
    let scanned = tokenize("x", &only_empty);
    assert_eq!(scanned.diagnostic, Some(LexDiagnostic { character: 'x', line: 1, column: 1 }));
}

#[test]
fn newline_token_opens_a_line() {
    let scanned = tokenize("ab\ncd\r\n\n  $", &nano_matchers());
    assert_eq!(scanned.diagnostic, Some(LexDiagnostic { character: '$', line: 4, column: 3 }));
}

#[test]
fn string_literal_is_read_character_by_character() {
    let matchers = vec![
        matcher(TokenName::StringLiteral, r#"^"[\s\S]*?""#),
        matcher(TokenName::Identifier, r"^[a-z]+"),
    ];
    // Two line feeds inside the literal, then two characters on its last line.
    let scanned = tokenize("ab\"x\ny\nz\"$", &matchers);
    assert_eq!(scanned.diagnostic, Some(LexDiagnostic { character: '$', line: 3, column: 3 }));

    // Characters, not bytes, are counted inside a literal: three of them, seven bytes.
    let scanned = tokenize("\"\u{e9}\u{2764}\"$", &matchers);
    assert_eq!(scanned.diagnostic, Some(LexDiagnostic { character: '$', line: 1, column: 5 }));
}

#[test]
fn block_comment_is_read_character_by_character() {
    let matchers = vec![
        matcher(TokenName::BlockComment, r"^###[\s\S]*?###"),
        matcher(TokenName::Identifier, r"^[a-z]+"),
    ];
    let scanned = tokenize("### a\n b ###x$", &matchers);
    assert_eq!(scanned.diagnostic, Some(LexDiagnostic { character: '$', line: 2, column: 8 }));
}

#[test]
fn other_tokens_move_on_by_their_bytes() {
    let matchers = vec![matcher(TokenName::Identifier, r"^\p{L}+")];
    // `é` takes two bytes: the identifier is five characters and six bytes long.
    let scanned = tokenize("caf\u{e9}s$", &matchers);
    assert_eq!(scanned.diagnostic, Some(LexDiagnostic { character: '$', line: 1, column: 7 }));
    assert_eq!(scanned.tokens[0].str_content, Some("caf\u{e9}s"));
}

#[test]
fn comment_token_with_a_line_feed_does_not_open_a_line() {
    // Only newline tokens, string literals and block comments count lines.
    let scanned = tokenize("# c\n$", &nano_matchers());
    assert_eq!(kinds(&scanned.tokens), vec![TokenName::Comment, TokenName::EOF]);
    assert_eq!(scanned.diagnostic, Some(LexDiagnostic { character: '$', line: 1, column: 5 }));
}

#[test]
fn reported_character_may_be_wide() {
    let scanned = tokenize("a \u{2764}", &nano_matchers());
    assert_eq!(
        scanned.diagnostic,
        Some(LexDiagnostic { character: '\u{2764}', line: 1, column: 3 })
    );
}

#[test]
fn nano_patterns_are_listed_in_priority_order() {
    let patterns = nano_token_patterns();
    assert_eq!(patterns.len(), 19);
    assert_eq!(patterns[0], (TokenName::Newline, r"^\r?\n"));
    assert_eq!(patterns[1], (TokenName::Whitespace, r"^[ \s\r\f\t]+"));
    assert_eq!(patterns[13], (TokenName::IntLiteral, r"^(0x[0-9a-zA-Z_]+|0b[0-9]+|[0-9_]+)"));
    assert_eq!(patterns[14], (TokenName::StringLiteral, r#"^".*?""#));
    assert_eq!(patterns[15], (TokenName::Identifier, r"^[a-zA-Z_][a-zA-Z0-9_]*"));
    assert_eq!(patterns[16], (TokenName::Comment, r"^###[\s\S]*?###"));
    assert_eq!(patterns[17], (TokenName::Comment, r"^#[\s\S]*?\n"));
    assert_eq!(patterns[18], (TokenName::OpAnd, r"^#.*?\n"));
    for (_, pattern) in patterns {
        assert!(pattern.starts_with('^'));
        assert!(Regex::new(pattern).is_ok());
    }
}

#[test]
fn only_a_match_at_the_start_stands_for_a_token() {
    assert_eq!(token_length(None), None);
    assert_eq!(token_length(Some((0, 1))), Some(1));
    assert_eq!(token_length(Some((0, 7))), Some(7));
    assert_eq!(token_length(Some((0, 0))), None);
    assert_eq!(token_length(Some((1, 1))), None);
    assert_eq!(token_length(Some((1, 4))), None);
    assert_eq!(token_length(Some((0, usize::MAX))), Some(usize::MAX));
}

#[test]
fn place_moves_on_as_the_kind_says() {
    // Any other kind: on by the bytes, whatever the text holds.
    assert_eq!(place_after(0, 0, TokenName::Identifier, "abc"), (0, 3));
    assert_eq!(place_after(2, 5, TokenName::Comment, "# c\n"), (2, 9));
    assert_eq!(place_after(2, 5, TokenName::Whitespace, "\u{e9}"), (2, 7));
    assert_eq!(place_after(2, 5, TokenName::EOF, ""), (2, 5));
    // A newline token: a new line, whatever the text holds.
    assert_eq!(place_after(2, 5, TokenName::Newline, "\n"), (3, 0));
    assert_eq!(place_after(2, 5, TokenName::Newline, "\r\n"), (3, 0));
    assert_eq!(place_after(2, 5, TokenName::Newline, "x"), (3, 0));
    // Block comments and string literals: character by character.
    assert_eq!(place_after(2, 5, TokenName::StringLiteral, "\"ab\""), (2, 9));
    assert_eq!(place_after(2, 5, TokenName::StringLiteral, "\"a\nb\""), (3, 2));
    assert_eq!(place_after(2, 5, TokenName::StringLiteral, "\"\n\n"), (4, 0));
    assert_eq!(place_after(2, 5, TokenName::BlockComment, "###\u{e9}\u{2764}###"), (2, 13));
    assert_eq!(place_after(2, 5, TokenName::BlockComment, "###\n###"), (3, 3));
    assert_eq!(place_after(2, 5, TokenName::BlockComment, ""), (2, 5));
}
