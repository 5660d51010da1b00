use crate::grammar::{sequence_view, table_view, Fragment, ParseRule, RuleTable, TokenName};
use vstd::prelude::*;

verus! {

/// The ghost kinds: tokens that rules may skip over.
pub open spec fn is_ghost(name: TokenName) -> bool {
    name == TokenName::Whitespace || name == TokenName::Indent || name == TokenName::Comment
        || name == TokenName::BlockComment || name == TokenName::Newline
}

/// Whether `tname` is a ghost kind.
pub fn is_ghost_token(tname: &TokenName) -> (ghost_kind: bool)
    ensures
        ghost_kind == is_ghost(*tname),
{
    match tname {
        TokenName::Whitespace
        | TokenName::Indent
        | TokenName::Comment
        | TokenName::BlockComment
        | TokenName::Newline => true,
        _ => false,
    }
}

/// The token kinds of nano with the expressions that recognize them, in order of priority:
/// blanks first, then punctuation, literals, identifiers and comments.
pub open spec fn nano_token_table() -> Seq<(TokenName, Seq<char>)> {
    seq![
        (TokenName::Newline, r"^\r?\n"@),
        (TokenName::Whitespace, r"^[ \s\r\f\t]+"@),
        (TokenName::Comma, r"^,"@),
        (TokenName::Semicolon, r"^;"@),
        (TokenName::Colon, r"^:"@),
        (TokenName::ThinArrow, r"^->"@),
        (TokenName::Pipe, r"^\|>"@),
        (TokenName::ParenthesisOpen, r"^\("@),
        (TokenName::ParenthesisClose, r"^\)"@),
        (TokenName::SqBracketsOpen, r"^\["@),
        (TokenName::SqBracketsClose, r"^\]"@),
        (TokenName::CrBracketsOpen, r"^\{"@),
        (TokenName::CrBracketsClose, r"^\}"@),
        (TokenName::IntLiteral, r"^(0x[0-9a-zA-Z_]+|0b[0-9]+|[0-9_]+)"@),
        (TokenName::StringLiteral, r#"^".*?""#@),
        (TokenName::Identifier, r"^[a-zA-Z_][a-zA-Z0-9_]*"@),
        (TokenName::Comment, r"^###[\s\S]*?###"@),
        (TokenName::Comment, r"^#[\s\S]*?\n"@),
        (TokenName::OpAnd, r"^#.*?\n"@),
    ]
}

/// Each kind with the characters of its expression.
pub open spec fn patterns_view(patterns: Seq<(TokenName, &'static str)>) -> Seq<
    (TokenName, Seq<char>),
> {
    Seq::new(patterns.len(), |i: int| (patterns[i].0, patterns[i].1@))
}

/// The token kinds of nano with the expressions that recognize them, in order of priority.
/// Each expression is anchored at the start of the text.
pub fn nano_token_patterns() -> (patterns: Vec<(TokenName, &'static str)>)
    ensures
        patterns_view(patterns@) == nano_token_table(),
{
    let patterns = vec![
        (TokenName::Newline, r"^\r?\n"),
        (TokenName::Whitespace, r"^[ \s\r\f\t]+"),
        (TokenName::Comma, r"^,"),
        (TokenName::Semicolon, r"^;"),
        (TokenName::Colon, r"^:"),
        (TokenName::ThinArrow, r"^->"),
        (TokenName::Pipe, r"^\|>"),
        (TokenName::ParenthesisOpen, r"^\("),
        (TokenName::ParenthesisClose, r"^\)"),
        (TokenName::SqBracketsOpen, r"^\["),
        (TokenName::SqBracketsClose, r"^\]"),
        (TokenName::CrBracketsOpen, r"^\{"),
        (TokenName::CrBracketsClose, r"^\}"),
        (TokenName::IntLiteral, r"^(0x[0-9a-zA-Z_]+|0b[0-9]+|[0-9_]+)"),
        (TokenName::StringLiteral, r#"^".*?""#),
        (TokenName::Identifier, r"^[a-zA-Z_][a-zA-Z0-9_]*"),
        (TokenName::Comment, r"^###[\s\S]*?###"),
        (TokenName::Comment, r"^#[\s\S]*?\n"),
        (TokenName::OpAnd, r"^#.*?\n"),
    ];
    patterns
}

/// The rules of nano, as the model sees them: a program is a list of expressions divided
/// by semicolons, and an expression is an integer literal.
pub open spec fn nano_rule_table() -> RuleTable {
    seq![
        ("Program"@, seq![Fragment::Nest("Exprs"@)]),
        (
            "Exprs"@,
            seq![
                Fragment::Nest("Expr"@),
                Fragment::OptionalMany(
                    seq![
                        Fragment::SingleToken(TokenName::Semicolon, None),
                        Fragment::Nest("Expr"@),
                    ],
                ),
            ],
        ),
        ("Expr"@, seq![Fragment::SingleToken(TokenName::IntLiteral, None)]),
    ]
}

/// The rules that build the tree of a nano program.
pub fn nano_parse_rules() -> (rules: Vec<(&'static str, Vec<ParseRule<'static>>)>)
    ensures
        table_view(rules@) == nano_rule_table(),
{
    let program = vec![ParseRule::Nest("Exprs")];
    let more = vec![ParseRule::SingleToken(TokenName::Semicolon, None), ParseRule::Nest("Expr")];
    let exprs = vec![ParseRule::Nest("Expr"), ParseRule::OptionalMany(more)];
    let expr = vec![ParseRule::SingleToken(TokenName::IntLiteral, None)];
    let rules = vec![("Program", program), ("Exprs", exprs), ("Expr", expr)];
    proof {
        assert(sequence_view(more@) =~= seq![
            Fragment::SingleToken(TokenName::Semicolon, None),
            Fragment::Nest("Expr"@),
        ]);
        assert(sequence_view(program@) =~= seq![Fragment::Nest("Exprs"@)]);
        assert(sequence_view(exprs@) =~= seq![
            Fragment::Nest("Expr"@),
            Fragment::OptionalMany(sequence_view(more@)),
        ]);
        assert(sequence_view(expr@) =~= seq![
            Fragment::SingleToken(TokenName::IntLiteral, None),
        ]);
    }
    rules
}

} // verus!
