use crate::grammar::{
    lookup, Fragment, Item, NodeView, RuleTable, TokenName, TokenView, TreeView,
};
use crate::nano_grammar::is_ghost;
use vstd::prelude::*;

verus! {

/// Why an attempt to match produced no content.
#[derive(Debug, Clone, Copy, PartialEq, Eq, Structural)]
pub enum ParseErrorKind {
    /// The tokens do not fit the fragments.
    NoMatch,
    /// A rule name is absent from the rule table.
    UnknownRule,
    /// Rules nest deeper than the limit the caller allowed. This says nothing of the
    /// tokens, so no fragment takes it for a mere failure to match: it ends the whole
    /// attempt.
    DepthExceeded,
}

/// What a successful attempt consumed and produced.
pub struct Matched {
    pub advance: nat,
    pub content: Seq<Item>,
}

/// How an attempt ends: with a match, or with the reason why there is none.
pub type Outcome = Result<Matched, ParseErrorKind>;

/// How many tokens lie at or after `pos`.
pub open spec fn remaining(tokens: Seq<TokenView>, pos: nat) -> nat {
    if pos < tokens.len() {
        (tokens.len() - pos) as nat
    } else {
        0
    }
}

/// Whether `token` is of kind `name` and, where `text` is given, carries exactly that text.
pub open spec fn token_fits(token: TokenView, name: TokenName, text: Option<Seq<char>>) -> bool {
    token.name == name && match text {
        None => true,
        Some(wanted) => token.text == Some(wanted),
    }
}

/// `first` followed by `rest`, where `rest` was matched after `first`.
pub open spec fn followed_by(first: Matched, rest: Outcome) -> Outcome {
    match rest {
        Ok(m) => Ok(
            Matched { advance: first.advance + m.advance, content: first.content + m.content },
        ),
        Err(e) => Err(e),
    }
}

/// A single-token fragment at `pos`: the fitting token is consumed; ghost tokens before it
/// are consumed too, and kept as items only when `retain_ghosts` is set. A significant token
/// that does not fit is a failure. Where the tokens end first, what was skipped stays consumed.
pub open spec fn match_single(
    tokens: Seq<TokenView>,
    pos: nat,
    name: TokenName,
    text: Option<Seq<char>>,
    retain_ghosts: bool,
) -> Outcome
    decreases remaining(tokens, pos),
{
    if pos >= tokens.len() {
        Ok(Matched { advance: 0, content: seq![] })
    } else if token_fits(tokens[pos as int], name, text) {
        Ok(Matched { advance: 1, content: seq![Item::Tok(tokens[pos as int])] })
    } else if is_ghost(tokens[pos as int].name) {
        followed_by(
            Matched {
                advance: 1,
                content: if retain_ghosts {
                    seq![Item::Tok(tokens[pos as int])]
                } else {
                    seq![]
                },
            },
            match_single(tokens, pos + 1, name, text, retain_ghosts),
        )
    } else {
        Err(ParseErrorKind::NoMatch)
    }
}

/// A fragment sequence at `pos`, left to right: each fragment starts where the one before it
/// stopped. The first failure fails the sequence. Where no token is left at the start of a
/// fragment, the sequence stops there and keeps what it has.
pub open spec fn match_sequence(
    tokens: Seq<TokenView>,
    pos: nat,
    fragments: Seq<Fragment>,
    table: RuleTable,
    retain_ghosts: bool,
    depth: nat,
) -> Outcome
    decreases depth, fragments, 0nat,
{
    if fragments.len() == 0 || pos >= tokens.len() {
        Ok(Matched { advance: 0, content: seq![] })
    } else {
        match match_fragment(tokens, pos, fragments[0], table, retain_ghosts, depth) {
            Err(e) => Err(e),
            Ok(first) => followed_by(
                first,
                match_sequence(
                    tokens,
                    pos + first.advance,
                    fragments.subrange(1, fragments.len() as int),
                    table,
                    retain_ghosts,
                    depth,
                ),
            ),
        }
    }
}

/// One fragment at `pos`: what it consumes and the items it contributes. A single token
/// contributes itself, behind the ghost tokens kept on the way; every other fragment
/// contributes exactly one item.
///
/// - `Optional`: the sequence's match as a `Grouping`; where the sequence fails, the
///   absent marker and no token consumed.
/// - `Many`: the counted attempts as a `Grouping` of `Grouping`s; a failure without one.
/// - `OptionalMany`: the same, and an empty `Grouping` without one.
/// - `Disjunction`: the match of the first case that succeeds, as a `Grouping`; a failure
///   if none does.
/// - `Conjunction`: the match of the last case, as a `Grouping`, if every case succeeds.
/// - `Nest`: the match of the rule of that name, one level deeper, as a `Node`. A name
///   that the table lacks is a failure of its own kind.
pub open spec fn match_fragment(
    tokens: Seq<TokenView>,
    pos: nat,
    fragment: Fragment,
    table: RuleTable,
    retain_ghosts: bool,
    depth: nat,
) -> Outcome
    decreases depth, fragment, 0nat,
{
    match fragment {
        Fragment::SingleToken(name, text) => match_single(tokens, pos, name, text, retain_ghosts),
        Fragment::Optional(inner) => match match_sequence(
            tokens,
            pos,
            inner,
            table,
            retain_ghosts,
            depth,
        ) {
            Ok(m) => Ok(Matched { advance: m.advance, content: seq![Item::Grouping(m.content)] }),
            Err(ParseErrorKind::DepthExceeded) => Err(ParseErrorKind::DepthExceeded),
            Err(_) => Ok(Matched { advance: 0, content: seq![Item::Absent] }),
        },
        Fragment::Many(inner) => match match_repeated(
            tokens,
            pos,
            inner,
            table,
            retain_ghosts,
            depth,
        ) {
            Err(e) => Err(e),
            Ok(m) => if m.content.len() == 0 {
                Err(first_attempt_error(tokens, pos, inner, table, retain_ghosts, depth))
            } else {
                Ok(Matched { advance: m.advance, content: seq![Item::Grouping(m.content)] })
            },
        },
        Fragment::OptionalMany(inner) => match match_repeated(
            tokens,
            pos,
            inner,
            table,
            retain_ghosts,
            depth,
        ) {
            Err(e) => Err(e),
            Ok(m) => Ok(Matched { advance: m.advance, content: seq![Item::Grouping(m.content)] }),
        },
        Fragment::Disjunction(cases) => match match_first(
            tokens,
            pos,
            cases,
            table,
            retain_ghosts,
            depth,
        ) {
            Err(e) => Err(e),
            Ok(m) => Ok(Matched { advance: m.advance, content: seq![Item::Grouping(m.content)] }),
        },
        Fragment::Conjunction(cases) => match match_all(
            tokens,
            pos,
            cases,
            table,
            retain_ghosts,
            depth,
        ) {
            Err(e) => Err(e),
            Ok(m) => Ok(Matched { advance: m.advance, content: seq![Item::Grouping(m.content)] }),
        },
        Fragment::Nest(name) => match lookup(table, name) {
            None => Err(ParseErrorKind::UnknownRule),
            Some(rule) => if depth == 0 {
                Err(ParseErrorKind::DepthExceeded)
            } else {
                match match_sequence(tokens, pos, rule, table, retain_ghosts, (depth - 1) as nat) {
                    Err(e) => Err(e),
                    Ok(m) => Ok(
                        Matched { advance: m.advance, content: seq![Item::Node(name, m.content)] },
                    ),
                }
            },
        },
    }
}

/// The failure that a repetition with no counted attempt reports: that of its first attempt,
/// or `NoMatch` where that attempt succeeded without consuming a token.
pub open spec fn first_attempt_error(
    tokens: Seq<TokenView>,
    pos: nat,
    inner: Seq<Fragment>,
    table: RuleTable,
    retain_ghosts: bool,
    depth: nat,
) -> ParseErrorKind
    decreases depth, inner, 1nat,
{
    match match_sequence(tokens, pos, inner, table, retain_ghosts, depth) {
        Err(e) => e,
        Ok(_) => ParseErrorKind::NoMatch,
    }
}

/// Repeated attempts of `inner`, each starting where the one before it stopped. An attempt
/// counts when it succeeds and consumes at least one token; each counted attempt contributes
/// one `Grouping`. The first attempt that does not count ends the repetition and leaves
/// nothing behind. Only exceeding the depth limit is an error here.
pub open spec fn match_repeated(
    tokens: Seq<TokenView>,
    pos: nat,
    inner: Seq<Fragment>,
    table: RuleTable,
    retain_ghosts: bool,
    depth: nat,
) -> Outcome
    decreases depth, inner, 1 + remaining(tokens, pos),
{
    if pos >= tokens.len() {
        Ok(Matched { advance: 0, content: seq![] })
    } else {
        match match_sequence(tokens, pos, inner, table, retain_ghosts, depth) {
            Err(ParseErrorKind::DepthExceeded) => Err(ParseErrorKind::DepthExceeded),
            Err(_) => Ok(Matched { advance: 0, content: seq![] }),
            Ok(m) => if m.advance == 0 {
                Ok(Matched { advance: 0, content: seq![] })
            } else {
                followed_by(
                    Matched { advance: m.advance, content: seq![Item::Grouping(m.content)] },
                    match_repeated(tokens, pos + m.advance, inner, table, retain_ghosts, depth),
                )
            },
        }
    }
}

/// Ordered alternation: the content of the first case that succeeds at `pos`.
/// Later cases are not consulted once one has succeeded.
pub open spec fn match_first(
    tokens: Seq<TokenView>,
    pos: nat,
    cases: Seq<Seq<Fragment>>,
    table: RuleTable,
    retain_ghosts: bool,
    depth: nat,
) -> Outcome
    decreases depth, cases, 0nat,
{
    if cases.len() == 0 {
        Err(ParseErrorKind::NoMatch)
    } else {
        match match_sequence(tokens, pos, cases[0], table, retain_ghosts, depth) {
            Ok(m) => Ok(m),
            Err(ParseErrorKind::DepthExceeded) => Err(ParseErrorKind::DepthExceeded),
            Err(_) => match_first(
                tokens,
                pos,
                cases.subrange(1, cases.len() as int),
                table,
                retain_ghosts,
                depth,
            ),
        }
    }
}

/// Conjunction: every case must succeed at the same `pos`; the last case's match is the result.
/// With no case at all there is nothing to report, which is a failure.
pub open spec fn match_all(
    tokens: Seq<TokenView>,
    pos: nat,
    cases: Seq<Seq<Fragment>>,
    table: RuleTable,
    retain_ghosts: bool,
    depth: nat,
) -> Outcome
    decreases depth, cases, 0nat,
{
    if cases.len() == 0 {
        Err(ParseErrorKind::NoMatch)
    } else {
        match match_sequence(tokens, pos, cases[0], table, retain_ghosts, depth) {
            Err(ParseErrorKind::DepthExceeded) => Err(ParseErrorKind::DepthExceeded),
            Err(_) => Err(ParseErrorKind::NoMatch),
            Ok(m) => if cases.len() == 1 {
                Ok(m)
            } else {
                match_all(
                    tokens,
                    pos,
                    cases.subrange(1, cases.len() as int),
                    table,
                    retain_ghosts,
                    depth,
                )
            },
        }
    }
}

/// The tree that the rule named `start_rule` builds from the whole of `tokens`: the rule's
/// match from the first token on, as the root. It is abstract when ghost tokens are left out.
/// Tokens left over behind the match are no failure.
pub open spec fn tree_of(
    tokens: Seq<TokenView>,
    table: RuleTable,
    start_rule: Seq<char>,
    retain_ghosts: bool,
    depth: nat,
) -> Result<TreeView, ParseErrorKind> {
    match lookup(table, start_rule) {
        None => Err(ParseErrorKind::UnknownRule),
        Some(rule) => match match_sequence(tokens, 0, rule, table, retain_ghosts, depth) {
            Err(e) => Err(e),
            Ok(m) => Ok(
                TreeView {
                    is_abstract: !retain_ghosts,
                    root: NodeView { matched_with: start_rule, content: m.content },
                },
            ),
        },
    }
}

} // verus!
