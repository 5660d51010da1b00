use crate::grammar::{
    cases_view, fragment_view, get_rule, item_view, items_view, sequence_view, table_view,
    tokens_view, ASTNode, ASTNodeContent, Fragment, Item, ParseRule, Token, TokenName, TreeView,
    AST,
};
use crate::matching::{
    first_attempt_error, followed_by, match_all, match_first, match_fragment, match_repeated,
    match_sequence, match_single, tree_of, Matched, Outcome, ParseErrorKind,
};
use crate::nano_grammar::is_ghost_token;
use crate::text::same_text;
pub use crate::tokenizer::tokenize;
use vstd::prelude::*;

verus! {

/// A failed attempt to match, with its reason.
#[derive(Debug, Clone, Copy, PartialEq, Eq, Structural)]
pub struct ParseError {
    pub kind: ParseErrorKind,
}

/// What every attempt to match is given besides the tokens and the fragments.
pub struct ParseContext<'a> {
    /// The text that the tokens were cut from.
    pub source_string: &'a str,
    /// The rules that `Nest` fragments refer to.
    pub parse_rule_list: &'a [(&'static str, Vec<ParseRule<'a>>)],
    /// How many `Nest` fragments may be open at once.
    pub nest_limit: usize,
}

/// A successful attempt: how many tokens it advanced over, ghost or not, and what it produced.
#[derive(Debug, PartialEq, Eq)]
pub struct ParseRuleMatchResult<'a> {
    /// Set in every result: an attempt that does not match is an error, not a result.
    pub matched: bool,
    /// How many tokens the attempt advanced over.
    pub advance: usize,
    /// The items produced, in order.
    pub content: Vec<ASTNodeContent<'a>>,
}

impl<'a> View for ParseRuleMatchResult<'a> {
    type V = Matched;

    open spec fn view(&self) -> Matched {
        Matched { advance: self.advance as nat, content: items_view(self.content@) }
    }
}

/// An attempt's result as the model states it.
pub open spec fn outcome_of(result: Result<ParseRuleMatchResult, ParseError>) -> Outcome {
    match result {
        Ok(m) => Ok(m@),
        Err(e) => Err(e.kind),
    }
}

/// A tree, or the reason why there is none, as the model states it.
pub open spec fn tree_outcome(tree: Result<AST, ParseError>) -> Result<TreeView, ParseErrorKind> {
    match tree {
        Ok(t) => Ok(t@),
        Err(e) => Err(e.kind),
    }
}

/// Builds the tree of the rule named `top_level_rule_name` from the tokens in `source`.
/// The rule is looked up in `parse_rule_list`, and so is every rule that a `Nest` names;
/// `nest_limit` bounds how deep such references may nest. The tree keeps the ghost tokens
/// that were skipped only if `keep_ghost_tokens` is set.
pub fn build_tree<'a>(
    source_str: &'a str,
    source: &'a Vec<Token<'a>>,
    parse_rule_list: &'a [(&'static str, Vec<ParseRule<'a>>)],
    top_level_rule_name: &'static str,
    keep_ghost_tokens: bool,
    nest_limit: usize,
) -> (tree: Result<AST<'a>, ParseError>)
    ensures
        tree_outcome(tree) == tree_of(
            tokens_view(source@),
            table_view(parse_rule_list@),
            top_level_rule_name@,
            keep_ghost_tokens,
            nest_limit as nat,
        ),
{
    let top_level_rule = match get_rule(parse_rule_list, top_level_rule_name) {
        None => {
            return Err(ParseError { kind: ParseErrorKind::UnknownRule });
        },
        Some(r) => r,
    };
    let context = ParseContext { source_string: source_str, parse_rule_list, nest_limit };
    match match_rule(source.as_slice(), top_level_rule, &context, keep_ghost_tokens) {
        Err(e) => Err(e),
        Ok(found) => Ok(
            AST {
                is_abstract: !keep_ghost_tokens,
                root: ASTNode { matched_with: top_level_rule_name, content: found.content },
            },
        ),
    }
}

/// Matches the fragments of `rule`, in order, against the front of `source_token_pool`.
/// On success: how many tokens were advanced over and the items produced. `Nest` fragments
/// are resolved in `context.parse_rule_list` and may nest `context.nest_limit` deep.
/// Tokens behind the match are left alone; where the tokens end before the fragments do,
/// the match keeps what it has.
pub fn match_rule<'a>(
    source_token_pool: &'a [Token<'a>],
    rule: &[ParseRule],
    context: &ParseContext,
    keep_ghost_tokens: bool,
) -> (result: Result<ParseRuleMatchResult<'a>, ParseError>)
    ensures
        outcome_of(result) == match_sequence(
            tokens_view(source_token_pool@),
            0,
            sequence_view(rule@),
            table_view(context.parse_rule_list@),
            keep_ghost_tokens,
            context.nest_limit as nat,
        ),
        result matches Ok(m) ==> m.matched && m.advance <= source_token_pool.len(),
{
    match_from(source_token_pool, 0, rule, context, keep_ghost_tokens, context.nest_limit)
}

/// Putting matches one behind the other may be done in any grouping.
proof fn lemma_followed_by_twice(first: Matched, second: Matched, rest: Outcome)
    ensures
        followed_by(first, followed_by(second, rest)) == followed_by(
            Matched {
                advance: first.advance + second.advance,
                content: first.content + second.content,
            },
            rest,
        ),
{
    match rest {
        Ok(m) => {
            assert(first.content + (second.content + m.content) =~= (first.content
                + second.content) + m.content);
        },
        Err(_) => {},
    }
}

/// The view of a content with one more item is the former view with that item's view.
proof fn lemma_items_pushed(content: Seq<ASTNodeContent>, item: ASTNodeContent)
    ensures
        items_view(content.push(item)) == items_view(content) + seq![item_view(item)],
{
}

/// Whether `result` and the growth of the content from `before` to `after` are what
/// `outcome` says: on success its advance and its items appended, on failure its reason.
spec fn yields(
    outcome: Outcome,
    result: Result<usize, ParseError>,
    before: Seq<Item>,
    after: Seq<Item>,
) -> bool {
    match outcome {
        Ok(m) => result == Ok::<usize, ParseError>(m.advance as usize) && m.advance
            <= usize::MAX && after == before + m.content,
        Err(e) => result == Err::<usize, ParseError>(ParseError { kind: e }),
    }
}

/// A single-token fragment at `start`. The items it yields are pushed onto `content`.
fn match_single_at<'a>(
    pool: &'a [Token<'a>],
    start: usize,
    name: &TokenName,
    text: &Option<&str>,
    keep_ghost_tokens: bool,
    content: &mut Vec<ASTNodeContent<'a>>,
) -> (result: Result<usize, ParseError>)
    requires
        start <= pool.len(),
    ensures
        yields(
            match_single(
                tokens_view(pool@),
                start as nat,
                *name,
                match *text {
                    Some(s) => Some(s@),
                    None => None,
                },
                keep_ghost_tokens,
            ),
            result,
            items_view(old(content)@),
            items_view(final(content)@),
        ),
        result matches Ok(advance) ==> start + advance <= pool.len(),
{
    let ghost tokens = tokens_view(pool@);
    let ghost wanted = match *text {
        Some(s) => Some(s@),
        None => None,
    };
    let ghost before = items_view(content@);
    let mut offset: usize = start;
    let ghost mut taken: Seq<Item> = seq![];
    while offset < pool.len()
        invariant
            start <= offset <= pool.len(),
            tokens == tokens_view(pool@),
            before == items_view(old(content)@),
            items_view(content@) == before + taken,
            match_single(tokens, start as nat, *name, wanted, keep_ghost_tokens) == followed_by(
                Matched { advance: (offset - start) as nat, content: taken },
                match_single(tokens, offset as nat, *name, wanted, keep_ghost_tokens),
            ),
            wanted == match *text {
                Some(s) => Some(s@),
                None => None,
            },
        decreases pool.len() - offset,
    {
        let current = &pool[offset];
        let ghost here = Matched { advance: (offset - start) as nat, content: taken };
        let text_fits = match text {
            None => true,
            Some(s) => match current.str_content {
                None => false,
                Some(st) => same_text(st, s),
            },
        };
        if current.name == *name && text_fits {
            let ghost previous = content@;
            content.push(ASTNodeContent::Tok(current));
            proof {
                lemma_items_pushed(previous, ASTNodeContent::Tok(current));
                let m = Matched { advance: 1, content: seq![Item::Tok(current@)] };
                assert(before + (taken + m.content) =~= (before + taken) + m.content);
            }
            return Ok(offset - start + 1);
        } else if is_ghost_token(&current.name) {
            let ghost step = Matched {
                advance: 1,
                content: if keep_ghost_tokens {
                    seq![Item::Tok(current@)]
                } else {
                    seq![]
                },
            };
            let ghost previous = content@;
            if keep_ghost_tokens {
                content.push(ASTNodeContent::Tok(current));
            }
            proof {
                if keep_ghost_tokens {
                    lemma_items_pushed(previous, ASTNodeContent::Tok(current));
                }
                lemma_followed_by_twice(
                    here,
                    step,
                    match_single(tokens, (offset + 1) as nat, *name, wanted, keep_ghost_tokens),
                );
                taken = taken + step.content;
            }
            offset += 1;
        } else {
            return Err(ParseError { kind: ParseErrorKind::NoMatch });
        }
    }
    Ok(offset - start)
}

/// A fragment sequence at `start`.
fn match_from<'a>(
    pool: &'a [Token<'a>],
    start: usize,
    rule: &[ParseRule],
    context: &ParseContext,
    keep_ghost_tokens: bool,
    depth: usize,
) -> (result: Result<ParseRuleMatchResult<'a>, ParseError>)
    requires
        start <= pool.len(),
    ensures
        outcome_of(result) == match_sequence(
            tokens_view(pool@),
            start as nat,
            sequence_view(rule@),
            table_view(context.parse_rule_list@),
            keep_ghost_tokens,
            depth as nat,
        ),
        result matches Ok(m) ==> m.matched && start + m.advance <= pool.len(),
    decreases depth, sequence_view(rule@), 0nat,
{
    let ghost tokens = tokens_view(pool@);
    let ghost fragments = sequence_view(rule@);
    let ghost table = table_view(context.parse_rule_list@);
    let mut offset: usize = start;
    let mut index: usize = 0;
    let mut content: Vec<ASTNodeContent<'a>> = Vec::new();
    proof {
        assert(fragments.skip(0) =~= fragments);
    }
    while index < rule.len() && offset < pool.len()
        invariant
            start <= offset <= pool.len(),
            index <= rule.len(),
            tokens == tokens_view(pool@),
            fragments == sequence_view(rule@),
            table == table_view(context.parse_rule_list@),
            match_sequence(tokens, start as nat, fragments, table, keep_ghost_tokens, depth as nat)
                == followed_by(
                Matched { advance: (offset - start) as nat, content: items_view(content@) },
                match_sequence(
                    tokens,
                    offset as nat,
                    fragments.skip(index as int),
                    table,
                    keep_ghost_tokens,
                    depth as nat,
                ),
            ),
        decreases rule.len() - index,
    {
        let ghost here = Matched {
            advance: (offset - start) as nat,
            content: items_view(content@),
        };
        let ghost rest = fragments.skip(index as int);
        proof {
            assert(rest.subrange(1, rest.len() as int) =~= fragments.skip(index + 1));
        }
        match match_fragment_at(
            pool,
            offset,
            &rule[index],
            context,
            keep_ghost_tokens,
            depth,
            &mut content,
        ) {
            Err(e) => {
                return Err(e);
            },
            Ok(advance) => {
                proof {
                    let first = match_fragment(
                        tokens,
                        offset as nat,
                        rest[0],
                        table,
                        keep_ghost_tokens,
                        depth as nat,
                    )->Ok_0;
                    lemma_followed_by_twice(
                        here,
                        first,
                        match_sequence(
                            tokens,
                            (offset + advance) as nat,
                            fragments.skip(index + 1),
                            table,
                            keep_ghost_tokens,
                            depth as nat,
                        ),
                    );
                }
                offset += advance;
            },
        }
        index += 1;
    }
    Ok(ParseRuleMatchResult { matched: true, advance: offset - start, content })
}

/// Pushes what `found` produced onto `content` as one `Grouping`; returns its advance.
fn push_grouping<'a>(content: &mut Vec<ASTNodeContent<'a>>, found: ParseRuleMatchResult<'a>) -> (advance:
    usize)
    ensures
        advance == found.advance,
        items_view(final(content)@) == items_view(old(content)@) + seq![
            Item::Grouping(found@.content),
        ],
{
    let advance = found.advance;
    content.push(ASTNodeContent::Grouping(found.content));
    advance
}

/// One fragment at `start`. The items it yields are pushed onto `content`.
fn match_fragment_at<'a>(
    pool: &'a [Token<'a>],
    start: usize,
    fragment: &ParseRule,
    context: &ParseContext,
    keep_ghost_tokens: bool,
    depth: usize,
    content: &mut Vec<ASTNodeContent<'a>>,
) -> (result: Result<usize, ParseError>)
    requires
        start <= pool.len(),
    ensures
        yields(
            match_fragment(
                tokens_view(pool@),
                start as nat,
                fragment_view(*fragment),
                table_view(context.parse_rule_list@),
                keep_ghost_tokens,
                depth as nat,
            ),
            result,
            items_view(old(content)@),
            items_view(final(content)@),
        ),
        result matches Ok(advance) ==> start + advance <= pool.len(),
    decreases depth, fragment_view(*fragment), 1nat,
{
    match fragment {
        ParseRule::SingleToken(name, text) => match_single_at(
            pool,
            start,
            name,
            text,
            keep_ghost_tokens,
            content,
        ),
        ParseRule::Optional(inner) => match_optional_at(
            pool,
            start,
            inner,
            context,
            keep_ghost_tokens,
            depth,
            content,
        ),
        ParseRule::Many(inner) => match_many_at(
            pool,
            start,
            inner,
            context,
            keep_ghost_tokens,
            depth,
            content,
        ),
        ParseRule::OptionalMany(inner) => {
            match match_repeated_at(pool, start, inner, context, keep_ghost_tokens, depth) {
                Err(e) => Err(e),
                Ok((m, _)) => Ok(push_grouping(content, m)),
            }
        },
        ParseRule::Disjunction(cases) => {
            match match_first_at(pool, start, cases, context, keep_ghost_tokens, depth) {
                Err(e) => Err(e),
                Ok(m) => Ok(push_grouping(content, m)),
            }
        },
        ParseRule::Conjunction(cases) => {
            match match_all_at(pool, start, cases, context, keep_ghost_tokens, depth) {
                Err(e) => Err(e),
                Ok(m) => Ok(push_grouping(content, m)),
            }
        },
        ParseRule::Nest(name) => match_nest_at(
            pool,
            start,
            name,
            context,
            keep_ghost_tokens,
            depth,
            content,
        ),
    }
}

/// An optional sequence at `start`: its match as one `Grouping`, or the absent marker.
fn match_optional_at<'a>(
    pool: &'a [Token<'a>],
    start: usize,
    inner: &Vec<ParseRule>,
    context: &ParseContext,
    keep_ghost_tokens: bool,
    depth: usize,
    content: &mut Vec<ASTNodeContent<'a>>,
) -> (result: Result<usize, ParseError>)
    requires
        start <= pool.len(),
    ensures
        yields(
            match_fragment(
                tokens_view(pool@),
                start as nat,
                Fragment::Optional(sequence_view(inner@)),
                table_view(context.parse_rule_list@),
                keep_ghost_tokens,
                depth as nat,
            ),
            result,
            items_view(old(content)@),
            items_view(final(content)@),
        ),
        result matches Ok(advance) ==> start + advance <= pool.len(),
    decreases depth, sequence_view(inner@), 1nat,
{
    let ghost previous = content@;
    match match_from(pool, start, inner.as_slice(), context, keep_ghost_tokens, depth) {
        Ok(m) => Ok(push_grouping(content, m)),
        Err(e) => match e.kind {
            ParseErrorKind::DepthExceeded => Err(e),
            _ => {
                content.push(ASTNodeContent::Absent);
                proof {
                    lemma_items_pushed(previous, ASTNodeContent::Absent);
                }
                Ok(0)
            },
        },
    }
}

/// One or more repetitions at `start`, as one `Grouping`.
fn match_many_at<'a>(
    pool: &'a [Token<'a>],
    start: usize,
    inner: &Vec<ParseRule>,
    context: &ParseContext,
    keep_ghost_tokens: bool,
    depth: usize,
    content: &mut Vec<ASTNodeContent<'a>>,
) -> (result: Result<usize, ParseError>)
    requires
        start <= pool.len(),
    ensures
        yields(
            match_fragment(
                tokens_view(pool@),
                start as nat,
                Fragment::Many(sequence_view(inner@)),
                table_view(context.parse_rule_list@),
                keep_ghost_tokens,
                depth as nat,
            ),
            result,
            items_view(old(content)@),
            items_view(final(content)@),
        ),
        result matches Ok(advance) ==> start + advance <= pool.len(),
    decreases depth, sequence_view(inner@), 2nat,
{
    match match_repeated_at(pool, start, inner, context, keep_ghost_tokens, depth) {
        Err(e) => Err(e),
        Ok((m, reason)) => {
            if m.content.len() == 0 {
                Err(ParseError { kind: reason })
            } else {
                Ok(push_grouping(content, m))
            }
        },
    }
}

/// The rule named `name`, matched at `start` one level deeper, as one `Node`.
fn match_nest_at<'a>(
    pool: &'a [Token<'a>],
    start: usize,
    name: &'static str,
    context: &ParseContext,
    keep_ghost_tokens: bool,
    depth: usize,
    content: &mut Vec<ASTNodeContent<'a>>,
) -> (result: Result<usize, ParseError>)
    requires
        start <= pool.len(),
    ensures
        yields(
            match_fragment(
                tokens_view(pool@),
                start as nat,
                Fragment::Nest(name@),
                table_view(context.parse_rule_list@),
                keep_ghost_tokens,
                depth as nat,
            ),
            result,
            items_view(old(content)@),
            items_view(final(content)@),
        ),
        result matches Ok(advance) ==> start + advance <= pool.len(),
    decreases depth, Fragment::Nest(name@), 0nat,
{
    let ghost previous = content@;
    let rule = match get_rule(context.parse_rule_list, name) {
        None => {
            return Err(ParseError { kind: ParseErrorKind::UnknownRule });
        },
        Some(r) => r,
    };
    if depth == 0 {
        return Err(ParseError { kind: ParseErrorKind::DepthExceeded });
    }
    match match_from(pool, start, rule, context, keep_ghost_tokens, depth - 1) {
        Err(e) => Err(e),
        Ok(m) => {
            let advance = m.advance;
            let item = ASTNodeContent::Node(ASTNode { matched_with: name, content: m.content });
            content.push(item);
            proof {
                lemma_items_pushed(previous, item);
            }
            Ok(advance)
        },
    }
}

/// Repeated attempts of `inner` from `start` on. Besides the counted attempts, the reason
/// why the repetition ended where it began, for a caller that needs at least one of them.
fn match_repeated_at<'a>(
    pool: &'a [Token<'a>],
    start: usize,
    inner: &Vec<ParseRule>,
    context: &ParseContext,
    keep_ghost_tokens: bool,
    depth: usize,
) -> (result: Result<(ParseRuleMatchResult<'a>, ParseErrorKind), ParseError>)
    requires
        start <= pool.len(),
    ensures
        match match_repeated(
            tokens_view(pool@),
            start as nat,
            sequence_view(inner@),
            table_view(context.parse_rule_list@),
            keep_ghost_tokens,
            depth as nat,
        ) {
            Ok(m) => (result matches Ok((found, reason)) && found@ == m && start + found.advance
                <= pool.len() && (m.content.len() == 0 ==> reason == first_attempt_error(
                tokens_view(pool@),
                start as nat,
                sequence_view(inner@),
                table_view(context.parse_rule_list@),
                keep_ghost_tokens,
                depth as nat,
            ))),
            Err(e) => (result matches Err(err) && err.kind == e),
        },
    decreases depth, sequence_view(inner@), 1nat,
{
    let ghost tokens = tokens_view(pool@);
    let ghost fragments = sequence_view(inner@);
    let ghost table = table_view(context.parse_rule_list@);
    let mut offset: usize = start;
    let mut groups: Vec<ASTNodeContent<'a>> = Vec::new();
    let mut reason = ParseErrorKind::NoMatch;
    while offset < pool.len()
        invariant_except_break
            reason == ParseErrorKind::NoMatch,
        invariant
            start <= offset <= pool.len(),
            tokens == tokens_view(pool@),
            fragments == sequence_view(inner@),
            table == table_view(context.parse_rule_list@),
            offset == start <==> groups@.len() == 0,
            match_repeated(tokens, start as nat, fragments, table, keep_ghost_tokens, depth as nat)
                == followed_by(
                Matched { advance: (offset - start) as nat, content: items_view(groups@) },
                match_repeated(
                    tokens,
                    offset as nat,
                    fragments,
                    table,
                    keep_ghost_tokens,
                    depth as nat,
                ),
            ),
        ensures
            start <= offset <= pool.len(),
            match_repeated(tokens, start as nat, fragments, table, keep_ghost_tokens, depth as nat)
                == Ok::<Matched, ParseErrorKind>(
                Matched { advance: (offset - start) as nat, content: items_view(groups@) },
            ),
            groups@.len() == 0 ==> reason == first_attempt_error(
                tokens,
                start as nat,
                fragments,
                table,
                keep_ghost_tokens,
                depth as nat,
            ),
        decreases pool.len() - offset,
    {
        let ghost here = Matched {
            advance: (offset - start) as nat,
            content: items_view(groups@),
        };
        match match_from(pool, offset, inner.as_slice(), context, keep_ghost_tokens, depth) {
            Err(e) => {
                match e.kind {
                    ParseErrorKind::DepthExceeded => {
                        return Err(e);
                    },
                    _ => {
                        reason = e.kind;
                        break ;
                    },
                }
            },
            Ok(m) => {
                if m.advance == 0 {
                    break ;
                }
                let ghost previous = groups@;
                let ghost step = Matched {
                    advance: m.advance as nat,
                    content: seq![Item::Grouping(items_view(m.content@))],
                };
                proof {
                    lemma_followed_by_twice(
                        here,
                        step,
                        match_repeated(
                            tokens,
                            (offset + m.advance) as nat,
                            fragments,
                            table,
                            keep_ghost_tokens,
                            depth as nat,
                        ),
                    );
                }
                offset += m.advance;
                let item = ASTNodeContent::Grouping(m.content);
                groups.push(item);
                proof {
                    lemma_items_pushed(previous, item);
                }
            },
        }
    }
    Ok((ParseRuleMatchResult { matched: true, advance: offset - start, content: groups }, reason))
}

/// Ordered alternation at `start`: the match of the first case that succeeds.
fn match_first_at<'a>(
    pool: &'a [Token<'a>],
    start: usize,
    cases: &Vec<Vec<ParseRule>>,
    context: &ParseContext,
    keep_ghost_tokens: bool,
    depth: usize,
) -> (result: Result<ParseRuleMatchResult<'a>, ParseError>)
    requires
        start <= pool.len(),
    ensures
        outcome_of(result) == match_first(
            tokens_view(pool@),
            start as nat,
            cases_view(cases@),
            table_view(context.parse_rule_list@),
            keep_ghost_tokens,
            depth as nat,
        ),
        result matches Ok(m) ==> m.matched && start + m.advance <= pool.len(),
    decreases depth, cases_view(cases@), 0nat,
{
    let ghost tokens = tokens_view(pool@);
    let ghost alternatives = cases_view(cases@);
    let ghost table = table_view(context.parse_rule_list@);
    let mut index: usize = 0;
    proof {
        assert(alternatives.skip(0) =~= alternatives);
    }
    while index < cases.len()
        invariant
            index <= cases.len(),
            start <= pool.len(),
            tokens == tokens_view(pool@),
            alternatives == cases_view(cases@),
            table == table_view(context.parse_rule_list@),
            match_first(tokens, start as nat, alternatives, table, keep_ghost_tokens, depth as nat)
                == match_first(
                tokens,
                start as nat,
                alternatives.skip(index as int),
                table,
                keep_ghost_tokens,
                depth as nat,
            ),
        decreases cases.len() - index,
    {
        let ghost rest = alternatives.skip(index as int);
        proof {
            assert(rest.subrange(1, rest.len() as int) =~= alternatives.skip(index + 1));
        }
        match match_from(
            pool,
            start,
            cases[index].as_slice(),
            context,
            keep_ghost_tokens,
            depth,
        ) {
            Ok(m) => {
                return Ok(m);
            },
            Err(e) => match e.kind {
                ParseErrorKind::DepthExceeded => {
                    return Err(e);
                },
                _ => {},
            },
        }
        index += 1;
    }
    Err(ParseError { kind: ParseErrorKind::NoMatch })
}

/// Conjunction at `start`: every case is tried from `start`; the last case's match is kept.
fn match_all_at<'a>(
    pool: &'a [Token<'a>],
    start: usize,
    cases: &Vec<Vec<ParseRule>>,
    context: &ParseContext,
    keep_ghost_tokens: bool,
    depth: usize,
) -> (result: Result<ParseRuleMatchResult<'a>, ParseError>)
    requires
        start <= pool.len(),
    ensures
        outcome_of(result) == match_all(
            tokens_view(pool@),
            start as nat,
            cases_view(cases@),
            table_view(context.parse_rule_list@),
            keep_ghost_tokens,
            depth as nat,
        ),
        result matches Ok(m) ==> m.matched && start + m.advance <= pool.len(),
    decreases depth, cases_view(cases@), 0nat,
{
    let ghost tokens = tokens_view(pool@);
    let ghost alternatives = cases_view(cases@);
    let ghost table = table_view(context.parse_rule_list@);
    let mut index: usize = 0;
    let mut last_match: Option<ParseRuleMatchResult<'a>> = None;
    proof {
        assert(alternatives.skip(0) =~= alternatives);
    }
    while index < cases.len()
        invariant
            index <= cases.len(),
            start <= pool.len(),
            tokens == tokens_view(pool@),
            alternatives == cases_view(cases@),
            table == table_view(context.parse_rule_list@),
            index == 0 <==> last_match is None,
            last_match matches Some(m) ==> m.matched && start + m.advance <= pool.len(),
            index < cases.len() ==> match_all(
                tokens,
                start as nat,
                alternatives,
                table,
                keep_ghost_tokens,
                depth as nat,
            ) == match_all(
                tokens,
                start as nat,
                alternatives.skip(index as int),
                table,
                keep_ghost_tokens,
                depth as nat,
            ),
            0 < index == cases.len() ==> (last_match matches Some(m) && match_all(
                tokens,
                start as nat,
                alternatives,
                table,
                keep_ghost_tokens,
                depth as nat,
            ) == Ok::<Matched, ParseErrorKind>(m@)),
        decreases cases.len() - index,
    {
        let ghost rest = alternatives.skip(index as int);
        proof {
            assert(rest.subrange(1, rest.len() as int) =~= alternatives.skip(index + 1));
        }
        match match_from(
            pool,
            start,
            cases[index].as_slice(),
            context,
            keep_ghost_tokens,
            depth,
        ) {
            Err(e) => match e.kind {
                ParseErrorKind::DepthExceeded => {
                    return Err(e);
                },
                _ => {
                    return Err(ParseError { kind: ParseErrorKind::NoMatch });
                },
            },
            Ok(m) => {
                last_match = Some(m);
            },
        }
        index += 1;
    }
    match last_match {
        None => Err(ParseError { kind: ParseErrorKind::NoMatch }),
        Some(m) => Ok(m),
    }
}

} // verus!
