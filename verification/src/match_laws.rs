use crate::grammar::{lookup, Fragment, Item, RuleTable, TokenName, TokenView};
use crate::matching::{
    followed_by, match_all, match_first, match_fragment, match_repeated, match_sequence,
    match_single, remaining, token_fits, tree_of, Matched, Outcome, ParseErrorKind,
};
use crate::nano_grammar::is_ghost;
use vstd::prelude::*;

verus! {

/// First match wins. Where the first case of a disjunction succeeds, the disjunction yields
/// that case's match as one `Grouping`, whatever the later cases would do.
pub proof fn lemma_disjunction_takes_first_case(
    tokens: Seq<TokenView>,
    pos: nat,
    cases: Seq<Seq<Fragment>>,
    table: RuleTable,
    retain_ghosts: bool,
    depth: nat,
)
    requires
        cases.len() > 0,
        match_sequence(tokens, pos, cases[0], table, retain_ghosts, depth) is Ok,
    ensures
        match_fragment(tokens, pos, Fragment::Disjunction(cases), table, retain_ghosts, depth)
            == Ok::<Matched, ParseErrorKind>(
            Matched {
                advance: match_sequence(
                    tokens,
                    pos,
                    cases[0],
                    table,
                    retain_ghosts,
                    depth,
                )->Ok_0.advance,
                content: seq![
                    Item::Grouping(
                        match_sequence(
                            tokens,
                            pos,
                            cases[0],
                            table,
                            retain_ghosts,
                            depth,
                        )->Ok_0.content,
                    ),
                ],
            },
        ),
{
}

/// Ordered alternation. Where the cases before the `chosen` one fail, for another reason
/// than the depth limit, and the `chosen` one succeeds, the disjunction yields its match.
pub proof fn lemma_disjunction_takes_first_success(
    tokens: Seq<TokenView>,
    pos: nat,
    cases: Seq<Seq<Fragment>>,
    chosen: int,
    table: RuleTable,
    retain_ghosts: bool,
    depth: nat,
)
    requires
        0 <= chosen < cases.len(),
        match_sequence(tokens, pos, cases[chosen], table, retain_ghosts, depth) is Ok,
        forall|j: int|
            0 <= j < chosen ==> (#[trigger] match_sequence(
                tokens,
                pos,
                cases[j],
                table,
                retain_ghosts,
                depth,
            ) matches Err(e) && e != ParseErrorKind::DepthExceeded),
    ensures
        match_first(tokens, pos, cases, table, retain_ghosts, depth) == match_sequence(
            tokens,
            pos,
            cases[chosen],
            table,
            retain_ghosts,
            depth,
        ),
    decreases chosen,
{
    if chosen > 0 {
        let rest = cases.subrange(1, cases.len() as int);
        assert(match_sequence(tokens, pos, cases[0], table, retain_ghosts, depth) is Err);
        assert forall|j: int| 0 <= j < chosen - 1 implies (#[trigger] match_sequence(
            tokens,
            pos,
            rest[j],
            table,
            retain_ghosts,
            depth,
        ) matches Err(e) && e != ParseErrorKind::DepthExceeded) by {}
        lemma_disjunction_takes_first_success(
            tokens,
            pos,
            rest,
            chosen - 1,
            table,
            retain_ghosts,
            depth,
        );
    }
}

/// Conjunction keeps the last case. Where every case succeeds at `pos`, the conjunction
/// yields the match of the last one; the matches of the others leave no trace.
pub proof fn lemma_conjunction_keeps_last_case(
    tokens: Seq<TokenView>,
    pos: nat,
    cases: Seq<Seq<Fragment>>,
    table: RuleTable,
    retain_ghosts: bool,
    depth: nat,
)
    requires
        cases.len() > 0,
        forall|j: int|
            0 <= j < cases.len() ==> #[trigger] match_sequence(
                tokens,
                pos,
                cases[j],
                table,
                retain_ghosts,
                depth,
            ) is Ok,
    ensures
        match_all(tokens, pos, cases, table, retain_ghosts, depth) == match_sequence(
            tokens,
            pos,
            cases[cases.len() - 1],
            table,
            retain_ghosts,
            depth,
        ),
    decreases cases.len(),
{
    if cases.len() > 1 {
        let rest = cases.subrange(1, cases.len() as int);
        assert forall|j: int| 0 <= j < rest.len() implies #[trigger] match_sequence(
            tokens,
            pos,
            rest[j],
            table,
            retain_ghosts,
            depth,
        ) is Ok by {}
        lemma_conjunction_keeps_last_case(tokens, pos, rest, table, retain_ghosts, depth);
    }
}

/// Conjunction needs every case. Where one case fails at `pos`, the conjunction fails.
pub proof fn lemma_conjunction_needs_every_case(
    tokens: Seq<TokenView>,
    pos: nat,
    cases: Seq<Seq<Fragment>>,
    failing: int,
    table: RuleTable,
    retain_ghosts: bool,
    depth: nat,
)
    requires
        0 <= failing < cases.len(),
        match_sequence(tokens, pos, cases[failing], table, retain_ghosts, depth) is Err,
    ensures
        match_all(tokens, pos, cases, table, retain_ghosts, depth) is Err,
    decreases cases.len(),
{
    if failing > 0 && match_sequence(tokens, pos, cases[0], table, retain_ghosts, depth) is Ok {
        let rest = cases.subrange(1, cases.len() as int);
        lemma_conjunction_needs_every_case(
            tokens,
            pos,
            rest,
            failing - 1,
            table,
            retain_ghosts,
            depth,
        );
    }
}

/// Optional fragments do not fail. Short of the depth limit, `Optional` and `OptionalMany`
/// succeed on every input.
pub proof fn lemma_optional_fragments_succeed(
    tokens: Seq<TokenView>,
    pos: nat,
    inner: Seq<Fragment>,
    table: RuleTable,
    retain_ghosts: bool,
    depth: nat,
)
    ensures
        match match_fragment(tokens, pos, Fragment::Optional(inner), table, retain_ghosts, depth) {
            Ok(m) => m.content.len() == 1,
            Err(e) => e == ParseErrorKind::DepthExceeded,
        },
        match match_fragment(
            tokens,
            pos,
            Fragment::OptionalMany(inner),
            table,
            retain_ghosts,
            depth,
        ) {
            Ok(m) => m.content.len() == 1,
            Err(e) => e == ParseErrorKind::DepthExceeded,
        },
{
    lemma_repetition_fails_on_depth_only(tokens, pos, inner, table, retain_ghosts, depth);
}

proof fn lemma_repetition_fails_on_depth_only(
    tokens: Seq<TokenView>,
    pos: nat,
    inner: Seq<Fragment>,
    table: RuleTable,
    retain_ghosts: bool,
    depth: nat,
)
    ensures
        match_repeated(tokens, pos, inner, table, retain_ghosts, depth) matches Err(e) ==> e
            == ParseErrorKind::DepthExceeded,
    decreases remaining(tokens, pos),
{
    if pos < tokens.len() {
        if let Ok(m) = match_sequence(tokens, pos, inner, table, retain_ghosts, depth) {
            if m.advance > 0 {
                lemma_repetition_fails_on_depth_only(
                    tokens,
                    pos + m.advance,
                    inner,
                    table,
                    retain_ghosts,
                    depth,
                );
            }
        }
    }
}

/// A match stays within the tokens: it advances over no more tokens than lie at or after
/// the place where it began.
pub proof fn lemma_advance_within_tokens(
    tokens: Seq<TokenView>,
    pos: nat,
    fragments: Seq<Fragment>,
    table: RuleTable,
    retain_ghosts: bool,
    depth: nat,
)
    ensures
        match_sequence(tokens, pos, fragments, table, retain_ghosts, depth) matches Ok(m)
            ==> m.advance <= remaining(tokens, pos),
    decreases depth, fragments, 0nat,
{
    if fragments.len() > 0 && pos < tokens.len() {
        lemma_fragment_within_tokens(tokens, pos, fragments[0], table, retain_ghosts, depth);
        if let Ok(first) = match_fragment(tokens, pos, fragments[0], table, retain_ghosts, depth) {
            lemma_advance_within_tokens(
                tokens,
                pos + first.advance,
                fragments.subrange(1, fragments.len() as int),
                table,
                retain_ghosts,
                depth,
            );
        }
    }
}

proof fn lemma_single_within_tokens(
    tokens: Seq<TokenView>,
    pos: nat,
    name: TokenName,
    text: Option<Seq<char>>,
    retain_ghosts: bool,
)
    ensures
        match_single(tokens, pos, name, text, retain_ghosts) matches Ok(m) ==> m.advance
            <= remaining(tokens, pos),
    decreases remaining(tokens, pos),
{
    if pos < tokens.len() {
        lemma_single_within_tokens(tokens, pos + 1, name, text, retain_ghosts);
    }
}

proof fn lemma_fragment_within_tokens(
    tokens: Seq<TokenView>,
    pos: nat,
    fragment: Fragment,
    table: RuleTable,
    retain_ghosts: bool,
    depth: nat,
)
    ensures
        match_fragment(tokens, pos, fragment, table, retain_ghosts, depth) matches Ok(m)
            ==> m.advance <= remaining(tokens, pos),
    decreases depth, fragment, 0nat,
{
    match fragment {
        Fragment::SingleToken(name, text) => {
            lemma_single_within_tokens(tokens, pos, name, text, retain_ghosts);
        },
        Fragment::Optional(inner) => {
            lemma_advance_within_tokens(tokens, pos, inner, table, retain_ghosts, depth);
        },
        Fragment::Many(inner) => {
            lemma_repeated_within_tokens(tokens, pos, inner, table, retain_ghosts, depth);
        },
        Fragment::OptionalMany(inner) => {
            lemma_repeated_within_tokens(tokens, pos, inner, table, retain_ghosts, depth);
        },
        Fragment::Disjunction(cases) => {
            lemma_first_within_tokens(tokens, pos, cases, table, retain_ghosts, depth);
        },
        Fragment::Conjunction(cases) => {
            lemma_all_within_tokens(tokens, pos, cases, table, retain_ghosts, depth);
        },
        Fragment::Nest(name) => {
            if let Some(rule) = lookup(table, name) {
                if depth > 0 {
                    lemma_advance_within_tokens(
                        tokens,
                        pos,
                        rule,
                        table,
                        retain_ghosts,
                        (depth - 1) as nat,
                    );
                }
            }
        },
    }
}

proof fn lemma_repeated_within_tokens(
    tokens: Seq<TokenView>,
    pos: nat,
    inner: Seq<Fragment>,
    table: RuleTable,
    retain_ghosts: bool,
    depth: nat,
)
    ensures
        match_repeated(tokens, pos, inner, table, retain_ghosts, depth) matches Ok(m)
            ==> m.advance <= remaining(tokens, pos),
    decreases depth, inner, 1 + remaining(tokens, pos),
{
    if pos < tokens.len() {
        lemma_advance_within_tokens(tokens, pos, inner, table, retain_ghosts, depth);
        if let Ok(m) = match_sequence(tokens, pos, inner, table, retain_ghosts, depth) {
            if m.advance > 0 {
                lemma_repeated_within_tokens(
                    tokens,
                    pos + m.advance,
                    inner,
                    table,
                    retain_ghosts,
                    depth,
                );
            }
        }
    }
}

proof fn lemma_first_within_tokens(
    tokens: Seq<TokenView>,
    pos: nat,
    cases: Seq<Seq<Fragment>>,
    table: RuleTable,
    retain_ghosts: bool,
    depth: nat,
)
    ensures
        match_first(tokens, pos, cases, table, retain_ghosts, depth) matches Ok(m) ==> m.advance
            <= remaining(tokens, pos),
    decreases depth, cases, 0nat,
{
    if cases.len() > 0 {
        lemma_advance_within_tokens(tokens, pos, cases[0], table, retain_ghosts, depth);
        lemma_first_within_tokens(
            tokens,
            pos,
            cases.subrange(1, cases.len() as int),
            table,
            retain_ghosts,
            depth,
        );
    }
}

proof fn lemma_all_within_tokens(
    tokens: Seq<TokenView>,
    pos: nat,
    cases: Seq<Seq<Fragment>>,
    table: RuleTable,
    retain_ghosts: bool,
    depth: nat,
)
    ensures
        match_all(tokens, pos, cases, table, retain_ghosts, depth) matches Ok(m) ==> m.advance
            <= remaining(tokens, pos),
    decreases depth, cases, 0nat,
{
    if cases.len() > 0 {
        lemma_advance_within_tokens(tokens, pos, cases[0], table, retain_ghosts, depth);
        lemma_all_within_tokens(
            tokens,
            pos,
            cases.subrange(1, cases.len() as int),
            table,
            retain_ghosts,
            depth,
        );
    }
}

/// Whether, from `pos` on, exactly `count` attempts of `inner` in a row succeed and consume
/// tokens, each starting where the one before it stopped, and the attempt behind them does
/// not: it fails short of the depth limit, consumes nothing, or finds no token left.
pub open spec fn occurs_in_a_row(
    tokens: Seq<TokenView>,
    pos: nat,
    inner: Seq<Fragment>,
    table: RuleTable,
    retain_ghosts: bool,
    depth: nat,
    count: nat,
) -> bool
    decreases count,
{
    let attempt = match_sequence(tokens, pos, inner, table, retain_ghosts, depth);
    if count == 0 {
        pos >= tokens.len() || match attempt {
            Ok(m) => m.advance == 0,
            Err(e) => e != ParseErrorKind::DepthExceeded,
        }
    } else {
        pos < tokens.len() && match attempt {
            Ok(m) => m.advance > 0 && occurs_in_a_row(
                tokens,
                pos + m.advance,
                inner,
                table,
                retain_ghosts,
                depth,
                (count - 1) as nat,
            ),
            Err(_) => false,
        }
    }
}

/// A repetition over `count` occurrences in a row collects exactly `count` items.
pub proof fn lemma_repetition_counts(
    tokens: Seq<TokenView>,
    pos: nat,
    inner: Seq<Fragment>,
    table: RuleTable,
    retain_ghosts: bool,
    depth: nat,
    count: nat,
)
    requires
        occurs_in_a_row(tokens, pos, inner, table, retain_ghosts, depth, count),
    ensures
        match_repeated(tokens, pos, inner, table, retain_ghosts, depth) matches Ok(m)
            && m.content.len() == count && forall|i: int|
            0 <= i < count ==> #[trigger] m.content[i] is Grouping,
    decreases count,
{
    if count > 0 {
        let first = match_sequence(tokens, pos, inner, table, retain_ghosts, depth)->Ok_0;
        lemma_repetition_counts(
            tokens,
            pos + first.advance,
            inner,
            table,
            retain_ghosts,
            depth,
            (count - 1) as nat,
        );
    }
}

/// Many needs one. With no occurrence at `pos`, `Many` fails. With `count` occurrences in a
/// row, `count` at least one, it succeeds with one `Grouping` that holds exactly `count`
/// `Grouping` items.
pub proof fn lemma_many_minimum(
    tokens: Seq<TokenView>,
    pos: nat,
    inner: Seq<Fragment>,
    table: RuleTable,
    retain_ghosts: bool,
    depth: nat,
    count: nat,
)
    requires
        occurs_in_a_row(tokens, pos, inner, table, retain_ghosts, depth, count),
    ensures
        count == 0 ==> match_fragment(
            tokens,
            pos,
            Fragment::Many(inner),
            table,
            retain_ghosts,
            depth,
        ) is Err,
        count >= 1 ==> (match_fragment(
            tokens,
            pos,
            Fragment::Many(inner),
            table,
            retain_ghosts,
            depth,
        ) matches Ok(m) && m.content.len() == 1 && (m.content[0] matches Item::Grouping(groups)
            && groups.len() == count && forall|i: int|
            0 <= i < count ==> #[trigger] groups[i] is Grouping)),
        match_fragment(tokens, pos, Fragment::OptionalMany(inner), table, retain_ghosts, depth)
            matches Ok(m) && m.content.len() == 1 && (m.content[0] matches Item::Grouping(groups)
            && groups.len() == count),
{
    lemma_repetition_counts(tokens, pos, inner, table, retain_ghosts, depth, count);
}

/// `items` without the tokens of a ghost kind, at every level; all else stays as it is.
pub open spec fn significant(items: Seq<Item>) -> Seq<Item>
    decreases items, 0nat,
{
    if items.len() == 0 {
        seq![]
    } else {
        significant(items.subrange(0, items.len() - 1)) + significant_item(items[items.len() - 1])
    }
}

/// `item` without the ghost tokens in it: nothing if it is one itself.
pub open spec fn significant_item(item: Item) -> Seq<Item>
    decreases item, 1nat,
{
    match item {
        Item::Absent => seq![Item::Absent],
        Item::Tok(token) => if is_ghost(token.name) {
            seq![]
        } else {
            seq![Item::Tok(token)]
        },
        Item::Grouping(inner) => seq![Item::Grouping(significant(inner))],
        Item::Node(name, inner) => seq![Item::Node(name, significant(inner))],
    }
}

/// Whether two outcomes differ in ghost tokens at most: both fail for the same reason, or
/// both succeed, advance equally far and produce the same items once ghost tokens are left out.
pub open spec fn same_but_ghosts(kept: Outcome, dropped: Outcome) -> bool {
    match (kept, dropped) {
        (Ok(a), Ok(b)) => a.advance == b.advance && significant(a.content) == significant(
            b.content,
        ),
        (Err(e), Err(f)) => e == f,
        _ => false,
    }
}

proof fn lemma_significant_of_one(item: Item)
    ensures
        significant(seq![item]) == significant_item(item),
{
    let one = seq![item];
    assert(significant(one) =~= significant_item(item)) by {
        reveal_with_fuel(significant, 2);
    }
}

proof fn lemma_significant_of_both(front: Seq<Item>, back: Seq<Item>)
    ensures
        significant(front + back) == significant(front) + significant(back),
    decreases back.len(),
{
    if back.len() > 0 {
        let all = front + back;
        let shorter = back.subrange(0, back.len() - 1);
        assert(all.subrange(0, all.len() - 1) =~= front + shorter);
        lemma_significant_of_both(front, shorter);
    }
}

proof fn lemma_followed_by_same_but_ghosts(
    kept_first: Matched,
    dropped_first: Matched,
    kept_rest: Outcome,
    dropped_rest: Outcome,
)
    requires
        same_but_ghosts(
            Ok::<Matched, ParseErrorKind>(kept_first),
            Ok::<Matched, ParseErrorKind>(dropped_first),
        ),
        same_but_ghosts(kept_rest, dropped_rest),
    ensures
        same_but_ghosts(
            followed_by(kept_first, kept_rest),
            followed_by(dropped_first, dropped_rest),
        ),
{
    if let Ok(a) = kept_rest {
        let b = dropped_rest->Ok_0;
        lemma_significant_of_both(kept_first.content, a.content);
        lemma_significant_of_both(dropped_first.content, b.content);
    }
}

proof fn lemma_single_same_but_ghosts(
    tokens: Seq<TokenView>,
    pos: nat,
    name: TokenName,
    text: Option<Seq<char>>,
)
    ensures
        same_but_ghosts(
            match_single(tokens, pos, name, text, true),
            match_single(tokens, pos, name, text, false),
        ),
    decreases remaining(tokens, pos),
{
    if pos < tokens.len() {
        let token = tokens[pos as int];
        if token_fits(token, name, text) {
        } else if is_ghost(token.name) {
            lemma_single_same_but_ghosts(tokens, pos + 1, name, text);
            lemma_significant_of_one(Item::Tok(token));
            lemma_followed_by_same_but_ghosts(
                Matched { advance: 1, content: seq![Item::Tok(token)] },
                Matched { advance: 1, content: seq![] },
                match_single(tokens, pos + 1, name, text, true),
                match_single(tokens, pos + 1, name, text, false),
            );
        }
    }
}

/// Ghost transparency. Matching with and without the skipped ghost tokens kept fails alike
/// or succeeds alike, over the same number of tokens; what is produced differs only in
/// tokens of a ghost kind.
pub proof fn lemma_ghost_transparency(
    tokens: Seq<TokenView>,
    pos: nat,
    fragments: Seq<Fragment>,
    table: RuleTable,
    depth: nat,
)
    ensures
        same_but_ghosts(
            match_sequence(tokens, pos, fragments, table, true, depth),
            match_sequence(tokens, pos, fragments, table, false, depth),
        ),
    decreases depth, fragments, 0nat,
{
    if fragments.len() > 0 && pos < tokens.len() {
        lemma_fragment_same_but_ghosts(tokens, pos, fragments[0], table, depth);
        let kept = match_fragment(tokens, pos, fragments[0], table, true, depth);
        let dropped = match_fragment(tokens, pos, fragments[0], table, false, depth);
        if let Ok(first) = kept {
            let rest = fragments.subrange(1, fragments.len() as int);
            lemma_ghost_transparency(tokens, pos + first.advance, rest, table, depth);
            lemma_followed_by_same_but_ghosts(
                first,
                dropped->Ok_0,
                match_sequence(tokens, pos + first.advance, rest, table, true, depth),
                match_sequence(tokens, pos + first.advance, rest, table, false, depth),
            );
        }
    }
}

proof fn lemma_grouping_same_but_ghosts(kept: Matched, dropped: Matched)
    requires
        same_but_ghosts(Ok::<Matched, ParseErrorKind>(kept), Ok::<Matched, ParseErrorKind>(dropped)),
    ensures
        same_but_ghosts(
            Ok::<Matched, ParseErrorKind>(
                Matched { advance: kept.advance, content: seq![Item::Grouping(kept.content)] },
            ),
            Ok::<Matched, ParseErrorKind>(
                Matched {
                    advance: dropped.advance,
                    content: seq![Item::Grouping(dropped.content)],
                },
            ),
        ),
{
    lemma_significant_of_one(Item::Grouping(kept.content));
    lemma_significant_of_one(Item::Grouping(dropped.content));
}

proof fn lemma_fragment_same_but_ghosts(
    tokens: Seq<TokenView>,
    pos: nat,
    fragment: Fragment,
    table: RuleTable,
    depth: nat,
)
    ensures
        same_but_ghosts(
            match_fragment(tokens, pos, fragment, table, true, depth),
            match_fragment(tokens, pos, fragment, table, false, depth),
        ),
    decreases depth, fragment, 0nat,
{
    match fragment {
        Fragment::SingleToken(name, text) => {
            lemma_single_same_but_ghosts(tokens, pos, name, text);
        },
        Fragment::Optional(inner) => {
            lemma_ghost_transparency(tokens, pos, inner, table, depth);
            let kept = match_sequence(tokens, pos, inner, table, true, depth);
            let dropped = match_sequence(tokens, pos, inner, table, false, depth);
            if let Ok(a) = kept {
                lemma_grouping_same_but_ghosts(a, dropped->Ok_0);
            }
        },
        Fragment::Many(inner) => {
            lemma_repeated_same_but_ghosts(tokens, pos, inner, table, depth);
            lemma_ghost_transparency(tokens, pos, inner, table, depth);
            let kept = match_repeated(tokens, pos, inner, table, true, depth);
            let dropped = match_repeated(tokens, pos, inner, table, false, depth);
            if let Ok(a) = kept {
                lemma_grouping_same_but_ghosts(a, dropped->Ok_0);
            }
        },
        Fragment::OptionalMany(inner) => {
            lemma_repeated_same_but_ghosts(tokens, pos, inner, table, depth);
            let kept = match_repeated(tokens, pos, inner, table, true, depth);
            let dropped = match_repeated(tokens, pos, inner, table, false, depth);
            if let Ok(a) = kept {
                lemma_grouping_same_but_ghosts(a, dropped->Ok_0);
            }
        },
        Fragment::Disjunction(cases) => {
            lemma_first_same_but_ghosts(tokens, pos, cases, table, depth);
            let kept = match_first(tokens, pos, cases, table, true, depth);
            let dropped = match_first(tokens, pos, cases, table, false, depth);
            if let Ok(a) = kept {
                lemma_grouping_same_but_ghosts(a, dropped->Ok_0);
            }
        },
        Fragment::Conjunction(cases) => {
            lemma_all_same_but_ghosts(tokens, pos, cases, table, depth);
            let kept = match_all(tokens, pos, cases, table, true, depth);
            let dropped = match_all(tokens, pos, cases, table, false, depth);
            if let Ok(a) = kept {
                lemma_grouping_same_but_ghosts(a, dropped->Ok_0);
            }
        },
        Fragment::Nest(name) => {
            if let Some(rule) = lookup(table, name) {
                if depth > 0 {
                    lemma_ghost_transparency(tokens, pos, rule, table, (depth - 1) as nat);
                    let kept = match_sequence(tokens, pos, rule, table, true, (depth - 1) as nat);
                    let dropped = match_sequence(
                        tokens,
                        pos,
                        rule,
                        table,
                        false,
                        (depth - 1) as nat,
                    );
                    if let Ok(a) = kept {
                        lemma_significant_of_one(Item::Node(name, a.content));
                        lemma_significant_of_one(Item::Node(name, dropped->Ok_0.content));
                    }
                }
            }
        },
    }
}

proof fn lemma_repeated_same_but_ghosts(
    tokens: Seq<TokenView>,
    pos: nat,
    inner: Seq<Fragment>,
    table: RuleTable,
    depth: nat,
)
    ensures
        same_but_ghosts(
            match_repeated(tokens, pos, inner, table, true, depth),
            match_repeated(tokens, pos, inner, table, false, depth),
        ),
        match_repeated(tokens, pos, inner, table, true, depth) matches Ok(a) ==> a.content.len()
            == match_repeated(tokens, pos, inner, table, false, depth)->Ok_0.content.len(),
    decreases depth, inner, 1 + remaining(tokens, pos),
{
    if pos < tokens.len() {
        lemma_ghost_transparency(tokens, pos, inner, table, depth);
        let kept = match_sequence(tokens, pos, inner, table, true, depth);
        let dropped = match_sequence(tokens, pos, inner, table, false, depth);
        if let Ok(a) = kept {
            let b = dropped->Ok_0;
            if a.advance > 0 {
                lemma_repeated_same_but_ghosts(tokens, pos + a.advance, inner, table, depth);
                lemma_grouping_same_but_ghosts(a, b);
                lemma_followed_by_same_but_ghosts(
                    Matched { advance: a.advance, content: seq![Item::Grouping(a.content)] },
                    Matched { advance: b.advance, content: seq![Item::Grouping(b.content)] },
                    match_repeated(tokens, pos + a.advance, inner, table, true, depth),
                    match_repeated(tokens, pos + a.advance, inner, table, false, depth),
                );
            }
        }
    }
}

proof fn lemma_first_same_but_ghosts(
    tokens: Seq<TokenView>,
    pos: nat,
    cases: Seq<Seq<Fragment>>,
    table: RuleTable,
    depth: nat,
)
    ensures
        same_but_ghosts(
            match_first(tokens, pos, cases, table, true, depth),
            match_first(tokens, pos, cases, table, false, depth),
        ),
    decreases depth, cases, 0nat,
{
    if cases.len() > 0 {
        lemma_ghost_transparency(tokens, pos, cases[0], table, depth);
        lemma_first_same_but_ghosts(
            tokens,
            pos,
            cases.subrange(1, cases.len() as int),
            table,
            depth,
        );
    }
}

proof fn lemma_all_same_but_ghosts(
    tokens: Seq<TokenView>,
    pos: nat,
    cases: Seq<Seq<Fragment>>,
    table: RuleTable,
    depth: nat,
)
    ensures
        same_but_ghosts(
            match_all(tokens, pos, cases, table, true, depth),
            match_all(tokens, pos, cases, table, false, depth),
        ),
    decreases depth, cases, 0nat,
{
    if cases.len() > 0 {
        lemma_ghost_transparency(tokens, pos, cases[0], table, depth);
        lemma_all_same_but_ghosts(
            tokens,
            pos,
            cases.subrange(1, cases.len() as int),
            table,
            depth,
        );
    }
}

/// Ghost transparency of whole trees. A concrete and an abstract tree of the same tokens
/// and rule exist together or fail together for the same reason, and their roots differ
/// only in tokens of a ghost kind.
pub proof fn lemma_trees_differ_in_ghosts_only(
    tokens: Seq<TokenView>,
    table: RuleTable,
    start_rule: Seq<char>,
    depth: nat,
)
    ensures
        match (
            tree_of(tokens, table, start_rule, true, depth),
            tree_of(tokens, table, start_rule, false, depth),
        ) {
            (Ok(concrete), Ok(abstracted)) => !concrete.is_abstract && abstracted.is_abstract
                && concrete.root.matched_with == abstracted.root.matched_with && significant(
                concrete.root.content,
            ) == significant(abstracted.root.content),
            (Err(e), Err(f)) => e == f,
            _ => false,
        },
{
    if let Some(rule) = lookup(table, start_rule) {
        lemma_ghost_transparency(tokens, 0, rule, table, depth);
    }
}

/// The depth limit decides nothing but whether there is a result. An outcome other than
/// `DepthExceeded` is the outcome under every larger limit too.
pub proof fn lemma_deeper_limit_same_outcome(
    tokens: Seq<TokenView>,
    pos: nat,
    fragments: Seq<Fragment>,
    table: RuleTable,
    retain_ghosts: bool,
    depth: nat,
    deeper: nat,
)
    requires
        depth <= deeper,
        match_sequence(tokens, pos, fragments, table, retain_ghosts, depth) != Err::<
            Matched,
            ParseErrorKind,
        >(ParseErrorKind::DepthExceeded),
    ensures
        match_sequence(tokens, pos, fragments, table, retain_ghosts, deeper) == match_sequence(
            tokens,
            pos,
            fragments,
            table,
            retain_ghosts,
            depth,
        ),
    decreases depth, fragments, 0nat,
{
    if fragments.len() > 0 && pos < tokens.len() {
        lemma_fragment_deeper_limit(tokens, pos, fragments[0], table, retain_ghosts, depth, deeper);
        if let Ok(first) = match_fragment(tokens, pos, fragments[0], table, retain_ghosts, depth) {
            lemma_deeper_limit_same_outcome(
                tokens,
                pos + first.advance,
                fragments.subrange(1, fragments.len() as int),
                table,
                retain_ghosts,
                depth,
                deeper,
            );
        }
    }
}

proof fn lemma_fragment_deeper_limit(
    tokens: Seq<TokenView>,
    pos: nat,
    fragment: Fragment,
    table: RuleTable,
    retain_ghosts: bool,
    depth: nat,
    deeper: nat,
)
    requires
        depth <= deeper,
        match_fragment(tokens, pos, fragment, table, retain_ghosts, depth) != Err::<
            Matched,
            ParseErrorKind,
        >(ParseErrorKind::DepthExceeded),
    ensures
        match_fragment(tokens, pos, fragment, table, retain_ghosts, deeper) == match_fragment(
            tokens,
            pos,
            fragment,
            table,
            retain_ghosts,
            depth,
        ),
    decreases depth, fragment, 0nat,
{
    match fragment {
        Fragment::SingleToken(_, _) => {},
        Fragment::Optional(inner) => {
            lemma_deeper_limit_same_outcome(tokens, pos, inner, table, retain_ghosts, depth, deeper);
        },
        Fragment::Many(inner) => {
            lemma_repeated_deeper_limit(tokens, pos, inner, table, retain_ghosts, depth, deeper);
            if pos < tokens.len() {
                lemma_deeper_limit_same_outcome(
                    tokens,
                    pos,
                    inner,
                    table,
                    retain_ghosts,
                    depth,
                    deeper,
                );
            }
        },
        Fragment::OptionalMany(inner) => {
            lemma_repeated_deeper_limit(tokens, pos, inner, table, retain_ghosts, depth, deeper);
        },
        Fragment::Disjunction(cases) => {
            lemma_first_deeper_limit(tokens, pos, cases, table, retain_ghosts, depth, deeper);
        },
        Fragment::Conjunction(cases) => {
            lemma_all_deeper_limit(tokens, pos, cases, table, retain_ghosts, depth, deeper);
        },
        Fragment::Nest(name) => {
            if let Some(rule) = lookup(table, name) {
                lemma_deeper_limit_same_outcome(
                    tokens,
                    pos,
                    rule,
                    table,
                    retain_ghosts,
                    (depth - 1) as nat,
                    (deeper - 1) as nat,
                );
            }
        },
    }
}

proof fn lemma_repeated_deeper_limit(
    tokens: Seq<TokenView>,
    pos: nat,
    inner: Seq<Fragment>,
    table: RuleTable,
    retain_ghosts: bool,
    depth: nat,
    deeper: nat,
)
    requires
        depth <= deeper,
        match_repeated(tokens, pos, inner, table, retain_ghosts, depth) != Err::<
            Matched,
            ParseErrorKind,
        >(ParseErrorKind::DepthExceeded),
    ensures
        match_repeated(tokens, pos, inner, table, retain_ghosts, deeper) == match_repeated(
            tokens,
            pos,
            inner,
            table,
            retain_ghosts,
            depth,
        ),
    decreases depth, inner, 1 + remaining(tokens, pos),
{
    if pos < tokens.len() {
        lemma_deeper_limit_same_outcome(tokens, pos, inner, table, retain_ghosts, depth, deeper);
        if let Ok(m) = match_sequence(tokens, pos, inner, table, retain_ghosts, depth) {
            if m.advance > 0 {
                lemma_repeated_deeper_limit(
                    tokens,
                    pos + m.advance,
                    inner,
                    table,
                    retain_ghosts,
                    depth,
                    deeper,
                );
            }
        }
    }
}

proof fn lemma_first_deeper_limit(
    tokens: Seq<TokenView>,
    pos: nat,
    cases: Seq<Seq<Fragment>>,
    table: RuleTable,
    retain_ghosts: bool,
    depth: nat,
    deeper: nat,
)
    requires
        depth <= deeper,
        match_first(tokens, pos, cases, table, retain_ghosts, depth) != Err::<
            Matched,
            ParseErrorKind,
        >(ParseErrorKind::DepthExceeded),
    ensures
        match_first(tokens, pos, cases, table, retain_ghosts, deeper) == match_first(
            tokens,
            pos,
            cases,
            table,
            retain_ghosts,
            depth,
        ),
    decreases depth, cases, 0nat,
{
    if cases.len() > 0 {
        lemma_deeper_limit_same_outcome(tokens, pos, cases[0], table, retain_ghosts, depth, deeper);
        if match_sequence(tokens, pos, cases[0], table, retain_ghosts, depth) is Err {
            lemma_first_deeper_limit(
                tokens,
                pos,
                cases.subrange(1, cases.len() as int),
                table,
                retain_ghosts,
                depth,
                deeper,
            );
        }
    }
}

proof fn lemma_all_deeper_limit(
    tokens: Seq<TokenView>,
    pos: nat,
    cases: Seq<Seq<Fragment>>,
    table: RuleTable,
    retain_ghosts: bool,
    depth: nat,
    deeper: nat,
)
    requires
        depth <= deeper,
        match_all(tokens, pos, cases, table, retain_ghosts, depth) != Err::<
            Matched,
            ParseErrorKind,
        >(ParseErrorKind::DepthExceeded),
    ensures
        match_all(tokens, pos, cases, table, retain_ghosts, deeper) == match_all(
            tokens,
            pos,
            cases,
            table,
            retain_ghosts,
            depth,
        ),
    decreases depth, cases, 0nat,
{
    if cases.len() > 0 {
        lemma_deeper_limit_same_outcome(tokens, pos, cases[0], table, retain_ghosts, depth, deeper);
        if match_sequence(tokens, pos, cases[0], table, retain_ghosts, depth) is Ok && cases.len()
            > 1 {
            lemma_all_deeper_limit(
                tokens,
                pos,
                cases.subrange(1, cases.len() as int),
                table,
                retain_ghosts,
                depth,
                deeper,
            );
        }
    }
}

} // verus!
