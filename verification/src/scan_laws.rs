use crate::grammar::{TokenMatcher, TokenName, TokenView};
use crate::lexing::{
    after_token, end_of_input, first_recognized, lemma_first_recognized_is_prefix, lex,
    recognized, Lexed, Position,
};
use vstd::prelude::*;

verus! {

/// The texts of `tokens` one after another; a token without text adds nothing.
pub open spec fn texts(tokens: Seq<TokenView>) -> Seq<char>
    decreases tokens.len(),
{
    if tokens.len() == 0 {
        seq![]
    } else {
        (match tokens[0].text {
            Some(text) => text,
            None => seq![],
        }) + texts(tokens.drop_first())
    }
}

/// Coverage. The texts of the tokens, put together, are the front of the text that was
/// scanned: nothing is lost, doubled or reordered. Without a diagnostic they are the whole
/// text. With one, the character it names is the one right behind them.
pub proof fn lemma_tokens_cover_text(matchers: Seq<TokenMatcher>, text: Seq<char>, at: Position)
    ensures
        texts(lex(matchers, text, at).tokens).len() <= text.len(),
        texts(lex(matchers, text, at).tokens) == text.take(
            texts(lex(matchers, text, at).tokens).len() as int,
        ),
        lex(matchers, text, at).diagnostic is None ==> texts(lex(matchers, text, at).tokens)
            == text,
        lex(matchers, text, at).diagnostic matches Some(d) ==> texts(
            lex(matchers, text, at).tokens,
        ).len() < text.len() && d.character == text[texts(
            lex(matchers, text, at).tokens,
        ).len() as int],
    decreases text.len(),
{
    let closing = seq![end_of_input()];
    assert(texts(closing) =~= Seq::<char>::empty()) by {
        reveal_with_fuel(texts, 2);
    }
    if text.len() > 0 {
        lemma_first_recognized_is_prefix(matchers, text);
        if let Some((name, head)) = first_recognized(matchers, text) {
            let tail = text.skip(head.len() as int);
            let rest = lex(matchers, tail, after_token(at, name, head));
            lemma_tokens_cover_text(matchers, tail, after_token(at, name, head));
            let first = seq![TokenView { name, text: Some(head) }];
            let all = first + rest.tokens;
            assert(all.drop_first() =~= rest.tokens);
        }
    }
}

/// The token sequence of a scan ends with `EOF`, and every token before it carries the text
/// it was cut from, which is not empty.
pub proof fn lemma_tokens_end_with_eof(matchers: Seq<TokenMatcher>, text: Seq<char>, at: Position)
    ensures
        lex(matchers, text, at).tokens.len() >= 1,
        lex(matchers, text, at).tokens.last() == end_of_input(),
        forall|i: int|
            0 <= i < lex(matchers, text, at).tokens.len() - 1 ==> (
            #[trigger] lex(matchers, text, at).tokens[i].text matches Some(t) && t.len() > 0),
    decreases text.len(),
{
    if text.len() > 0 {
        lemma_first_recognized_is_prefix(matchers, text);
        if let Some((name, head)) = first_recognized(matchers, text) {
            let tail = text.skip(head.len() as int);
            lemma_tokens_end_with_eof(matchers, tail, after_token(at, name, head));
        }
    }
}

/// What the first recognizing matcher yields carries the kind of one of the matchers.
proof fn lemma_recognized_kind_is_listed(matchers: Seq<TokenMatcher>, text: Seq<char>)
    ensures
        first_recognized(matchers, text) matches Some((name, _)) ==> exists|i: int|
            0 <= i < matchers.len() && #[trigger] matchers[i].name == name,
    decreases matchers.len(),
{
    if matchers.len() > 0 {
        if recognized(matchers[0].regex, text) is None {
            let rest = matchers.drop_first();
            lemma_recognized_kind_is_listed(rest, text);
            if let Some((name, _)) = first_recognized(rest, text) {
                let i = choose|i: int| 0 <= i < rest.len() && #[trigger] rest[i].name == name;
                assert(matchers[i + 1].name == name);
            }
        } else {
            assert(matchers[0].name == first_recognized(matchers, text)->Some_0.0);
        }
    }
}

/// Exactly one `EOF`. Unless a matcher is itself of kind `EOF`, the closing token is the
/// only `EOF` token of a scan.
pub proof fn lemma_only_the_last_token_is_eof(
    matchers: Seq<TokenMatcher>,
    text: Seq<char>,
    at: Position,
)
    requires
        forall|i: int| 0 <= i < matchers.len() ==> (#[trigger] matchers[i]).name != TokenName::EOF,
    ensures
        forall|i: int|
            0 <= i < lex(matchers, text, at).tokens.len() ==> ((#[trigger] lex(
                matchers,
                text,
                at,
            ).tokens[i]).name == TokenName::EOF <==> i == lex(matchers, text, at).tokens.len() - 1),
    decreases text.len(),
{
    if text.len() > 0 {
        lemma_first_recognized_is_prefix(matchers, text);
        lemma_recognized_kind_is_listed(matchers, text);
        if let Some((name, head)) = first_recognized(matchers, text) {
            let tail = text.skip(head.len() as int);
            lemma_only_the_last_token_is_eof(matchers, tail, after_token(at, name, head));
            lemma_tokens_end_with_eof(matchers, tail, after_token(at, name, head));
        }
    }
}

/// Scanning again. Two scans of the same text with the same matchers, from the same place,
/// yield the same tokens and the same diagnostic: a scan depends on nothing else.
pub proof fn lemma_relex_identical(
    matchers: Seq<TokenMatcher>,
    text: Seq<char>,
    at: Position,
    first: Lexed,
    second: Lexed,
)
    requires
        first == lex(matchers, text, at),
        second == lex(matchers, text, at),
    ensures
        first == second,
{
}

} // verus!
