use crate::grammar::{TokenMatcher, TokenName, TokenView};
use crate::text::leftmost_match;
use lazy_regex::Regex;
use vstd::prelude::*;
use vstd::utf8::*;

verus! {

/// A place in the source, counted from zero.
pub struct Position {
    pub line: nat,
    pub column: nat,
}

/// The character that no matcher recognizes, with its place counted from one.
pub struct Diagnostic {
    pub character: char,
    pub line: nat,
    pub column: nat,
}

/// What scanning yields: the tokens, and the diagnostic where scanning stopped early.
pub struct Lexed {
    pub tokens: Seq<TokenView>,
    pub diagnostic: Option<Diagnostic>,
}

/// The token that closes every token sequence.
pub open spec fn end_of_input() -> TokenView {
    TokenView { name: TokenName::EOF, text: None }
}

/// The length of the token that a match stands for: the end of a match that begins at
/// the first byte and is not empty. Any other match, further on or empty, stands for none.
pub open spec fn token_span(found: Option<(nat, nat)>) -> Option<nat> {
    match found {
        Some((start, end)) => if start == 0 && end > 0 {
            Some(end)
        } else {
            None
        },
        None => None,
    }
}

/// The text that `regex` recognizes at the very start of `text`: what its leftmost match
/// covers, where that match stands for a token.
pub open spec fn recognized(regex: Regex, text: Seq<char>) -> Option<Seq<char>> {
    let bytes = encode_utf8(text);
    match token_span(leftmost_match(regex, text)) {
        Some(end) => if end <= bytes.len() && is_char_boundary(bytes, end as int) {
            Some(decode_utf8(bytes.subrange(0, end as int)))
        } else {
            None
        },
        None => None,
    }
}

/// The first matcher, in the order given, that recognizes something at the start of `text`:
/// its kind and the text it recognizes. Earlier matchers win over longer matches.
pub open spec fn first_recognized(matchers: Seq<TokenMatcher>, text: Seq<char>) -> Option<
    (TokenName, Seq<char>),
>
    decreases matchers.len(),
{
    if matchers.len() == 0 {
        None
    } else {
        match recognized(matchers[0].regex, text) {
            Some(head) => Some((matchers[0].name, head)),
            None => first_recognized(matchers.drop_first(), text),
        }
    }
}

/// The place reached from `at` by reading `text` character by character: a line feed opens
/// a new line, any other character moves one column on.
pub open spec fn after_chars(at: Position, text: Seq<char>) -> Position
    decreases text.len(),
{
    if text.len() == 0 {
        at
    } else {
        let before = after_chars(at, text.drop_last());
        if text.last() == '\n' {
            Position { line: before.line + 1, column: 0 }
        } else {
            Position { line: before.line, column: before.column + 1 }
        }
    }
}

/// The place reached from `at` by a token of kind `name` with text `text`. A newline token
/// opens a new line. Block comments and string literals may span lines and are read
/// character by character. Any other token moves on by its length in bytes.
pub open spec fn after_token(at: Position, name: TokenName, text: Seq<char>) -> Position {
    match name {
        TokenName::BlockComment | TokenName::StringLiteral => after_chars(at, text),
        TokenName::Newline => Position { line: at.line + 1, column: 0 },
        _ => Position { line: at.line, column: at.column + encode_utf8(text).len() },
    }
}

/// `rest` with the tokens `done` put before its own.
pub open spec fn prefixed(done: Seq<TokenView>, rest: Lexed) -> Lexed {
    Lexed { tokens: done + rest.tokens, diagnostic: rest.diagnostic }
}

/// Scanning `text`, which begins at place `at`. At each point the first matcher that
/// recognizes something there yields a token, and scanning goes on behind it. Where no
/// matcher does, scanning stops with a diagnostic. An `EOF` token closes the sequence
/// either way.
pub open spec fn lex(matchers: Seq<TokenMatcher>, text: Seq<char>, at: Position) -> Lexed
    decreases text.len(),
{
    if text.len() == 0 {
        Lexed { tokens: seq![end_of_input()], diagnostic: None }
    } else {
        match first_recognized(matchers, text) {
            None => Lexed {
                tokens: seq![end_of_input()],
                diagnostic: Some(
                    Diagnostic { character: text[0], line: at.line + 1, column: at.column + 1 },
                ),
            },
            Some((name, head)) => {
                proof {
                    lemma_first_recognized_is_prefix(matchers, text);
                }
                prefixed(
                    seq![TokenView { name, text: Some(head) }],
                    lex(matchers, text.skip(head.len() as int), after_token(at, name, head)),
                )
            },
        }
    }
}

/// What a matcher recognizes is a non-empty prefix of the text, cut at a character boundary.
pub proof fn lemma_recognized_is_prefix(regex: Regex, text: Seq<char>)
    ensures
        recognized(regex, text) matches Some(head) ==> {
            &&& leftmost_match(regex, text) matches Some((_, end)) && encode_utf8(head).len()
                == end
            &&& 0 < head.len() <= text.len()
            &&& text == head + text.skip(head.len() as int)
            &&& 0 < encode_utf8(head).len() <= encode_utf8(text).len()
            &&& is_char_boundary(encode_utf8(text), encode_utf8(head).len() as int)
            &&& encode_utf8(head) == encode_utf8(text).subrange(0, encode_utf8(head).len() as int)
            &&& encode_utf8(text.skip(head.len() as int)) == encode_utf8(text).skip(
                encode_utf8(head).len() as int,
            )
        },
{
    if let Some(head) = recognized(regex, text) {
        let bytes = encode_utf8(text);
        let end = leftmost_match(regex, text)->Some_0.1 as int;
        let front = bytes.subrange(0, end);
        let back = bytes.subrange(end, bytes.len() as int);
        encode_utf8_valid_utf8(text);
        encode_utf8_decode_utf8(text);
        valid_utf8_split(bytes, end);
        decode_utf8_split(bytes, end);
        decode_utf8_encode_utf8(front);
        decode_utf8_encode_utf8(back);
        assert(text.skip(head.len() as int) =~= decode_utf8(back));
    }
}

/// The same of the first matcher that recognizes something.
pub proof fn lemma_first_recognized_is_prefix(matchers: Seq<TokenMatcher>, text: Seq<char>)
    ensures
        first_recognized(matchers, text) matches Some((_, head)) ==> {
            &&& 0 < head.len() <= text.len()
            &&& text == head + text.skip(head.len() as int)
            &&& 0 < encode_utf8(head).len() <= encode_utf8(text).len()
            &&& is_char_boundary(encode_utf8(text), encode_utf8(head).len() as int)
            &&& encode_utf8(head) == encode_utf8(text).subrange(0, encode_utf8(head).len() as int)
            &&& encode_utf8(text.skip(head.len() as int)) == encode_utf8(text).skip(
                encode_utf8(head).len() as int,
            )
        },
    decreases matchers.len(),
{
    if matchers.len() > 0 {
        lemma_recognized_is_prefix(matchers[0].regex, text);
        lemma_first_recognized_is_prefix(matchers.drop_first(), text);
    }
}

/// A text has at most as many characters as its encoding has bytes.
pub proof fn lemma_chars_at_most_bytes(text: Seq<char>)
    ensures
        text.len() <= encode_utf8(text).len(),
    decreases text.len(),
{
    if text.len() > 0 {
        lemma_chars_at_most_bytes(text.drop_first());
    }
}

/// Reading a text moves the line and the column on by at most one for each character.
pub proof fn lemma_after_chars_bounded(at: Position, text: Seq<char>)
    ensures
        after_chars(at, text).line <= at.line + text.len(),
        after_chars(at, text).column <= at.column + text.len(),
    decreases text.len(),
{
    if text.len() > 0 {
        lemma_after_chars_bounded(at, text.drop_last());
    }
}

/// A token with text moves the line and the column on by at most its length in bytes.
pub proof fn lemma_after_token_bounded(at: Position, name: TokenName, text: Seq<char>)
    requires
        text.len() > 0,
    ensures
        after_token(at, name, text).line <= at.line + encode_utf8(text).len(),
        after_token(at, name, text).column <= at.column + encode_utf8(text).len(),
{
    lemma_chars_at_most_bytes(text);
    lemma_after_chars_bounded(at, text);
}

} // verus!
