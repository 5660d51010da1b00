use crate::grammar::{tokens_view, Token, TokenMatcher, TokenName};
use crate::lexing::{
    after_chars, after_token, end_of_input, first_recognized, lemma_after_token_bounded,
    lemma_chars_at_most_bytes,
    lemma_first_recognized_is_prefix, lemma_recognized_is_prefix, lex, prefixed, Diagnostic,
    Lexed, Position,
};
use crate::scan_laws::{lemma_tokens_cover_text, texts};
use crate::text::find_leftmost;
use vstd::prelude::*;
use vstd::string::{StrSliceExecFns, StringSliceAdditionalSpecFns};
use vstd::utf8::*;

verus! {

/// The character that stopped the scan, with its line and column counted from one.
#[derive(Debug, Clone, Copy, PartialEq, Eq)]
pub struct LexDiagnostic {
    pub character: char,
    pub line: usize,
    pub column: usize,
}

impl View for LexDiagnostic {
    type V = Diagnostic;

    open spec fn view(&self) -> Diagnostic {
        Diagnostic {
            character: self.character,
            line: self.line as nat,
            column: self.column as nat,
        }
    }
}

/// What `tokenize` returns: the tokens, closed by `EOF`, and the diagnostic where the scan
/// met a character that no matcher recognizes.
#[derive(Debug)]
pub struct Tokenized<'a> {
    pub tokens: Vec<Token<'a>>,
    pub diagnostic: Option<LexDiagnostic>,
}

impl<'a> View for Tokenized<'a> {
    type V = Lexed;

    open spec fn view(&self) -> Lexed {
        Lexed {
            tokens: tokens_view(self.tokens@),
            diagnostic: match self.diagnostic {
                Some(d) => Some(d@),
                None => None,
            },
        }
    }
}

/// The end of a scan: the closing token, and the diagnostic if there is one.
spec fn closing(diagnostic: Option<LexDiagnostic>) -> Lexed {
    Lexed {
        tokens: seq![end_of_input()],
        diagnostic: match diagnostic {
            Some(d) => Some(d@),
            None => None,
        },
    }
}

/// The length in bytes of the token that a match from `start` to `end` stands for. Only a
/// match that begins at the first byte and is not empty stands for one.
pub fn token_length(found: Option<(usize, usize)>) -> (length: Option<usize>)
    ensures
        length == match found {
            Some((start, end)) => if start == 0 && end > 0 {
                Some(end)
            } else {
                None
            },
            None => None,
        },
{
    match found {
        Some((start, end)) => {
            if start == 0 && end > 0 {
                Some(end)
            } else {
                None
            }
        },
        None => None,
    }
}

/// The first matcher that recognizes something at the start of `text`: its kind, and the
/// length in bytes of what it recognizes.
fn recognize_first(matchers: &[TokenMatcher], text: &str) -> (found: Option<(TokenName, usize)>)
    ensures
        match first_recognized(matchers@, text@) {
            Some((name, head)) => found == Some((name, encode_utf8(head).len() as usize))
                && encode_utf8(head).len() <= usize::MAX,
            None => found is None,
        },
{
    let mut index: usize = 0;
    assert(matchers@.skip(0) =~= matchers@);
    while index < matchers.len()
        invariant
            index <= matchers.len(),
            first_recognized(matchers@, text@) == first_recognized(
                matchers@.skip(index as int),
                text@,
            ),
        decreases matchers.len() - index,
    {
        proof {
            assert(matchers@.skip(index as int).drop_first() =~= matchers@.skip(index + 1));
            lemma_recognized_is_prefix(matchers@[index as int].regex, text@);
        }
        match token_length(find_leftmost(&matchers[index].regex, text)) {
            Some(length) => {
                return Some((matchers[index].name, length));
            },
            None => {},
        }
        index += 1;
    }
    None
}

/// Line `line`, column `column`, both counted from zero.
pub open spec fn place(line: usize, column: usize) -> Position {
    Position { line: line as nat, column: column as nat }
}

/// The place reached from line `line`, column `column` by a token of kind `name` with text
/// `text`. A newline token opens a new line. Block comments and string literals are read
/// character by character. Any other token moves on by its length in bytes.
pub fn place_after(line: usize, column: usize, name: TokenName, text: &str) -> (reached: (
    usize,
    usize,
))
    requires
        line + text.spec_bytes().len() <= usize::MAX,
        column + text.spec_bytes().len() <= usize::MAX,
        name == TokenName::Newline ==> line < usize::MAX,
    ensures
        place(reached.0, reached.1) == after_token(place(line, column), name, text@),
{
    proof {
        lemma_chars_at_most_bytes(text@);
    }
    match name {
        TokenName::BlockComment | TokenName::StringLiteral => scan_lines(text, line, column),
        TokenName::Newline => (line + 1, 0),
        _ => {
            let length = text.as_bytes().len();
            (line, column + length)
        },
    }
}

/// The place reached from line `line`, column `column` by reading `text` character by
/// character.
fn scan_lines(text: &str, line: usize, column: usize) -> (reached: (usize, usize))
    requires
        line + text@.len() <= usize::MAX,
        column + text@.len() <= usize::MAX,
    ensures
        place(reached.0, reached.1) == after_chars(place(line, column), text@),
{
    let mut line = line;
    let mut column = column;
    let ghost start = place(line, column);
    for c in it: text.chars()
        invariant
            it.seq() == text@,
            place(line, column) == after_chars(start, text@.take(it.index() as int)),
            line <= start.line + it.index(),
            column <= start.column + it.index(),
            start.line + text@.len() <= usize::MAX,
            start.column + text@.len() <= usize::MAX,
    {
        proof {
            let read = text@.take(it.index() + 1);
            assert(read.drop_last() =~= text@.take(it.index() as int));
        }
        if c == '\n' {
            column = 0;
            line += 1;
        } else {
            column += 1;
        }
    }
    assert(text@.take(text@.len() as int) =~= text@);
    (line, column)
}

/// Cuts `source` into tokens. At each point the first of `matchers`, in the order given,
/// that recognizes a non-empty text there yields the next token. A character that none
/// recognizes ends the scan and is reported. The tokens end with `EOF` either way.
pub fn tokenize<'a>(source: &'a str, matchers: &[TokenMatcher]) -> (scanned: Tokenized<'a>)
    ensures
        scanned@ == lex(matchers@, source@, place(0, 0)),
        scanned.tokens@.len() >= 1,
        scanned.tokens@.last()@ == end_of_input(),
        scanned.diagnostic is None ==> texts(scanned@.tokens) == source@,
{
    let mut tokens: Vec<Token<'a>> = Vec::new();
    let mut rest: &'a str = source;
    let mut line: usize = 0;
    let mut column: usize = 0;
    let mut diagnostic: Option<LexDiagnostic> = None;
    let total = source.as_bytes().len();
    proof {
        lemma_chars_at_most_bytes(source@);
    }
    while rest.len() > 0
        invariant_except_break
            diagnostic is None,
        invariant
            lex(matchers@, source@, place(0, 0)) == prefixed(
                tokens_view(tokens@),
                lex(matchers@, rest@, place(line, column)),
            ),
            line + rest.spec_bytes().len() <= total,
            column + rest.spec_bytes().len() <= total,
            rest@.len() <= rest.spec_bytes().len(),
        ensures
            lex(matchers@, source@, place(0, 0)) == prefixed(
                tokens_view(tokens@),
                closing(diagnostic),
            ),
        decreases rest.spec_bytes().len(),
    {
        let ghost here = tokens_view(tokens@);
        proof {
            lemma_first_recognized_is_prefix(matchers@, rest@);
        }
        match recognize_first(matchers, rest) {
            None => {
                let character = rest.get_char(0);
                diagnostic = Some(LexDiagnostic { character, line: line + 1, column: column + 1 });
                break ;
            },
            Some((name, length)) => {
                let ghost recognized_text = first_recognized(matchers@, rest@)->Some_0.1;
                let (head, tail) = rest.split_at(length);
                proof {
                    encode_utf8_decode_utf8(head@);
                    encode_utf8_decode_utf8(recognized_text);
                    encode_utf8_decode_utf8(tail@);
                    encode_utf8_decode_utf8(rest@.skip(recognized_text.len() as int));
                    lemma_chars_at_most_bytes(tail@);
                    lemma_after_token_bounded(place(line, column), name, head@);
                }
                let reached = place_after(line, column, name, head);
                let token = Token { name, str_content: Some(head) };
                proof {
                    let after = lex(matchers@, tail@, place(reached.0, reached.1));
                    assert(tokens_view(tokens@.push(token)) =~= here + seq![token@]);
                    assert((here + seq![token@]) + after.tokens =~= here + (seq![token@]
                        + after.tokens));
                }
                tokens.push(token);
                rest = tail;
                line = reached.0;
                column = reached.1;
            },
        }
    }
    let ghost before = tokens_view(tokens@);
    let last = Token { name: TokenName::EOF, str_content: None };
    tokens.push(last);
    proof {
        assert(tokens_view(tokens@) =~= before + seq![end_of_input()]);
        lemma_tokens_cover_text(matchers@, source@, place(0, 0));
    }
    Tokenized { tokens, diagnostic }
}

} // verus!
