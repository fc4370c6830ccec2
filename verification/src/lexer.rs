//! The scanner: it finds the eight command symbols in a source text and
//! passes over every other byte as a comment.
use vstd::prelude::*;
use vstd::string::StringSliceAdditionalSpecFns;
use vstd::utf8::{char_is_scalar, encode_scalar, encode_utf8};

verus! {

/// A token with the byte offsets at which it starts and ends, or a lexical
/// error.
pub type Spanned<Tok, Loc, Error> = Result<(Loc, Tok, Loc), Error>;

/// The eight command symbols.
#[derive(Copy, Clone, Debug, PartialEq, Eq, Structural)]
pub enum Tok {
    GreaterThan,
    LessThan,
    Plus,
    Minus,
    Period,
    Comma,
    LeftBracket,
    RightBracket,
}

/// The error type of the scanner. The scanner never fails, since a byte that
/// is no command symbol is a comment, so no value of this type is ever
/// produced.
#[derive(Debug)]
pub enum LexicalError {
    Never,
}

/// The token that a byte of the source stands for, if it is one of the eight
/// command symbols `> < + - . , [ ]`.
pub open spec fn symbol(byte: u8) -> Option<Tok> {
    if byte == 0x3e {
        Some(Tok::GreaterThan)
    } else if byte == 0x3c {
        Some(Tok::LessThan)
    } else if byte == 0x2b {
        Some(Tok::Plus)
    } else if byte == 0x2d {
        Some(Tok::Minus)
    } else if byte == 0x2e {
        Some(Tok::Period)
    } else if byte == 0x2c {
        Some(Tok::Comma)
    } else if byte == 0x5b {
        Some(Tok::LeftBracket)
    } else if byte == 0x5d {
        Some(Tok::RightBracket)
    } else {
        None
    }
}

/// No byte of `bytes` from index `from` up to index `to` is a command symbol.
pub open spec fn all_comment(bytes: Seq<u8>, from: int, to: int) -> bool {
    forall|j: int| from <= j < to ==> (#[trigger] symbol(bytes[j])) is None
}

/// The tokens of a source text, in order: one for each byte that is a
/// command symbol.
pub open spec fn tokens(bytes: Seq<u8>) -> Seq<Tok>
    decreases bytes.len(),
{
    if bytes.len() == 0 {
        Seq::empty()
    } else {
        match symbol(bytes.last()) {
            Some(tok) => tokens(bytes.drop_last()).push(tok),
            None => tokens(bytes.drop_last()),
        }
    }
}

/// The tokens of two texts joined are the tokens of the first followed by
/// the tokens of the second.
pub proof fn lemma_tokens_concat(a: Seq<u8>, b: Seq<u8>)
    ensures
        tokens(a + b) == tokens(a) + tokens(b),
    decreases b.len(),
{
    if b.len() == 0 {
        assert(a + b == a);
        assert(tokens(a) + tokens(b) == tokens(a));
    } else {
        assert((a + b).drop_last() == a + b.drop_last());
        assert((a + b).last() == b.last());
        lemma_tokens_concat(a, b.drop_last());
        match symbol(b.last()) {
            Some(tok) => {
                assert((tokens(a) + tokens(b.drop_last())).push(tok) == tokens(a) + tokens(
                    b.drop_last(),
                ).push(tok));
            },
            None => {},
        }
    }
}

/// A text without command symbols has no tokens.
pub proof fn lemma_tokens_comment(bytes: Seq<u8>)
    requires
        all_comment(bytes, 0, bytes.len() as int),
    ensures
        tokens(bytes) == Seq::<Tok>::empty(),
    decreases bytes.len(),
{
    if bytes.len() > 0 {
        let front = bytes.drop_last();
        assert forall|j: int| 0 <= j < front.len() implies (#[trigger] symbol(front[j]))
            is None by {
            assert(front[j] == bytes[j]);
        }
        lemma_tokens_comment(front);
        assert(symbol(bytes[bytes.len() - 1]) is None);
    }
}

/// Comments are inert: bytes that are no command symbols, put anywhere into a
/// text or taken out of it, leave its tokens as they are.
pub proof fn lemma_comments_are_inert(before: Seq<u8>, comment: Seq<u8>, after: Seq<u8>)
    requires
        all_comment(comment, 0, comment.len() as int),
    ensures
        tokens(before + comment + after) == tokens(before + after),
{
    lemma_tokens_comment(comment);
    lemma_tokens_concat(before, comment);
    lemma_tokens_concat(before + comment, after);
    lemma_tokens_concat(before, after);
    assert(tokens(before) + tokens(comment) == tokens(before));
}

/// The token that a character of the source stands for, if it is one of the
/// eight command symbols.
pub open spec fn symbol_of_char(c: char) -> Option<Tok> {
    if c == '>' {
        Some(Tok::GreaterThan)
    } else if c == '<' {
        Some(Tok::LessThan)
    } else if c == '+' {
        Some(Tok::Plus)
    } else if c == '-' {
        Some(Tok::Minus)
    } else if c == '.' {
        Some(Tok::Period)
    } else if c == ',' {
        Some(Tok::Comma)
    } else if c == '[' {
        Some(Tok::LeftBracket)
    } else if c == ']' {
        Some(Tok::RightBracket)
    } else {
        None
    }
}

/// The tokens of a text read character by character: one for each
/// character that is a command symbol.
pub open spec fn text_tokens(text: Seq<char>) -> Seq<Tok>
    decreases text.len(),
{
    if text.len() == 0 {
        Seq::empty()
    } else {
        match symbol_of_char(text.first()) {
            Some(tok) => seq![tok] + text_tokens(text.drop_first()),
            None => text_tokens(text.drop_first()),
        }
    }
}

/// A byte with its top bit set by a mask is no ASCII byte.
proof fn lemma_high_bytes(x: u8)
    ensures
        0xC0u8 | x >= 0x80,
        0xE0u8 | x >= 0x80,
        0xF0u8 | x >= 0x80,
        0x80u8 | x >= 0x80,
{
    assert(0xC0u8 | x >= 0x80) by (bit_vector);
    assert(0xE0u8 | x >= 0x80) by (bit_vector);
    assert(0xF0u8 | x >= 0x80) by (bit_vector);
    assert(0x80u8 | x >= 0x80) by (bit_vector);
}

/// The bytes that encode one character hold its token, if it is a command
/// symbol, and no token otherwise: no byte of a longer encoding is a command
/// symbol.
pub proof fn lemma_tokens_of_char(c: char)
    ensures
        tokens(encode_scalar(c as u32)) == match symbol_of_char(c) {
            Some(tok) => seq![tok],
            None => Seq::<Tok>::empty(),
        },
{
    let scalar = c as u32;
    let bytes = encode_scalar(scalar);
    char_is_scalar(c);
    if scalar <= 0x7F {
        assert(scalar & 0x7F == scalar) by (bit_vector)
            requires
                scalar <= 0x7F,
        ;
        assert(bytes == seq![scalar as u8]);
        assert(bytes.drop_last() == Seq::<u8>::empty());
        assert(bytes.last() == scalar as u8);
        assert(tokens(Seq::<u8>::empty()) == Seq::<Tok>::empty());
        assert(symbol(scalar as u8) == symbol_of_char(c));
        match symbol(scalar as u8) {
            Some(tok) => {
                assert(Seq::<Tok>::empty().push(tok) == seq![tok]);
            },
            None => {},
        }
    } else {
        assert forall|j: int| 0 <= j < bytes.len() implies (#[trigger] symbol(bytes[j]))
            is None by {
            lemma_high_bytes(((scalar >> 6) & 0x1F) as u8);
            lemma_high_bytes(((scalar >> 12) & 0x0F) as u8);
            lemma_high_bytes(((scalar >> 18) & 0x7) as u8);
            lemma_high_bytes((scalar & 0x3F) as u8);
            lemma_high_bytes(((scalar >> 6) & 0x3F) as u8);
            lemma_high_bytes(((scalar >> 12) & 0x3F) as u8);
            assert(bytes[j] >= 0x80);
        }
        lemma_tokens_comment(bytes);
        assert(symbol_of_char(c) is None);
    }
}

/// Scanning the bytes of a text finds the tokens of its characters: a
/// character that is none of the eight command symbols is a comment,
/// whatever bytes encode it.
pub proof fn lemma_tokens_of_text(text: Seq<char>)
    ensures
        tokens(encode_utf8(text)) == text_tokens(text),
    decreases text.len(),
{
    if text.len() == 0 {
        assert(encode_utf8(text) == Seq::<u8>::empty());
    } else {
        lemma_tokens_of_char(text.first());
        lemma_tokens_of_text(text.drop_first());
        lemma_tokens_concat(encode_scalar(text.first() as u32), encode_utf8(text.drop_first()));
        match symbol_of_char(text.first()) {
            Some(tok) => {},
            None => {
                assert(Seq::<Tok>::empty() + text_tokens(text.drop_first()) == text_tokens(
                    text.drop_first(),
                ));
            },
        }
    }
}

/// The tokens of two texts joined are the tokens of the first followed by
/// the tokens of the second.
pub proof fn lemma_text_tokens_concat(a: Seq<char>, b: Seq<char>)
    ensures
        text_tokens(a + b) == text_tokens(a) + text_tokens(b),
    decreases a.len(),
{
    if a.len() == 0 {
        assert(a + b == b);
        assert(text_tokens(a) + text_tokens(b) == text_tokens(b));
    } else {
        assert((a + b).drop_first() == a.drop_first() + b);
        assert((a + b).first() == a.first());
        lemma_text_tokens_concat(a.drop_first(), b);
        match symbol_of_char(a.first()) {
            Some(tok) => {
                assert(seq![tok] + (text_tokens(a.drop_first()) + text_tokens(b)) == (seq![tok]
                    + text_tokens(a.drop_first())) + text_tokens(b));
            },
            None => {},
        }
    }
}

/// Characters that are no command symbols, put anywhere into a text or
/// taken out of it, leave its tokens as they are.
pub proof fn lemma_comment_text_is_inert(before: Seq<char>, comment: Seq<char>, after: Seq<char>)
    requires
        forall|i: int| 0 <= i < comment.len() ==> (#[trigger] symbol_of_char(comment[i])) is None,
    ensures
        text_tokens(before + comment + after) == text_tokens(before + after),
{
    lemma_text_tokens_comment(comment);
    lemma_text_tokens_concat(before, comment);
    lemma_text_tokens_concat(before + comment, after);
    lemma_text_tokens_concat(before, after);
    assert(text_tokens(before) + text_tokens(comment) == text_tokens(before));
}

/// A text without command symbols has no tokens.
proof fn lemma_text_tokens_comment(comment: Seq<char>)
    requires
        forall|i: int| 0 <= i < comment.len() ==> (#[trigger] symbol_of_char(comment[i])) is None,
    ensures
        text_tokens(comment) == Seq::<Tok>::empty(),
    decreases comment.len(),
{
    if comment.len() > 0 {
        let rest = comment.drop_first();
        assert forall|i: int| 0 <= i < rest.len() implies (#[trigger] symbol_of_char(rest[i]))
            is None by {
            assert(rest[i] == comment[i + 1]);
        }
        lemma_text_tokens_comment(rest);
        assert(symbol_of_char(comment[0]) is None);
    }
}

/// Scans a source text for command symbols, one token at a time.
pub struct Lexer<'input> {
    bytes: &'input [u8],
    position: usize,
}

impl<'input> Lexer<'input> {
    /// The bytes of the text that is scanned.
    pub closed spec fn source(&self) -> Seq<u8> {
        self.bytes@
    }

    /// The offset of the first byte that has not been scanned.
    pub closed spec fn position(&self) -> int {
        self.position as int
    }

    /// The scanner has not run past the end of its text.
    pub open spec fn wf(&self) -> bool {
        0 <= self.position() <= self.source().len()
    }

    /// The part of the text that has not been scanned.
    pub open spec fn rest(&self) -> Seq<u8> {
        self.source().subrange(self.position(), self.source().len() as int)
    }

    /// A scanner at the start of `input`.
    pub fn new(input: &'input str) -> (lexer: Self)
        ensures
            lexer.wf(),
            lexer.source() == input.spec_bytes(),
            lexer.position() == 0,
    {
        Lexer { bytes: input.as_bytes(), position: 0 }
    }

    /// The next token with its span, or `None` at the end of the text. The
    /// bytes that are passed over are no command symbols.
    pub fn next(&mut self) -> (item: Option<Spanned<Tok, usize, LexicalError>>)
        requires
            old(self).wf(),
        ensures
            final(self).wf(),
            final(self).source() == old(self).source(),
            match item {
                Some(Ok((start, tok, end))) => {
                    &&& old(self).position() <= start < old(self).source().len()
                    &&& all_comment(old(self).source(), old(self).position(), start as int)
                    &&& symbol(old(self).source()[start as int]) == Some(tok)
                    &&& end == start + 1
                    &&& final(self).position() == end
                },
                Some(Err(_)) => false,
                None => {
                    &&& all_comment(
                        old(self).source(),
                        old(self).position(),
                        old(self).source().len() as int,
                    )
                    &&& final(self).position() == old(self).source().len()
                },
            },
    {
        while self.position < self.bytes.len()
            invariant
                old(self).position <= self.position <= self.bytes@.len(),
                self.bytes@ == old(self).bytes@,
                all_comment(self.bytes@, old(self).position as int, self.position as int),
            decreases self.bytes@.len() - self.position,
        {
            let i = self.position;
            let found = classify(self.bytes[i]);
            self.position = i + 1;
            match found {
                Some(tok) => {
                    return Some(Ok((i, tok, i + 1)));
                },
                None => {},
            }
        }
        None
    }

    /// Scans the rest of the text and returns how many tokens it holds.
    pub fn count(self) -> (n: usize)
        requires
            self.wf(),
        ensures
            n == tokens(self.rest()).len(),
    {
        let mut lexer = self;
        let mut n: usize = 0;
        loop
            invariant
                lexer.wf(),
                lexer.source() == self.source(),
                self.position() <= lexer.position(),
                n == tokens(self.source().subrange(self.position(), lexer.position())).len(),
                n <= lexer.position() - self.position(),
            decreases lexer.source().len() - lexer.position(),
        {
            let ghost before = lexer.position();
            let item = lexer.next();
            proof {
                let src = self.source();
                let start = self.position();
                match item {
                    Some(Ok((s, tok, e))) => {
                        lemma_scan_step(src, start, before, s as int);
                    },
                    _ => {
                        lemma_scan_gap(src, start, before, src.len() as int);
                    },
                }
            }
            match item {
                Some(_) => {
                    n = n + 1;
                },
                None => {
                    return n;
                },
            }
        }
    }
}

/// Scanning from `from`, past comment bytes up to the symbol at `at`, adds
/// that symbol's token to the tokens seen since `start`.
pub proof fn lemma_scan_step(bytes: Seq<u8>, start: int, from: int, at: int)
    requires
        0 <= start <= from <= at < bytes.len(),
        all_comment(bytes, from, at),
        symbol(bytes[at]) is Some,
    ensures
        tokens(bytes.subrange(start, at + 1)) == tokens(bytes.subrange(start, from)).push(
            symbol(bytes[at]).unwrap(),
        ),
{
    let upto = bytes.subrange(start, at + 1);
    lemma_scan_gap(bytes, start, from, at);
    assert(upto.drop_last() == bytes.subrange(start, at));
    assert(upto.last() == bytes[at]);
}

/// Comment bytes between `from` and `at` add no token to those seen since
/// `start`.
pub proof fn lemma_scan_gap(bytes: Seq<u8>, start: int, from: int, at: int)
    requires
        0 <= start <= from <= at <= bytes.len(),
        all_comment(bytes, from, at),
    ensures
        tokens(bytes.subrange(start, at)) == tokens(bytes.subrange(start, from)),
{
    let seen = bytes.subrange(start, from);
    let gap = bytes.subrange(from, at);
    assert forall|j: int| 0 <= j < gap.len() implies (#[trigger] symbol(gap[j])) is None by {
        assert(gap[j] == bytes[from + j]);
    }
    lemma_tokens_comment(gap);
    lemma_tokens_concat(seen, gap);
    assert(seen + gap == bytes.subrange(start, at));
    assert(tokens(seen) + tokens(gap) == tokens(seen));
}

/// The token of one byte, if it is a command symbol.
fn classify(byte: u8) -> (found: Option<Tok>)
    ensures
        found == symbol(byte),
{
    if byte == 0x3e {
        Some(Tok::GreaterThan)
    } else if byte == 0x3c {
        Some(Tok::LessThan)
    } else if byte == 0x2b {
        Some(Tok::Plus)
    } else if byte == 0x2d {
        Some(Tok::Minus)
    } else if byte == 0x2e {
        Some(Tok::Period)
    } else if byte == 0x2c {
        Some(Tok::Comma)
    } else if byte == 0x5b {
        Some(Tok::LeftBracket)
    } else if byte == 0x5d {
        Some(Tok::RightBracket)
    } else {
        None
    }
}

} // verus!
