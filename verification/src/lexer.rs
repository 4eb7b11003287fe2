//! The lexer: source bytes to a flat sequence of tokens.

use vstd::prelude::*;
use vstd::utf8::*;
use crate::error::LexError;

verus! {

/// One lexical unit of the language.
#[derive(Debug, PartialEq, Eq, Default)]
pub enum Token {
    /// Stands for discarded whitespace; the lexer never emits it.
    #[default]
    Blank,
    Print,
    Exit,
    Ident(String),
    TypeString,
    TypeBool,
    TypeInt,
    TypeAny,
    True,
    False,
    OpenParen,
    CloseParen,
    OpenBrace,
    CloseBrace,
    StringLit(String),
    IntLit(i64),
    Equals,
    Bang,
    Colon,
    Plus,
    Dash,
    Star,
    Slash,
    Semicolon,
    If,
    While,
}

/// The mathematical value of a [`Token`]: names and string literals are
/// sequences of characters.
pub enum TokenView {
    Blank,
    Print,
    Exit,
    Ident(Seq<char>),
    TypeString,
    TypeBool,
    TypeInt,
    TypeAny,
    True,
    False,
    OpenParen,
    CloseParen,
    OpenBrace,
    CloseBrace,
    StringLit(Seq<char>),
    IntLit(i64),
    Equals,
    Bang,
    Colon,
    Plus,
    Dash,
    Star,
    Slash,
    Semicolon,
    If,
    While,
}

impl View for Token {
    type V = TokenView;

    open spec fn view(&self) -> TokenView {
        match self {
            Token::Blank => TokenView::Blank,
            Token::Print => TokenView::Print,
            Token::Exit => TokenView::Exit,
            Token::Ident(s) => TokenView::Ident(s@),
            Token::TypeString => TokenView::TypeString,
            Token::TypeBool => TokenView::TypeBool,
            Token::TypeInt => TokenView::TypeInt,
            Token::TypeAny => TokenView::TypeAny,
            Token::True => TokenView::True,
            Token::False => TokenView::False,
            Token::OpenParen => TokenView::OpenParen,
            Token::CloseParen => TokenView::CloseParen,
            Token::OpenBrace => TokenView::OpenBrace,
            Token::CloseBrace => TokenView::CloseBrace,
            Token::StringLit(s) => TokenView::StringLit(s@),
            Token::IntLit(n) => TokenView::IntLit(*n),
            Token::Equals => TokenView::Equals,
            Token::Bang => TokenView::Bang,
            Token::Colon => TokenView::Colon,
            Token::Plus => TokenView::Plus,
            Token::Dash => TokenView::Dash,
            Token::Star => TokenView::Star,
            Token::Slash => TokenView::Slash,
            Token::Semicolon => TokenView::Semicolon,
            Token::If => TokenView::If,
            Token::While => TokenView::While,
        }
    }
}

impl Clone for Token {
    fn clone(&self) -> (r: Self)
        ensures
            r@ == self@,
    {
        match self {
            Token::Blank => Token::Blank,
            Token::Print => Token::Print,
            Token::Exit => Token::Exit,
            Token::Ident(s) => Token::Ident(s.clone()),
            Token::TypeString => Token::TypeString,
            Token::TypeBool => Token::TypeBool,
            Token::TypeInt => Token::TypeInt,
            Token::TypeAny => Token::TypeAny,
            Token::True => Token::True,
            Token::False => Token::False,
            Token::OpenParen => Token::OpenParen,
            Token::CloseParen => Token::CloseParen,
            Token::OpenBrace => Token::OpenBrace,
            Token::CloseBrace => Token::CloseBrace,
            Token::StringLit(s) => Token::StringLit(s.clone()),
            Token::IntLit(n) => Token::IntLit(*n),
            Token::Equals => Token::Equals,
            Token::Bang => Token::Bang,
            Token::Colon => Token::Colon,
            Token::Plus => Token::Plus,
            Token::Dash => Token::Dash,
            Token::Star => Token::Star,
            Token::Slash => Token::Slash,
            Token::Semicolon => Token::Semicolon,
            Token::If => Token::If,
            Token::While => Token::While,
        }
    }
}

impl Token {
    /// Whether two tokens have the same value.
    pub fn same(&self, other: &Token) -> (r: bool)
        ensures
            r == (self@ == other@),
    {
        match (self, other) {
            (Token::Blank, Token::Blank) => true,
            (Token::Print, Token::Print) => true,
            (Token::Exit, Token::Exit) => true,
            (Token::Ident(a), Token::Ident(b)) => *a == *b,
            (Token::TypeString, Token::TypeString) => true,
            (Token::TypeBool, Token::TypeBool) => true,
            (Token::TypeInt, Token::TypeInt) => true,
            (Token::TypeAny, Token::TypeAny) => true,
            (Token::True, Token::True) => true,
            (Token::False, Token::False) => true,
            (Token::OpenParen, Token::OpenParen) => true,
            (Token::CloseParen, Token::CloseParen) => true,
            (Token::OpenBrace, Token::OpenBrace) => true,
            (Token::CloseBrace, Token::CloseBrace) => true,
            (Token::StringLit(a), Token::StringLit(b)) => *a == *b,
            (Token::IntLit(a), Token::IntLit(b)) => *a == *b,
            (Token::Equals, Token::Equals) => true,
            (Token::Bang, Token::Bang) => true,
            (Token::Colon, Token::Colon) => true,
            (Token::Plus, Token::Plus) => true,
            (Token::Dash, Token::Dash) => true,
            (Token::Star, Token::Star) => true,
            (Token::Slash, Token::Slash) => true,
            (Token::Semicolon, Token::Semicolon) => true,
            (Token::If, Token::If) => true,
            (Token::While, Token::While) => true,
            _ => false,
        }
    }
}

/// The values of a sequence of tokens, in order.
pub open spec fn token_views(tokens: Seq<Token>) -> Seq<TokenView> {
    Seq::new(tokens.len(), |k: int| tokens[k]@)
}

/// An ASCII letter: `A` to `Z` or `a` to `z`.
pub open spec fn is_alpha(b: u8) -> bool {
    (0x41 <= b <= 0x5a) || (0x61 <= b <= 0x7a)
}

/// An ASCII decimal digit: `0` to `9`.
pub open spec fn is_digit(b: u8) -> bool {
    0x30 <= b <= 0x39
}

/// An ASCII letter or digit.
pub open spec fn is_alnum(b: u8) -> bool {
    is_alpha(b) || is_digit(b)
}

/// A space, a tab or a line feed.
pub open spec fn is_space(b: u8) -> bool {
    b == 0x20 || b == 0x09 || b == 0x0a
}

/// The token that a single punctuation byte stands for, if any.
pub open spec fn punct(b: u8) -> Option<TokenView> {
    if b == 0x28 {
        // the byte `(`
        Some(TokenView::OpenParen)
    } else if b == 0x29 {
        // the byte `)`
        Some(TokenView::CloseParen)
    } else if b == 0x7b {
        // the byte `{`
        Some(TokenView::OpenBrace)
    } else if b == 0x7d {
        // the byte `}`
        Some(TokenView::CloseBrace)
    } else if b == 0x3a {
        // the byte `:`
        Some(TokenView::Colon)
    } else if b == 0x3d {
        // the byte `=`
        Some(TokenView::Equals)
    } else if b == 0x2b {
        // the byte `+`
        Some(TokenView::Plus)
    } else if b == 0x2d {
        // the byte `-`
        Some(TokenView::Dash)
    } else if b == 0x2a {
        // the byte `*`
        Some(TokenView::Star)
    } else if b == 0x2f {
        // the byte `/`
        Some(TokenView::Slash)
    } else if b == 0x3b {
        // the byte `;`
        Some(TokenView::Semicolon)
    } else if b == 0x21 {
        // the byte `!`
        Some(TokenView::Bang)
    } else {
        None
    }
}

/// Where the longest run of letters and digits that starts at `i` ends.
pub open spec fn alnum_end(bytes: Seq<u8>, i: int) -> int
    decreases bytes.len() - i,
{
    if 0 <= i < bytes.len() && is_alnum(bytes[i]) {
        alnum_end(bytes, i + 1)
    } else {
        i
    }
}

/// Where the longest run of digits that starts at `i` ends.
pub open spec fn digit_end(bytes: Seq<u8>, i: int) -> int
    decreases bytes.len() - i,
{
    if 0 <= i < bytes.len() && is_digit(bytes[i]) {
        digit_end(bytes, i + 1)
    } else {
        i
    }
}

/// The position of the first double quote (the byte 0x22) at or after
/// `i`, or the end of the input if there is none.
pub open spec fn quote_at(bytes: Seq<u8>, i: int) -> int
    decreases bytes.len() - i,
{
    if 0 <= i < bytes.len() && bytes[i] != 0x22 {
        quote_at(bytes, i + 1)
    } else {
        i
    }
}

/// The number that a run of decimal digits denotes.
pub open spec fn decimal_value(digits: Seq<u8>) -> nat
    decreases digits.len(),
{
    if digits.len() == 0 {
        0
    } else {
        (decimal_value(digits.drop_last()) * 10 + (digits.last() - 0x30)) as nat
    }
}

/// The keyword that a word spells, if it is one.
pub open spec fn keyword(word: Seq<u8>) -> Option<TokenView> {
    if word =~= seq![0x70u8, 0x72u8, 0x69u8, 0x6eu8, 0x74u8] {
        // the word `print`
        Some(TokenView::Print)
    } else if word =~= seq![0x65u8, 0x78u8, 0x69u8, 0x74u8] {
        // the word `exit`
        Some(TokenView::Exit)
    } else if word =~= seq![0x69u8, 0x66u8] {
        // the word `if`
        Some(TokenView::If)
    } else if word =~= seq![0x77u8, 0x68u8, 0x69u8, 0x6cu8, 0x65u8] {
        // the word `while`
        Some(TokenView::While)
    } else if word =~= seq![0x53u8, 0x74u8, 0x72u8, 0x69u8, 0x6eu8, 0x67u8] {
        // the word `String`
        Some(TokenView::TypeString)
    } else if word =~= seq![0x49u8, 0x6eu8, 0x74u8] {
        // the word `Int`
        Some(TokenView::TypeInt)
    } else if word =~= seq![0x42u8, 0x6fu8, 0x6fu8, 0x6cu8] {
        // the word `Bool`
        Some(TokenView::TypeBool)
    } else if word =~= seq![0x41u8, 0x6eu8, 0x79u8] {
        // the word `Any`
        Some(TokenView::TypeAny)
    } else if word =~= seq![0x74u8, 0x72u8, 0x75u8, 0x65u8] {
        // the word `true`
        Some(TokenView::True)
    } else if word =~= seq![0x66u8, 0x61u8, 0x6cu8, 0x73u8, 0x65u8] {
        // the word `false`
        Some(TokenView::False)
    } else {
        None
    }
}

/// The characters that ASCII bytes stand for.
pub open spec fn ascii_text(bytes: Seq<u8>) -> Seq<char> {
    Seq::new(bytes.len(), |k: int| bytes[k] as char)
}

/// The token for a word: its keyword, or else a name with the word's text.
pub open spec fn word_token(word: Seq<u8>) -> TokenView {
    match keyword(word) {
        Some(t) => t,
        None => TokenView::Ident(ascii_text(word)),
    }
}

/// `prefix` followed by the tokens of `rest`, or the error of `rest`.
pub open spec fn prepend(prefix: Seq<TokenView>, rest: Result<Seq<TokenView>, LexError>) -> Result<
    Seq<TokenView>,
    LexError,
> {
    match rest {
        Ok(ts) => Ok(prefix + ts),
        Err(e) => Err(e),
    }
}

/// The tokens of `bytes`, which are the UTF-8 encoding of a text, from
/// position `i` on, or the first error met.
///
/// A letter starts a word, which runs over letters and digits; a digit
/// starts a number; a double quote starts a string literal, which runs to
/// the next double quote; whitespace is skipped; any other byte is either
/// punctuation or an error.
pub open spec fn lex_from(bytes: Seq<u8>, i: int) -> Result<Seq<TokenView>, LexError>
    decreases bytes.len() - i,
{
    if i < 0 || i >= bytes.len() {
        Ok(Seq::empty())
    } else if is_alpha(bytes[i]) {
        let j = alnum_end(bytes, i);
        proof {
            lemma_alnum_end(bytes, i);
        }
        prepend(seq![word_token(bytes.subrange(i, j))], lex_from(bytes, j))
    } else if is_digit(bytes[i]) {
        let j = digit_end(bytes, i);
        proof {
            lemma_digit_end(bytes, i);
        }
        let n = decimal_value(bytes.subrange(i, j));
        if n > i64::MAX {
            Err(LexError::InvalidInt)
        } else {
            prepend(seq![TokenView::IntLit(n as i64)], lex_from(bytes, j))
        }
    } else if bytes[i] == 0x22 {
        let j = quote_at(bytes, i + 1);
        proof {
            lemma_quote_at(bytes, i + 1);
        }
        if j >= bytes.len() {
            Err(LexError::UnexpectedEof)
        } else {
            prepend(
                seq![TokenView::StringLit(decode_utf8(bytes.subrange(i + 1, j)))],
                lex_from(bytes, j + 1),
            )
        }
    } else if is_space(bytes[i]) {
        lex_from(bytes, i + 1)
    } else {
        match punct(bytes[i]) {
            Some(t) => prepend(seq![t], lex_from(bytes, i + 1)),
            None => Err(LexError::InvalidToken(bytes[i])),
        }
    }
}

/// A run of letters and digits that starts inside the input ends inside
/// it, holds only letters and digits, and stops at a byte that is neither.
pub proof fn lemma_alnum_end(bytes: Seq<u8>, i: int)
    requires
        0 <= i <= bytes.len(),
    ensures
        i <= alnum_end(bytes, i) <= bytes.len(),
        i < bytes.len() && is_alnum(bytes[i]) ==> i < alnum_end(bytes, i),
        forall|k: int| i <= k < alnum_end(bytes, i) ==> is_alnum(#[trigger] bytes[k]),
        alnum_end(bytes, i) < bytes.len() ==> !is_alnum(bytes[alnum_end(bytes, i)]),
    decreases bytes.len() - i,
{
    if i < bytes.len() && is_alnum(bytes[i]) {
        lemma_alnum_end(bytes, i + 1);
    }
}

/// The same of a run of digits.
pub proof fn lemma_digit_end(bytes: Seq<u8>, i: int)
    requires
        0 <= i <= bytes.len(),
    ensures
        i <= digit_end(bytes, i) <= bytes.len(),
        i < bytes.len() && is_digit(bytes[i]) ==> i < digit_end(bytes, i),
        forall|k: int| i <= k < digit_end(bytes, i) ==> is_digit(#[trigger] bytes[k]),
        digit_end(bytes, i) < bytes.len() ==> !is_digit(bytes[digit_end(bytes, i)]),
    decreases bytes.len() - i,
{
    if i < bytes.len() && is_digit(bytes[i]) {
        lemma_digit_end(bytes, i + 1);
    }
}

/// The first double quote from `i` on lies inside the input or at its
/// end, and no byte before it is a double quote.
pub proof fn lemma_quote_at(bytes: Seq<u8>, i: int)
    requires
        0 <= i <= bytes.len(),
    ensures
        i <= quote_at(bytes, i) <= bytes.len(),
        forall|k: int| i <= k < quote_at(bytes, i) ==> #[trigger] bytes[k] != 0x22,
        quote_at(bytes, i) < bytes.len() ==> bytes[quote_at(bytes, i)] == 0x22,
    decreases bytes.len() - i,
{
    if i < bytes.len() && bytes[i] != 0x22 {
        lemma_quote_at(bytes, i + 1);
    }
}

/// A longer run of digits denotes a number that is at least as large.
pub proof fn lemma_decimal_value_grows(bytes: Seq<u8>, start: int, k: int, j: int)
    requires
        0 <= start <= k <= j <= bytes.len(),
        forall|m: int| start <= m < j ==> is_digit(#[trigger] bytes[m]),
    ensures
        decimal_value(bytes.subrange(start, k)) <= decimal_value(bytes.subrange(start, j)),
    decreases j - k,
{
    if k < j {
        lemma_decimal_value_grows(bytes, start, k, j - 1);
        assert(bytes.subrange(start, j).drop_last() =~= bytes.subrange(start, j - 1));
    }
}

/// A cursor over the bytes of a source text.
pub struct LexerContext {
    code_bytes: Vec<u8>,
    idx: usize,
}

impl LexerContext {
    #[verifier::type_invariant]
    spec fn inv(self) -> bool {
        self.idx <= self.code_bytes.len() && valid_utf8(self.code_bytes@)
    }

    /// The bytes of the source text.
    pub closed spec fn bytes(&self) -> Seq<u8> {
        self.code_bytes@
    }

    /// How many bytes have been consumed.
    pub closed spec fn pos(&self) -> int {
        self.idx as int
    }

    /// A cursor at the start of `code`, over its UTF-8 encoding.
    pub fn new(code: String) -> (r: Self)
        ensures
            r.bytes() == encode_utf8(code@),
            r.pos() == 0,
    {
        proof {
            encode_utf8_valid_utf8(code@);
        }
        Self { code_bytes: code.as_str().as_bytes_vec(), idx: 0 }
    }

    /// Consumes and returns the next byte; fails at the end of the input,
    /// leaving the cursor where it was.
    pub fn next(&mut self) -> (r: Result<u8, LexError>)
        ensures
            final(self).bytes() == old(self).bytes(),
            0 <= old(self).pos() <= old(self).bytes().len(),
            match r {
                Ok(b) => old(self).pos() < old(self).bytes().len() && b == old(self).bytes()[old(
                    self,
                ).pos()] && final(self).pos() == old(self).pos() + 1,
                Err(e) => e == LexError::UnexpectedEof && old(self).pos() == old(self).bytes().len()
                    && final(self).pos() == old(self).pos(),
            },
    {
        proof {
            use_type_invariant(&*self);
        }
        if self.idx >= self.code_bytes.len() {
            Err(LexError::UnexpectedEof)
        } else {
            let b = self.code_bytes[self.idx];
            self.idx += 1;
            Ok(b)
        }
    }

    /// The byte `lookahead` places after the next one, without consuming
    /// anything; fails if that lies past the end of the input.
    pub fn peek(&self, lookahead: usize) -> (r: Result<u8, LexError>)
        ensures
            0 <= self.pos() <= self.bytes().len(),
            match r {
                Ok(b) => self.pos() + lookahead < self.bytes().len() && b == self.bytes()[self.pos()
                    + lookahead],
                Err(e) => e == LexError::UnexpectedEof && self.pos() + lookahead
                    >= self.bytes().len(),
            },
    {
        proof {
            use_type_invariant(self);
        }
        if lookahead >= self.code_bytes.len() - self.idx {
            Err(LexError::UnexpectedEof)
        } else {
            Ok(self.code_bytes[self.idx + lookahead])
        }
    }
}

fn byte_is_alpha(b: u8) -> (r: bool)
    ensures
        r == is_alpha(b),
{
    (0x41 <= b && b <= 0x5a) || (0x61 <= b && b <= 0x7a)
}

fn byte_is_digit(b: u8) -> (r: bool)
    ensures
        r == is_digit(b),
{
    0x30 <= b && b <= 0x39
}

/// Calls `String::from_utf8` of std. Its contract is taken on trust
/// from the documentation of that function: it succeeds exactly when
/// `bytes` are valid UTF-8, and the string then holds the characters
/// that they encode.
#[verifier::external_body]
fn string_from_utf8(bytes: Vec<u8>) -> (r: Option<String>)
    ensures
        match r {
            Some(s) => valid_utf8(bytes@) && s@ == decode_utf8(bytes@),
            None => !valid_utf8(bytes@),
        },
{
    match String::from_utf8(bytes) {
        Ok(s) => Some(s),
        Err(_) => None,
    }
}

/// Bytes below 0x80 are the UTF-8 encoding of the characters that they
/// stand for.
pub proof fn lemma_ascii_text(word: Seq<u8>)
    requires
        forall|k: int| 0 <= k < word.len() ==> #[trigger] word[k] < 0x80,
    ensures
        valid_utf8(word),
        decode_utf8(word) == ascii_text(word),
{
    let chars = ascii_text(word);
    assert(is_ascii_chars(chars));
    is_ascii_chars_encode_utf8(chars);
    assert(encode_utf8(chars) =~= word);
    encode_utf8_valid_utf8(chars);
    encode_utf8_decode_utf8(chars);
}

/// In the encoding of a text, what stands between two double quotes is
/// the encoding of a text.
pub proof fn lemma_between_quotes(bytes: Seq<u8>, from: int, to: int)
    requires
        valid_utf8(bytes),
        0 < from <= to < bytes.len(),
        bytes[from - 1] == 0x22,
        bytes[to] == 0x22,
    ensures
        valid_utf8(bytes.subrange(from, to)),
{
    let quote: u8 = 0x22;
    assert(!is_continuation_byte(quote)) by {
        assert(0x22u8 & 0xC0 != 0x80) by (bit_vector);
    }
    assert(is_leading_byte_width_1(quote)) by {
        assert(0x22u8 & 0x80 == 0) by (bit_vector);
    }
    is_char_boundary_iff_not_is_continuation_byte(bytes, to);
    valid_utf8_split(bytes, to);
    let prefix = bytes.subrange(0, to);
    is_char_boundary_iff_not_is_continuation_byte(prefix, from - 1);
    valid_utf8_split(prefix, from - 1);
    let quoted = prefix.subrange(from - 1, prefix.len() as int);
    assert(pop_first_scalar(quoted) =~= bytes.subrange(from, to));
}

fn keyword_of(word: &Vec<u8>) -> (r: Option<Token>)
    ensures
        match r {
            Some(t) => keyword(word@) == Some(t@),
            None => keyword(word@) is None,
        },
{
    let n = word.len();
    if n == 5 && word[0] == 0x70 && word[1] == 0x72 && word[2] == 0x69 && word[3] == 0x6e
        && word[4] == 0x74 {
        Some(Token::Print)
    } else if n == 4 && word[0] == 0x65 && word[1] == 0x78 && word[2] == 0x69 && word[3] == 0x74 {
        Some(Token::Exit)
    } else if n == 2 && word[0] == 0x69 && word[1] == 0x66 {
        Some(Token::If)
    } else if n == 5 && word[0] == 0x77 && word[1] == 0x68 && word[2] == 0x69 && word[3] == 0x6c
        && word[4] == 0x65 {
        Some(Token::While)
    } else if n == 6 && word[0] == 0x53 && word[1] == 0x74 && word[2] == 0x72 && word[3] == 0x69
        && word[4] == 0x6e && word[5] == 0x67 {
        Some(Token::TypeString)
    } else if n == 3 && word[0] == 0x49 && word[1] == 0x6e && word[2] == 0x74 {
        Some(Token::TypeInt)
    } else if n == 4 && word[0] == 0x42 && word[1] == 0x6f && word[2] == 0x6f && word[3] == 0x6c {
        Some(Token::TypeBool)
    } else if n == 3 && word[0] == 0x41 && word[1] == 0x6e && word[2] == 0x79 {
        Some(Token::TypeAny)
    } else if n == 4 && word[0] == 0x74 && word[1] == 0x72 && word[2] == 0x75 && word[3] == 0x65 {
        Some(Token::True)
    } else if n == 5 && word[0] == 0x66 && word[1] == 0x61 && word[2] == 0x6c && word[3] == 0x73
        && word[4] == 0x65 {
        Some(Token::False)
    } else {
        None
    }
}

/// Consumes the run of letters and digits at the cursor and returns its
/// token.
fn lex_keyword(ctx: &mut LexerContext) -> (r: Token)
    ensures
        final(ctx).bytes() == old(ctx).bytes(),
        final(ctx).pos() == alnum_end(old(ctx).bytes(), old(ctx).pos()),
        r@ == word_token(old(ctx).bytes().subrange(old(ctx).pos(), final(ctx).pos())),
{
    proof {
        use_type_invariant(&*ctx);
    }
    let ghost bytes = ctx.bytes();
    let ghost start = ctx.pos();
    let mut word: Vec<u8> = Vec::new();
    while ctx.idx < ctx.code_bytes.len() && (byte_is_alpha(ctx.code_bytes[ctx.idx]) || byte_is_digit(
        ctx.code_bytes[ctx.idx],
    ))
        invariant
            ctx.bytes() == bytes,
            valid_utf8(bytes),
            0 <= start <= ctx.idx <= bytes.len(),
            word@ == bytes.subrange(start, ctx.idx as int),
            alnum_end(bytes, start) == alnum_end(bytes, ctx.idx as int),
            forall|k: int| 0 <= k < word.len() ==> is_alnum(#[trigger] word[k]),
        decreases bytes.len() - ctx.idx,
    {
        word.push(ctx.code_bytes[ctx.idx]);
        ctx.idx += 1;
    }
    match keyword_of(&word) {
        Some(t) => t,
        None => {
            proof {
                lemma_ascii_text(word@);
            }
            match string_from_utf8(word) {
                Some(s) => Token::Ident(s),
                None => Token::Blank,
            }
        },
    }
}

/// Consumes the run of digits at the cursor and returns the number that
/// it denotes, if that fits in 64 signed bits.
fn lex_int(ctx: &mut LexerContext) -> (r: Result<i64, LexError>)
    ensures
        final(ctx).bytes() == old(ctx).bytes(),
        match r {
            Ok(n) => final(ctx).pos() == digit_end(old(ctx).bytes(), old(ctx).pos()) && n
                == decimal_value(old(ctx).bytes().subrange(old(ctx).pos(), final(ctx).pos())),
            Err(e) => e == LexError::InvalidInt && decimal_value(
                old(ctx).bytes().subrange(
                    old(ctx).pos(),
                    digit_end(old(ctx).bytes(), old(ctx).pos()),
                ),
            ) > i64::MAX,
        },
{
    proof {
        use_type_invariant(&*ctx);
    }
    let ghost bytes = ctx.bytes();
    let ghost start = ctx.pos();
    let mut acc: i64 = 0;
    while ctx.idx < ctx.code_bytes.len() && byte_is_digit(ctx.code_bytes[ctx.idx])
        invariant
            ctx.bytes() == bytes,
            valid_utf8(bytes),
            bytes == old(ctx).bytes(),
            start == old(ctx).pos(),
            0 <= start <= ctx.idx <= bytes.len(),
            0 <= acc,
            acc == decimal_value(bytes.subrange(start, ctx.idx as int)),
            digit_end(bytes, start) == digit_end(bytes, ctx.idx as int),
            forall|k: int| start <= k < ctx.idx ==> is_digit(#[trigger] bytes[k]),
        decreases bytes.len() - ctx.idx,
    {
        let d: i64 = (ctx.code_bytes[ctx.idx] - 0x30) as i64;
        proof {
            let next = bytes.subrange(start, ctx.idx + 1);
            assert(next.drop_last() =~= bytes.subrange(start, ctx.idx as int));
            lemma_digit_end(bytes, ctx.idx as int);
            lemma_decimal_value_grows(
                bytes,
                start,
                ctx.idx + 1,
                digit_end(bytes, ctx.idx as int),
            );
        }
        if acc > (i64::MAX - d) / 10 {
            return Err(LexError::InvalidInt);
        }
        acc = acc * 10 + d;
        ctx.idx += 1;
    }
    Ok(acc)
}

/// With the cursor on an opening double quote, consumes it and the text
/// up to the closing one, which stays unconsumed, and returns the text.
fn lex_string(ctx: &mut LexerContext) -> (r: Result<String, LexError>)
    requires
        old(ctx).pos() < old(ctx).bytes().len(),
        old(ctx).bytes()[old(ctx).pos()] == 0x22,
    ensures
        final(ctx).bytes() == old(ctx).bytes(),
        ({
            let bytes = old(ctx).bytes();
            let from = old(ctx).pos() + 1;
            let to = quote_at(bytes, from);
            match r {
                Ok(s) => to < bytes.len() && final(ctx).pos() == to && s@ == decode_utf8(
                    bytes.subrange(from, to),
                ),
                Err(e) => e == LexError::UnexpectedEof && to >= bytes.len(),
            }
        }),
{
    proof {
        use_type_invariant(&*ctx);
    }
    let ghost bytes = ctx.bytes();
    let ghost from = ctx.pos() + 1;
    let mut text: Vec<u8> = Vec::new();
    ctx.idx += 1;
    while ctx.idx < ctx.code_bytes.len() && ctx.code_bytes[ctx.idx] != 0x22
        invariant
            ctx.bytes() == bytes,
            valid_utf8(bytes),
            1 <= from <= ctx.idx <= bytes.len(),
            text@ == bytes.subrange(from, ctx.idx as int),
            quote_at(bytes, from) == quote_at(bytes, ctx.idx as int),
        decreases bytes.len() - ctx.idx,
    {
        text.push(ctx.code_bytes[ctx.idx]);
        ctx.idx += 1;
    }
    if ctx.idx >= ctx.code_bytes.len() {
        return Err(LexError::UnexpectedEof);
    }
    proof {
        use_type_invariant(&*ctx);
        lemma_between_quotes(bytes, from, ctx.idx as int);
    }
    match string_from_utf8(text) {
        Some(s) => Ok(s),
        None => Err(LexError::UnexpectedEof),
    }
}

fn punct_of(b: u8) -> (r: Option<Token>)
    ensures
        match r {
            Some(t) => punct(b) == Some(t@),
            None => punct(b) is None,
        },
{
    if b == 0x28 {
        Some(Token::OpenParen)
    } else if b == 0x29 {
        Some(Token::CloseParen)
    } else if b == 0x7b {
        Some(Token::OpenBrace)
    } else if b == 0x7d {
        Some(Token::CloseBrace)
    } else if b == 0x3a {
        Some(Token::Colon)
    } else if b == 0x3d {
        Some(Token::Equals)
    } else if b == 0x2b {
        Some(Token::Plus)
    } else if b == 0x2d {
        Some(Token::Dash)
    } else if b == 0x2a {
        Some(Token::Star)
    } else if b == 0x2f {
        Some(Token::Slash)
    } else if b == 0x3b {
        Some(Token::Semicolon)
    } else if b == 0x21 {
        Some(Token::Bang)
    } else {
        None
    }
}

/// What a lexer run returned, with the tokens taken by their values.
pub open spec fn lexed(r: Result<Vec<Token>, LexError>) -> Result<Seq<TokenView>, LexError> {
    match r {
        Ok(ts) => Ok(token_views(ts@)),
        Err(e) => Err(e),
    }
}

/// Turns the rest of the input into tokens, in source order, or reports
/// the first error met.
pub fn lex(ctx: &mut LexerContext) -> (r: Result<Vec<Token>, LexError>)
    ensures
        final(ctx).bytes() == old(ctx).bytes(),
        valid_utf8(old(ctx).bytes()),
        lexed(r) == lex_from(old(ctx).bytes(), old(ctx).pos()),
        r is Ok ==> final(ctx).pos() == old(ctx).bytes().len(),
{
    proof {
        use_type_invariant(&*ctx);
    }
    let ghost bytes = ctx.bytes();
    let ghost start = ctx.pos();
    let mut tokens: Vec<Token> = Vec::new();
    proof {
        lemma_prepend_empty(lex_from(bytes, start));
    }
    while ctx.idx < ctx.code_bytes.len()
        invariant
            ctx.bytes() == bytes,
            valid_utf8(bytes),
            bytes == old(ctx).bytes(),
            start == old(ctx).pos(),
            0 <= ctx.idx <= bytes.len(),
            lex_from(bytes, start) == prepend(token_views(tokens@), lex_from(bytes, ctx.idx as int)),
        decreases bytes.len() - ctx.idx,
    {
        let ghost i = ctx.idx as int;
        let ghost before = token_views(tokens@);
        let c = ctx.code_bytes[ctx.idx];
        if byte_is_alpha(c) {
            proof {
                lemma_alnum_end(bytes, i);
            }
            let t = lex_keyword(ctx);
            proof {
                lemma_prepend_push(before, t@, lex_from(bytes, ctx.idx as int));
            }
            tokens.push(t);
        } else if byte_is_digit(c) {
            proof {
                lemma_digit_end(bytes, i);
            }
            match lex_int(ctx) {
                Ok(n) => {
                    proof {
                        lemma_prepend_push(
                            before,
                            TokenView::IntLit(n),
                            lex_from(bytes, ctx.idx as int),
                        );
                    }
                    tokens.push(Token::IntLit(n));
                },
                Err(e) => {
                    return Err(e);
                },
            }
        } else if c == 0x22 {
            proof {
                lemma_quote_at(bytes, i + 1);
            }
            match lex_string(ctx) {
                Ok(s) => {
                    proof {
                        use_type_invariant(&*ctx);
                    }
                    ctx.idx += 1;
                    proof {
                        lemma_prepend_push(
                            before,
                            TokenView::StringLit(s@),
                            lex_from(bytes, ctx.idx as int),
                        );
                    }
                    tokens.push(Token::StringLit(s));
                },
                Err(e) => {
                    return Err(e);
                },
            }
        } else if c == 0x20 || c == 0x09 || c == 0x0a {
            ctx.idx += 1;
        } else {
            match punct_of(c) {
                Some(t) => {
                    ctx.idx += 1;
                    proof {
                        lemma_prepend_push(before, t@, lex_from(bytes, ctx.idx as int));
                    }
                    tokens.push(t);
                },
                None => {
                    return Err(LexError::InvalidToken(c));
                },
            }
        }
        proof {
            assert(token_views(tokens@) =~= if tokens@.len() == before.len() {
                before
            } else {
                before.push(tokens@.last()@)
            });
        }
    }
    Ok(tokens)
}

/// Nothing in front of a result leaves it as it is.
pub proof fn lemma_prepend_empty(rest: Result<Seq<TokenView>, LexError>)
    ensures
        prepend(Seq::empty(), rest) == rest,
{
    match rest {
        Ok(ts) => {
            assert(Seq::<TokenView>::empty() + ts =~= ts);
        },
        Err(_) => {},
    }
}

/// Putting `prefix` in front of `t` and what follows is putting `prefix`
/// with `t` in front of what follows.
pub proof fn lemma_prepend_push(
    prefix: Seq<TokenView>,
    t: TokenView,
    rest: Result<Seq<TokenView>, LexError>,
)
    ensures
        prepend(prefix, prepend(seq![t], rest)) == prepend(prefix.push(t), rest),
{
    match rest {
        Ok(ts) => {
            assert(prefix + (seq![t] + ts) =~= prefix.push(t) + ts);
        },
        Err(_) => {},
    }
}

} // verus!
