//! Positions, lexical categories and tokens.
use vstd::prelude::*;
use vstd::utf8::encode_scalar;
use vstd::utf8::encode_utf8;

use crate::text::chars_of;

verus! {

/// A place in the source: line and column of a character (both counted
/// from one, zero before the first character), and the byte offset.
#[derive(Clone, Copy, PartialEq, Eq, Debug, Structural)]
pub struct Cursor {
    pub line: usize,
    pub column: usize,
    pub offset: usize,
    /// Whether the last character consumed ended a line.
    pub newline: bool,
}

/// The number of bytes of `s` in UTF-8.
pub open spec fn byte_len(s: Seq<char>) -> nat {
    encode_utf8(s).len()
}

/// The line of the last character of `s.take(i)` (zero when `i` is zero).
pub open spec fn line_at(s: Seq<char>, i: int) -> nat
    decreases i,
{
    if i <= 0 {
        0
    } else if i == 1 || s[i - 2] == '\n' {
        line_at(s, i - 1) + 1
    } else {
        line_at(s, i - 1)
    }
}

/// The column of the last character of `s.take(i)` (zero when `i` is zero).
pub open spec fn column_at(s: Seq<char>, i: int) -> nat
    decreases i,
{
    if i <= 0 {
        0
    } else if i == 1 || s[i - 2] == '\n' {
        1
    } else {
        column_at(s, i - 1) + 1
    }
}

/// The cursor after the first `i` characters of `s` were consumed.
pub open spec fn cursor_at(s: Seq<char>, i: int) -> Cursor {
    Cursor {
        line: line_at(s, i) as usize,
        column: column_at(s, i) as usize,
        offset: byte_len(s.take(i)) as usize,
        newline: i <= 0 || s[i - 1] == '\n',
    }
}

/// The cursor that starts a token whose first character is `s[i]`: the line
/// and column of that character, and the offset before it.
pub open spec fn start_cursor(s: Seq<char>, i: int) -> Cursor {
    Cursor { line: line_at(s, i + 1) as usize, column: column_at(s, i + 1) as usize, ..cursor_at(s, i) }
}

/// The sentinel position of tokens that do not come from the source.
pub open spec fn sentinel() -> Cursor {
    Cursor { line: 0, column: 0, offset: 0, newline: true }
}

proof fn lemma_encode_push(s: Seq<char>, c: char)
    ensures
        encode_utf8(s.push(c)) == encode_utf8(s) + encode_scalar(c as u32),
    decreases s.len(),
{
    if s.len() == 0 {
        assert(s.push(c).drop_first() == Seq::<char>::empty());
        assert(encode_utf8(Seq::<char>::empty()) == Seq::<u8>::empty());
        assert(encode_utf8(s.push(c)) == encode_scalar(c as u32) + Seq::<u8>::empty());
        assert(encode_scalar(c as u32) + Seq::<u8>::empty() == encode_scalar(c as u32));
        assert(encode_utf8(s) == Seq::<u8>::empty());
        assert(Seq::<u8>::empty() + encode_scalar(c as u32) == encode_scalar(c as u32));
    } else {
        assert(s.push(c).drop_first() == s.drop_first().push(c));
        lemma_encode_push(s.drop_first(), c);
        assert(s.push(c)[0] == s[0]);
        assert(encode_utf8(s.push(c)) == encode_scalar(s[0] as u32) + encode_utf8(
            s.drop_first().push(c),
        ));
        assert(encode_scalar(s[0] as u32) + (encode_utf8(s.drop_first()) + encode_scalar(
            c as u32,
        )) == (encode_scalar(s[0] as u32) + encode_utf8(s.drop_first())) + encode_scalar(
            c as u32,
        ));
    }
}

/// Consuming `s[i]` adds its width to the byte length.
pub proof fn lemma_byte_len_step(s: Seq<char>, i: int)
    requires
        0 <= i < s.len(),
    ensures
        byte_len(s.take(i + 1)) == byte_len(s.take(i)) + encode_scalar(s[i] as u32).len(),
        1 <= encode_scalar(s[i] as u32).len() <= 4,
{
    assert(s.take(i + 1) == s.take(i).push(s[i]));
    lemma_encode_push(s.take(i), s[i]);
}

/// Each character takes at least one byte.
pub proof fn lemma_byte_len_bound(s: Seq<char>, i: int, j: int)
    requires
        0 <= i <= j <= s.len(),
    ensures
        byte_len(s.take(i)) + (j - i) <= byte_len(s.take(j)),
    decreases j - i,
{
    if i < j {
        lemma_byte_len_bound(s, i, j - 1);
        lemma_byte_len_step(s, j - 1);
    }
}

/// The number of bytes that `c` takes in UTF-8.
pub fn utf8_width(c: char) -> (r: usize)
    ensures
        r == encode_scalar(c as u32).len(),
{
    let v = c as u32;
    if v <= 0x7f {
        1
    } else if v <= 0x7ff {
        2
    } else if v <= 0xffff {
        3
    } else {
        4
    }
}

impl Cursor {
    /// The position before any character was consumed.
    pub fn new() -> (r: Cursor)
        ensures
            r == sentinel(),
    {
        Cursor { line: 0, column: 0, offset: 0, newline: true }
    }

    /// Moves past `c`: a character after a line break opens a new line.
    pub fn consume(&mut self, c: char)
        requires
            old(self).line < usize::MAX,
            old(self).column < usize::MAX,
            old(self).offset + encode_scalar(c as u32).len() <= usize::MAX,
        ensures
            final(self).line == if old(self).newline {
                old(self).line + 1
            } else {
                old(self).line as int
            },
            final(self).column == if old(self).newline {
                1
            } else {
                old(self).column + 1
            },
            final(self).offset == old(self).offset + encode_scalar(c as u32).len(),
            final(self).newline == (c == '\n'),
    {
        if self.newline {
            self.line += 1;
            self.column = 0;
        }
        self.newline = c == '\n';
        self.column += 1;
        self.offset += utf8_width(c);
    }

    /// Takes the line and column of `p`, keeping the offset.
    pub fn move_to(&mut self, p: &Cursor)
        ensures
            *final(self) == (Cursor { line: p.line, column: p.column, ..*old(self) }),
    {
        self.line = p.line;
        self.column = p.column;
    }
}

/// The lexical categories.
#[derive(Clone, Copy, PartialEq, Eq, Debug, Structural)]
pub enum Lexeme {
    Blank,
    /// A name, with the number of dots in it.
    Name(usize),
    Prop,
    Integer,
    Number,
    Delim(char),
    SimpleString,
    BlockString,
    /// Inline C code; whether its opening `C{` was read.
    InlineC(bool),
    Comment,
    CComment,
    CxxComment,
    OpeningGroup,
    ClosingGroup,
    OpeningBlock,
    ClosingBlock,
    OpeningArray,
    ClosingArray,
    /// An error; the token's text is the message.
    Bad,
}

/// Where the text of a token comes from.
#[derive(Clone, Copy, PartialEq, Eq, Debug, Structural)]
pub enum Source {
    /// A slice of the source, at the token's span.
    Sourced,
    /// A fixed string.
    Literal,
    /// A string built by a rewriting pass.
    Computed,
}

/// A lexeme, its span in the source, and its text.
#[derive(Clone, Debug)]
pub struct Token {
    pub lexeme: Lexeme,
    pub start: Cursor,
    pub end: Cursor,
    pub source: Source,
    pub text: Vec<char>,
}

/// The mathematical value of a token.
pub struct TokenView {
    pub lexeme: Lexeme,
    pub start: Cursor,
    pub end: Cursor,
    pub source: Source,
    pub text: Seq<char>,
}

impl View for Token {
    type V = TokenView;

    open spec fn view(&self) -> TokenView {
        TokenView {
            lexeme: self.lexeme,
            start: self.start,
            end: self.end,
            source: self.source,
            text: self.text@,
        }
    }
}

/// The values of a sequence of tokens.
pub open spec fn views(v: Seq<Token>) -> Seq<TokenView> {
    v.map_values(|t: Token| t@)
}

/// Pushing a token pushes its value.
pub proof fn lemma_views_push(v: Seq<Token>, t: Token)
    ensures
        views(v.push(t)) == views(v).push(t@),
{
    assert(views(v.push(t)) =~= views(v).push(t@));
}

/// Appends `t` to `out`.
pub fn emit(out: &mut Vec<Token>, t: Token)
    ensures
        views(final(out)@) == views(old(out)@) + seq![t@],
{
    proof {
        lemma_views_push(out@, t);
        assert(views(out@).push(t@) == views(out@) + seq![t@]);
    }
    out.push(t);
}

/// Appends a token spelling a fixed string to `out`.
pub fn emit_raw(out: &mut Vec<Token>, lex: Lexeme, s: &'static str)
    ensures
        views(final(out)@) == views(old(out)@) + seq![synthetic(lex, Source::Literal, s@)],
{
    emit(out, Token::raw(lex, s));
}

/// A token that does not come from the source.
pub open spec fn synthetic(lexeme: Lexeme, source: Source, text: Seq<char>) -> TokenView {
    TokenView { lexeme, start: sentinel(), end: sentinel(), source, text }
}

/// The error that replaces `t`: its span, and `msg` as its text.
pub open spec fn bad_at(t: TokenView, msg: Seq<char>) -> TokenView {
    TokenView { lexeme: Lexeme::Bad, start: t.start, end: t.end, source: t.source, text: msg }
}

/// The text of the tokens, in order.
pub open spec fn joined(v: Seq<TokenView>) -> Seq<char>
    decreases v.len(),
{
    if v.len() == 0 {
        Seq::empty()
    } else {
        v[0].text + joined(v.drop_first())
    }
}

/// The text of two runs of tokens is the text of each, in order.
pub proof fn lemma_joined_append(a: Seq<TokenView>, b: Seq<TokenView>)
    ensures
        joined(a + b) == joined(a) + joined(b),
    decreases a.len(),
{
    if a.len() == 0 {
        assert(a + b == b);
        assert(Seq::<char>::empty() + joined(b) == joined(b));
    } else {
        assert((a + b).drop_first() == a.drop_first() + b);
        lemma_joined_append(a.drop_first(), b);
        assert(a[0].text + (joined(a.drop_first()) + joined(b)) == (a[0].text + joined(
            a.drop_first(),
        )) + joined(b));
    }
}

impl Token {
    /// A copy of the token; tokens are values.
    pub fn copy(&self) -> (r: Token)
        ensures
            r@ == self@,
    {
        Token {
            lexeme: self.lexeme,
            start: self.start,
            end: self.end,
            source: self.source,
            text: self.text.clone(),
        }
    }

    /// The error that takes the place of this token.
    pub fn turn_bad(&self, msg: &'static str) -> (r: Token)
        requires
            self.lexeme != Lexeme::Bad,
            self.source == Source::Sourced,
        ensures
            r@ == bad_at(self@, msg@),
    {
        Token {
            lexeme: Lexeme::Bad,
            start: self.start,
            end: self.end,
            source: self.source,
            text: chars_of(msg),
        }
    }

    /// An error at the span of this token, whatever it is.
    pub(crate) fn turn_bad_at(&self, msg: &'static str) -> (r: Token)
        ensures
            r@ == bad_at(self@, msg@),
    {
        Token {
            lexeme: Lexeme::Bad,
            start: self.start,
            end: self.end,
            source: self.source,
            text: chars_of(msg),
        }
    }

    /// A token spelling a fixed string.
    pub fn raw(lex: Lexeme, msg: &'static str) -> (r: Token)
        ensures
            r@ == synthetic(lex, Source::Literal, msg@),
    {
        Token {
            lexeme: lex,
            start: Cursor::new(),
            end: Cursor::new(),
            source: Source::Literal,
            text: chars_of(msg),
        }
    }

    /// A token spelling a string built by a pass.
    pub fn dynamic(lex: Lexeme, msg: Vec<char>) -> (r: Token)
        ensures
            r@ == synthetic(lex, Source::Computed, msg@),
    {
        Token {
            lexeme: lex,
            start: Cursor::new(),
            end: Cursor::new(),
            source: Source::Computed,
            text: msg,
        }
    }

    /// A synthetic copy of this token: same lexeme and text, no position.
    pub fn to_synth(&self) -> (r: Token)
        ensures
            r@ == synthetic(self.lexeme, Source::Computed, self.text@),
    {
        Self::dynamic(self.lexeme, self.text.clone())
    }

    /// The text of the token.
    pub fn as_str(&self) -> (r: &[char])
        ensures
            r@ == self.text@,
    {
        self.text.as_slice()
    }

    /// Whether the token was made by a pass rather than read from the source.
    pub fn synthetic(&self) -> (r: bool)
        ensures
            r == (self.source != Source::Sourced),
    {
        self.source != Source::Sourced
    }
}

} // verus!
