//! The tokenizer: a classification state machine with one character of
//! lookahead.
use vstd::prelude::*;
use vstd::utf8::encode_scalar;
use vstd::utf8::encode_utf8;

use crate::text::chars_of;
use crate::tok::{views, joined, lemma_joined_append, cursor_at, start_cursor, Cursor, Lexeme, Source, Token, TokenView, byte_len, line_at, column_at, lemma_byte_len_step, lemma_byte_len_bound};

verus! {

/// What the tokenizer does with the character it just read.
#[derive(Clone, Copy, PartialEq, Eq, Debug, Structural)]
pub enum Handling {
    /// The token could go on; the end of input completes it.
    MayNeedMore,
    /// The token must go on; the end of input is an error.
    NeedsMore,
    /// The character completes the token.
    CurrentReady,
    /// The character does not belong to the token; it starts the next one.
    PreviousReady,
    /// The token is an error.
    Done,
}

pub open spec fn blank_char(c: char) -> bool {
    c == ' ' || c == '\n' || c == '\r' || c == '\t'
}

pub open spec fn alpha_char(c: char) -> bool {
    ('a' <= c && c <= 'z') || ('A' <= c && c <= 'Z')
}

pub open spec fn digit_char(c: char) -> bool {
    '0' <= c && c <= '9'
}

pub open spec fn name_char(c: char) -> bool {
    alpha_char(c) || digit_char(c) || c == '_' || c == '-'
}

/// Characters that are a token of their own.
pub open spec fn delim_char(c: char) -> bool {
    c == '+' || c == '-' || c == '*' || c == '=' || c == '<' || c == '>' || c == '~' || c == '!'
        || c == '&' || c == '|' || c == ',' || c == ';'
}

/// Where a name goes on reading `c` after `prev`.
pub open spec fn classify_name(d: usize, prev: char, c: char) -> (Lexeme, Handling, Seq<char>) {
    if prev == '.' && c == '.' {
        (Lexeme::Bad, Handling::Done, "invalid name"@)
    } else if name_char(c) {
        (Lexeme::Name(d), Handling::MayNeedMore, Seq::empty())
    } else if c == '.' {
        (Lexeme::Name((d + 1) as usize), Handling::NeedsMore, Seq::empty())
    } else if prev == '.' {
        (Lexeme::Bad, Handling::Done, "invalid name"@)
    } else {
        (Lexeme::Name(d), Handling::PreviousReady, Seq::empty())
    }
}

/// The transition table: from the classification so far (none at a token
/// boundary), the previous character and the next one, the new
/// classification, what to do with the character, and the message of an
/// error.
pub open spec fn classify(lex: Option<Lexeme>, prev: char, c: char) -> (Lexeme, Handling, Seq<char>) {
    let none = Seq::<char>::empty();
    match lex {
        None => {
            if blank_char(c) {
                (Lexeme::Blank, Handling::MayNeedMore, none)
            } else if c == 'C' {
                (Lexeme::InlineC(false), Handling::MayNeedMore, none)
            } else if alpha_char(c) {
                (Lexeme::Name(0), Handling::MayNeedMore, none)
            } else if digit_char(c) {
                (Lexeme::Integer, Handling::MayNeedMore, none)
            } else if c == '.' {
                (Lexeme::Prop, Handling::CurrentReady, none)
            } else if c == '/' {
                (Lexeme::Delim('/'), Handling::MayNeedMore, none)
            } else if delim_char(c) {
                (Lexeme::Delim(c), Handling::CurrentReady, none)
            } else if c == '"' {
                (Lexeme::SimpleString, Handling::NeedsMore, none)
            } else if c == '#' {
                (Lexeme::Comment, Handling::NeedsMore, none)
            } else if c == '(' {
                (Lexeme::OpeningGroup, Handling::CurrentReady, none)
            } else if c == ')' {
                (Lexeme::ClosingGroup, Handling::CurrentReady, none)
            } else if c == '{' {
                (Lexeme::OpeningBlock, Handling::MayNeedMore, none)
            } else if c == '}' {
                (Lexeme::ClosingBlock, Handling::CurrentReady, none)
            } else if c == '[' {
                (Lexeme::OpeningArray, Handling::CurrentReady, none)
            } else if c == ']' {
                (Lexeme::ClosingArray, Handling::CurrentReady, none)
            } else {
                (Lexeme::Bad, Handling::Done, "unexpected character"@)
            }
        },
        Some(Lexeme::Blank) => {
            if blank_char(c) {
                (Lexeme::Blank, Handling::MayNeedMore, none)
            } else {
                (Lexeme::Blank, Handling::PreviousReady, none)
            }
        },
        Some(Lexeme::OpeningBlock) => {
            if prev == '{' && c == '"' {
                (Lexeme::BlockString, Handling::NeedsMore, none)
            } else {
                (Lexeme::OpeningBlock, Handling::PreviousReady, none)
            }
        },
        Some(Lexeme::Delim(d)) => {
            if prev == '/' && c == '*' {
                (Lexeme::CComment, Handling::NeedsMore, none)
            } else if prev == '/' && c == '/' {
                (Lexeme::CxxComment, Handling::NeedsMore, none)
            } else {
                (Lexeme::Delim(d), Handling::PreviousReady, none)
            }
        },
        Some(Lexeme::Name(d)) => classify_name(d, prev, c),
        Some(Lexeme::Integer) => {
            if c == '.' {
                (Lexeme::Number, Handling::MayNeedMore, none)
            } else if digit_char(c) {
                (Lexeme::Integer, Handling::MayNeedMore, none)
            } else {
                (Lexeme::Integer, Handling::PreviousReady, none)
            }
        },
        Some(Lexeme::Number) => {
            if c == '.' {
                (Lexeme::Bad, Handling::Done, "invalid number"@)
            } else if digit_char(c) {
                (Lexeme::Number, Handling::MayNeedMore, none)
            } else {
                (Lexeme::Number, Handling::PreviousReady, none)
            }
        },
        Some(Lexeme::SimpleString) => {
            if c == '\n' {
                (Lexeme::Bad, Handling::Done, "invalid string"@)
            } else if c == '"' {
                (Lexeme::SimpleString, Handling::CurrentReady, none)
            } else {
                (Lexeme::SimpleString, Handling::NeedsMore, none)
            }
        },
        Some(Lexeme::BlockString) => {
            if prev == '"' && c == '}' {
                (Lexeme::BlockString, Handling::CurrentReady, none)
            } else {
                (Lexeme::BlockString, Handling::NeedsMore, none)
            }
        },
        Some(Lexeme::InlineC(false)) => {
            if c == '{' {
                (Lexeme::InlineC(true), Handling::NeedsMore, none)
            } else {
                classify_name(0, prev, c)
            }
        },
        Some(Lexeme::InlineC(true)) => {
            if prev == '}' && c == 'C' {
                (Lexeme::InlineC(true), Handling::CurrentReady, none)
            } else {
                (Lexeme::InlineC(true), Handling::NeedsMore, none)
            }
        },
        Some(Lexeme::Comment) => {
            if c == '\n' {
                (Lexeme::Comment, Handling::CurrentReady, none)
            } else {
                (Lexeme::Comment, Handling::MayNeedMore, none)
            }
        },
        Some(Lexeme::CComment) => {
            if prev == '*' && c == '/' {
                (Lexeme::CComment, Handling::CurrentReady, none)
            } else {
                (Lexeme::CComment, Handling::NeedsMore, none)
            }
        },
        Some(Lexeme::CxxComment) => {
            if c == '\n' {
                (Lexeme::CxxComment, Handling::CurrentReady, none)
            } else {
                (Lexeme::CxxComment, Handling::MayNeedMore, none)
            }
        },
        // the remaining categories are complete after one character
        Some(l) => (l, Handling::PreviousReady, none),
    }
}

/// The category of a token that the end of input completes: a lone `C` is a
/// name.
pub open spec fn finalize(l: Lexeme) -> Lexeme {
    if l == Lexeme::InlineC(false) {
        Lexeme::Name(0)
    } else {
        l
    }
}

/// Reads on from `s[i]` in the given state, and gives the token's category,
/// the index after its last character, and the message of an error.
pub open spec fn munch(s: Seq<char>, i: int, lex: Option<Lexeme>, prev: char, h: Handling) -> (
    Lexeme,
    int,
    Seq<char>,
)
    decreases s.len() - i,
{
    if i >= s.len() {
        if h == Handling::MayNeedMore && lex is Some {
            (finalize(lex->0), i, Seq::empty())
        } else {
            (Lexeme::Bad, i, "incomplete VCL"@)
        }
    } else {
        let (l, h2, m) = classify(lex, prev, s[i]);
        match h2 {
            Handling::MayNeedMore => munch(s, i + 1, Some(l), s[i], h2),
            Handling::NeedsMore => munch(s, i + 1, Some(l), s[i], h2),
            Handling::PreviousReady => (l, i, Seq::empty()),
            Handling::CurrentReady => (l, i + 1, Seq::empty()),
            Handling::Done => (Lexeme::Bad, i + 1, m),
        }
    }
}

/// The token that starts at `s[i]`: category, end and message.
pub open spec fn scan(s: Seq<char>, i: int) -> (Lexeme, int, Seq<char>) {
    munch(s, i, None, '?', Handling::NeedsMore)
}

/// The token that starts at `s[i]`. Its text is the slice of the source,
/// or the message of an error.
pub open spec fn token_at(s: Seq<char>, i: int) -> TokenView {
    let (l, e, m) = scan(s, i);
    TokenView {
        lexeme: l,
        start: start_cursor(s, i),
        end: cursor_at(s, e),
        source: Source::Sourced,
        text: if l == Lexeme::Bad {
            m
        } else {
            s.subrange(i, e)
        },
    }
}

proof fn lemma_munch_end(s: Seq<char>, i: int, lex: Option<Lexeme>, prev: char, h: Handling)
    requires
        0 <= i <= s.len(),
    ensures
        i <= munch(s, i, lex, prev, h).1 <= s.len(),
    decreases s.len() - i,
{
    if i < s.len() {
        let (l, h2, m) = classify(lex, prev, s[i]);
        if h2 == Handling::MayNeedMore || h2 == Handling::NeedsMore {
            lemma_munch_end(s, i + 1, Some(l), s[i], h2);
        }
    }
}

/// A token takes at least one character.
pub proof fn lemma_scan_end(s: Seq<char>, i: int)
    requires
        0 <= i < s.len(),
    ensures
        i < scan(s, i).1 <= s.len(),
{
    let (l, h2, m) = classify(None, '?', s[i]);
    if h2 == Handling::MayNeedMore || h2 == Handling::NeedsMore {
        lemma_munch_end(s, i + 1, Some(l), s[i], h2);
    }
}

/// The tokens of `s` from index `i` on; an error ends them.
pub open spec fn lex_from(s: Seq<char>, i: int) -> Seq<TokenView>
    decreases s.len() - i,
{
    if i < 0 || i >= s.len() {
        Seq::empty()
    } else {
        let t = token_at(s, i);
        if t.lexeme == Lexeme::Bad {
            seq![t]
        } else {
            proof {
                lemma_scan_end(s, i);
            }
            seq![t] + lex_from(s, scan(s, i).1)
        }
    }
}

/// The tokens of `s`.
pub open spec fn lexed(s: Seq<char>) -> Seq<TokenView> {
    lex_from(s, 0)
}

proof fn lemma_lossless_from(s: Seq<char>, i: int)
    requires
        0 <= i <= s.len(),
        forall|k: int| 0 <= k < lex_from(s, i).len() ==> lex_from(s, i)[k].lexeme != Lexeme::Bad,
    ensures
        joined(lex_from(s, i)) == s.subrange(i, s.len() as int),
    decreases s.len() - i,
{
    if i < s.len() {
        let t = token_at(s, i);
        lemma_scan_end(s, i);
        let e = scan(s, i).1;
        assert(lex_from(s, i)[0] == t);
        let rest = lex_from(s, e);
        assert(lex_from(s, i) == seq![t] + rest);
        assert forall|k: int| 0 <= k < rest.len() implies rest[k].lexeme != Lexeme::Bad by {
            assert(rest[k] == lex_from(s, i)[k + 1]);
        }
        lemma_lossless_from(s, e);
        lemma_joined_append(seq![t], rest);
        assert(seq![t].drop_first() == Seq::<TokenView>::empty());
        assert(joined(Seq::<TokenView>::empty()) == Seq::<char>::empty());
        assert(joined(seq![t]) == t.text + joined(Seq::<TokenView>::empty()));
        assert(t.text + Seq::<char>::empty() == t.text);
        assert(s.subrange(i, e) + s.subrange(e, s.len() as int) == s.subrange(i, s.len() as int));
    } else {
        assert(s.subrange(i, s.len() as int) == Seq::<char>::empty());
    }
}

/// Lexing loses nothing: where no token is an error, the texts of the
/// tokens, in order, give back the input.
pub proof fn lemma_lossless(s: Seq<char>)
    requires
        forall|k: int| 0 <= k < lexed(s).len() ==> lexed(s)[k].lexeme != Lexeme::Bad,
    ensures
        joined(lexed(s)) == s,
{
    assert(lexed(s) == lex_from(s, 0));
    lemma_lossless_from(s, 0);
    assert(s.subrange(0, s.len() as int) == s);
}

proof fn lemma_line_column_bound(s: Seq<char>, i: int)
    requires
        0 <= i,
    ensures
        line_at(s, i) <= i,
        column_at(s, i) <= i,
    decreases i,
{
    if i > 0 {
        lemma_line_column_bound(s, i - 1);
    }
}

/// The cursor after one more character.
proof fn lemma_cursor_step(s: Seq<char>, i: int)
    requires
        0 <= i < s.len(),
        byte_len(s) <= usize::MAX,
    ensures
        cursor_at(s, i + 1).line == if cursor_at(s, i).newline {
            cursor_at(s, i).line + 1
        } else {
            cursor_at(s, i).line as int
        },
        cursor_at(s, i + 1).column == if cursor_at(s, i).newline {
            1
        } else {
            cursor_at(s, i).column + 1
        },
        cursor_at(s, i + 1).offset == cursor_at(s, i).offset + encode_scalar(s[i] as u32).len(),
        cursor_at(s, i + 1).newline == (s[i] == '\n'),
{
    lemma_consume_fits(s, i);
    lemma_line_column_bound(s, i + 1);
    lemma_byte_len_bound(s, i + 1, s.len() as int);
    lemma_byte_len_bound(s, 0, s.len() as int);
    assert(s.take(s.len() as int) == s);
}

/// Consuming `s[i]` stays within the machine's integers.
proof fn lemma_consume_fits(s: Seq<char>, i: int)
    requires
        0 <= i < s.len(),
        byte_len(s) <= usize::MAX,
    ensures
        line_at(s, i) < usize::MAX,
        column_at(s, i) < usize::MAX,
        byte_len(s.take(i)) + encode_scalar(s[i] as u32).len() <= usize::MAX,
        byte_len(s.take(i + 1)) == byte_len(s.take(i)) + encode_scalar(s[i] as u32).len(),
{
    lemma_line_column_bound(s, i);
    lemma_byte_len_step(s, i);
    lemma_byte_len_bound(s, i + 1, s.len() as int);
    lemma_byte_len_bound(s, 0, s.len() as int);
    assert(s.take(s.len() as int) == s);
}

/// Tokenizer over a source text. Each call of `next` hands out the next
/// token; an error is the last one.
pub struct Tokenizer {
    chars: Vec<char>,
    pos: usize,
    done: bool,
    lexeme: Option<Lexeme>,
    text: Vec<char>,
    start: Cursor,
    end: Cursor,
    previous: char,
    handling: Handling,
}

impl Tokenizer {
    /// The source text.
    pub closed spec fn source(&self) -> Seq<char> {
        self.chars@
    }

    /// The tokens still to come.
    pub closed spec fn remaining(&self) -> Seq<TokenView> {
        if self.done {
            Seq::empty()
        } else {
            lex_from(self.chars@, self.pos as int)
        }
    }

    /// The text gathered for the current token.
    pub closed spec fn gathered(&self) -> Seq<char> {
        self.text@
    }

    /// Whether the two differ in the gathered text at most.
    pub closed spec fn same_but_text(&self, other: &Tokenizer) -> bool {
        &&& self.chars == other.chars
        &&& self.pos == other.pos
        &&& self.done == other.done
        &&& self.lexeme == other.lexeme
        &&& self.start == other.start
        &&& self.end == other.end
        &&& self.previous == other.previous
        &&& self.handling == other.handling
    }

    pub closed spec fn wf(&self) -> bool {
        &&& self.pos <= self.chars@.len()
        &&& byte_len(self.chars@) <= usize::MAX
        &&& self.end == cursor_at(self.chars@, self.pos as int)
    }

    /// A tokenizer at the start of `src`.
    pub fn new(src: &str) -> (r: Tokenizer)
        ensures
            r.wf(),
            r.source() == src@,
            r.remaining() == lexed(src@),
    {
        let chars = chars_of(src);
        let bytes = src.as_bytes();
        proof {
            // the UTF-8 form of the source is a slice, so its length fits
            assert(bytes@.len() == bytes.len());
            assert(src@.take(0) == Seq::<char>::empty());
            assert(encode_utf8(Seq::<char>::empty()) == Seq::<u8>::empty());
        }
        Tokenizer {
            chars,
            pos: 0,
            done: false,
            lexeme: None,
            text: Vec::new(),
            start: Cursor::new(),
            end: Cursor::new(),
            previous: '?',
            handling: Handling::NeedsMore,
        }
    }

    /// Replaces the gathered text with the message `msg`; an error.
    pub fn error(&mut self, msg: &'static str) -> (r: Lexeme)
        ensures
            r == Lexeme::Bad,
            final(self).gathered() == msg@,
            final(self).same_but_text(old(self)),
            final(self).wf() == old(self).wf(),
            final(self).source() == old(self).source(),
            final(self).remaining() == old(self).remaining(),
    {
        self.text = chars_of(msg);
        Lexeme::Bad
    }

    /// Where a name goes on reading `c`.
    fn next_name(&mut self, d: usize, c: char) -> (r: (Lexeme, Handling))
        requires
            d < usize::MAX,
        ensures
            r.0 == classify_name(d, old(self).previous, c).0,
            r.1 == classify_name(d, old(self).previous, c).1,
            r.1 == Handling::Done ==> final(self).text@ == classify_name(d, old(self).previous, c).2,
            r.1 != Handling::Done ==> final(self).text == old(self).text,
            final(self).chars == old(self).chars,
            final(self).pos == old(self).pos,
            final(self).done == old(self).done,
            final(self).lexeme == old(self).lexeme,
            final(self).start == old(self).start,
            final(self).end == old(self).end,
            final(self).previous == old(self).previous,
            final(self).handling == old(self).handling,
    {
        let prev = self.previous;
        if prev == '.' && c == '.' {
            (self.error("invalid name"), Handling::Done)
        } else if ('a' <= c && c <= 'z') || ('A' <= c && c <= 'Z') || ('0' <= c && c <= '9')
            || c == '_' || c == '-' {
            (Lexeme::Name(d), Handling::MayNeedMore)
        } else if c == '.' {
            (Lexeme::Name(d + 1), Handling::NeedsMore)
        } else if prev == '.' {
            (self.error("invalid name"), Handling::Done)
        } else {
            (Lexeme::Name(d), Handling::PreviousReady)
        }
    }

    /// The transition from the current classification on reading `c`.
    fn next_state(&mut self, c: char) -> (r: (Lexeme, Handling))
        requires
            match old(self).lexeme {
                Some(Lexeme::Name(d)) => d < usize::MAX,
                _ => true,
            },
        ensures
            r.0 == classify(old(self).lexeme, old(self).previous, c).0,
            r.1 == classify(old(self).lexeme, old(self).previous, c).1,
            r.1 == Handling::Done ==> final(self).text@ == classify(
                old(self).lexeme,
                old(self).previous,
                c,
            ).2,
            r.1 != Handling::Done ==> final(self).text == old(self).text,
            final(self).chars == old(self).chars,
            final(self).pos == old(self).pos,
            final(self).done == old(self).done,
            final(self).lexeme == old(self).lexeme,
            final(self).start == old(self).start,
            final(self).end == old(self).end,
            final(self).previous == old(self).previous,
            final(self).handling == old(self).handling,
    {
        let prev = self.previous;
        match self.lexeme {
            None => {
                if c == ' ' || c == '\n' || c == '\r' || c == '\t' {
                    (Lexeme::Blank, Handling::MayNeedMore)
                } else if c == 'C' {
                    (Lexeme::InlineC(false), Handling::MayNeedMore)
                } else if ('a' <= c && c <= 'z') || ('A' <= c && c <= 'Z') {
                    (Lexeme::Name(0), Handling::MayNeedMore)
                } else if '0' <= c && c <= '9' {
                    (Lexeme::Integer, Handling::MayNeedMore)
                } else if c == '.' {
                    (Lexeme::Prop, Handling::CurrentReady)
                } else if c == '/' {
                    (Lexeme::Delim('/'), Handling::MayNeedMore)
                } else if c == '+' || c == '-' || c == '*' || c == '=' || c == '<' || c == '>'
                    || c == '~' || c == '!' || c == '&' || c == '|' || c == ',' || c == ';' {
                    (Lexeme::Delim(c), Handling::CurrentReady)
                } else if c == '"' {
                    (Lexeme::SimpleString, Handling::NeedsMore)
                } else if c == '#' {
                    (Lexeme::Comment, Handling::NeedsMore)
                } else if c == '(' {
                    (Lexeme::OpeningGroup, Handling::CurrentReady)
                } else if c == ')' {
                    (Lexeme::ClosingGroup, Handling::CurrentReady)
                } else if c == '{' {
                    (Lexeme::OpeningBlock, Handling::MayNeedMore)
                } else if c == '}' {
                    (Lexeme::ClosingBlock, Handling::CurrentReady)
                } else if c == '[' {
                    (Lexeme::OpeningArray, Handling::CurrentReady)
                } else if c == ']' {
                    (Lexeme::ClosingArray, Handling::CurrentReady)
                } else {
                    (self.error("unexpected character"), Handling::Done)
                }
            },
            Some(Lexeme::Blank) => {
                if c == ' ' || c == '\n' || c == '\r' || c == '\t' {
                    (Lexeme::Blank, Handling::MayNeedMore)
                } else {
                    (Lexeme::Blank, Handling::PreviousReady)
                }
            },
            Some(Lexeme::OpeningBlock) => {
                if prev == '{' && c == '"' {
                    (Lexeme::BlockString, Handling::NeedsMore)
                } else {
                    (Lexeme::OpeningBlock, Handling::PreviousReady)
                }
            },
            Some(Lexeme::Delim(d)) => {
                if prev == '/' && c == '*' {
                    (Lexeme::CComment, Handling::NeedsMore)
                } else if prev == '/' && c == '/' {
                    (Lexeme::CxxComment, Handling::NeedsMore)
                } else {
                    (Lexeme::Delim(d), Handling::PreviousReady)
                }
            },
            Some(Lexeme::Name(d)) => self.next_name(d, c),
            Some(Lexeme::Integer) => {
                if c == '.' {
                    (Lexeme::Number, Handling::MayNeedMore)
                } else if '0' <= c && c <= '9' {
                    (Lexeme::Integer, Handling::MayNeedMore)
                } else {
                    (Lexeme::Integer, Handling::PreviousReady)
                }
            },
            Some(Lexeme::Number) => {
                if c == '.' {
                    (self.error("invalid number"), Handling::Done)
                } else if '0' <= c && c <= '9' {
                    (Lexeme::Number, Handling::MayNeedMore)
                } else {
                    (Lexeme::Number, Handling::PreviousReady)
                }
            },
            Some(Lexeme::SimpleString) => {
                if c == '\n' {
                    (self.error("invalid string"), Handling::Done)
                } else if c == '"' {
                    (Lexeme::SimpleString, Handling::CurrentReady)
                } else {
                    (Lexeme::SimpleString, Handling::NeedsMore)
                }
            },
            Some(Lexeme::BlockString) => {
                if prev == '"' && c == '}' {
                    (Lexeme::BlockString, Handling::CurrentReady)
                } else {
                    (Lexeme::BlockString, Handling::NeedsMore)
                }
            },
            Some(Lexeme::InlineC(false)) => {
                if c == '{' {
                    (Lexeme::InlineC(true), Handling::NeedsMore)
                } else {
                    self.next_name(0, c)
                }
            },
            Some(Lexeme::InlineC(true)) => {
                if prev == '}' && c == 'C' {
                    (Lexeme::InlineC(true), Handling::CurrentReady)
                } else {
                    (Lexeme::InlineC(true), Handling::NeedsMore)
                }
            },
            Some(Lexeme::Comment) => {
                if c == '\n' {
                    (Lexeme::Comment, Handling::CurrentReady)
                } else {
                    (Lexeme::Comment, Handling::MayNeedMore)
                }
            },
            Some(Lexeme::CComment) => {
                if prev == '*' && c == '/' {
                    (Lexeme::CComment, Handling::CurrentReady)
                } else {
                    (Lexeme::CComment, Handling::NeedsMore)
                }
            },
            Some(Lexeme::CxxComment) => {
                if c == '\n' {
                    (Lexeme::CxxComment, Handling::CurrentReady)
                } else {
                    (Lexeme::CxxComment, Handling::MayNeedMore)
                }
            },
            Some(l) => (l, Handling::PreviousReady),
        }
    }

    /// Takes in `c`: its text joins the token's and the end moves past it.
    fn consume(&mut self, c: char)
        requires
            old(self).end.line < usize::MAX,
            old(self).end.column < usize::MAX,
            old(self).end.offset + encode_scalar(c as u32).len() <= usize::MAX,
            old(self).pos < usize::MAX,
        ensures
            final(self).text@ == old(self).text@.push(c),
            final(self).end.line == if old(self).end.newline {
                old(self).end.line + 1
            } else {
                old(self).end.line as int
            },
            final(self).end.column == if old(self).end.newline {
                1
            } else {
                old(self).end.column + 1
            },
            final(self).end.offset == old(self).end.offset + encode_scalar(c as u32).len(),
            final(self).end.newline == (c == '\n'),
            final(self).pos == old(self).pos + 1,
            final(self).chars == old(self).chars,
            final(self).done == old(self).done,
            final(self).lexeme == old(self).lexeme,
            final(self).start == old(self).start,
            final(self).previous == old(self).previous,
            final(self).handling == old(self).handling,
    {
        self.text.push(c);
        self.end.consume(c);
        self.pos += 1;
    }

    /// The token gathered so far, leaving the gathered text empty.
    fn to_token(&mut self, lexeme: Lexeme) -> (r: Token)
        ensures
            r@ == (TokenView {
                lexeme,
                start: old(self).start,
                end: old(self).end,
                source: Source::Sourced,
                text: old(self).text@,
            }),
            final(self).text@ == Seq::<char>::empty(),
            final(self).chars == old(self).chars,
            final(self).pos == old(self).pos,
            final(self).done == old(self).done,
            final(self).lexeme == old(self).lexeme,
            final(self).start == old(self).start,
            final(self).end == old(self).end,
            final(self).previous == old(self).previous,
            final(self).handling == old(self).handling,
    {
        let mut text: Vec<char> = Vec::new();
        std::mem::swap(&mut text, &mut self.text);
        Token { lexeme, start: self.start, end: self.end, source: Source::Sourced, text }
    }

    /// The next token, or `None` at the end of the input or after an error.
    pub fn next(&mut self) -> (r: Option<Token>)
        requires
            old(self).wf(),
        ensures
            final(self).wf(),
            final(self).source() == old(self).source(),
            match r {
                None => old(self).remaining().len() == 0 && final(self).remaining().len() == 0,
                Some(t) => old(self).remaining() == seq![t@] + final(self).remaining(),
            },
    {
        if self.done || self.pos >= self.chars.len() {
            return None;
        }
        let ghost s = self.chars@;
        let ghost begin = self.pos as int;
        self.lexeme = None;
        self.handling = Handling::NeedsMore;
        self.text = Vec::new();
        self.start = self.end;
        self.previous = '?';
        loop
            invariant
                s == self.chars@,
                s == old(self).chars@,
                old(self).pos == begin,
                !old(self).done,
                byte_len(s) <= usize::MAX,
                0 <= begin < s.len(),
                begin <= self.pos <= s.len(),
                self.end == cursor_at(s, self.pos as int),
                !self.done,
                self.handling == Handling::MayNeedMore || self.handling == Handling::NeedsMore,
                munch(s, self.pos as int, self.lexeme, self.previous, self.handling) == scan(
                    s,
                    begin,
                ),
                self.lexeme is None ==> self.pos == begin && self.handling == Handling::NeedsMore
                    && self.previous == '?' && self.start == cursor_at(s, begin),
                self.lexeme is Some ==> self.pos > begin && self.start == start_cursor(s, begin),
                self.text@ == s.subrange(begin, self.pos as int),
                self.lexeme != Some(Lexeme::Bad),
                match self.lexeme {
                    Some(Lexeme::Name(d)) => d < self.pos,
                    _ => true,
                },
            decreases s.len() - self.pos,
        {
            if self.pos >= self.chars.len() {
                // the input ends inside the token
                let lexeme = match (self.handling, self.lexeme) {
                    (Handling::MayNeedMore, Some(Lexeme::InlineC(false))) => Lexeme::Name(0),
                    (Handling::MayNeedMore, Some(l)) => l,
                    _ => self.error("incomplete VCL"),
                };
                self.done = lexeme == Lexeme::Bad;
                let t = self.to_token(lexeme);
                proof {
                    lemma_scan_end(s, begin);
                    assert(s.subrange(begin, self.pos as int) == s.subrange(begin, s.len() as int));
                    assert(t@ == token_at(s, begin));
                    if t@.lexeme == Lexeme::Bad {
                        assert(seq![t@] + Seq::<TokenView>::empty() == seq![t@]);
                    }
                    assert(lex_from(s, begin) == seq![t@] + self.remaining());
                    assert(old(self).remaining() == lex_from(s, begin));
                }
                return Some(t);
            }
            let c = self.chars[self.pos];
            proof {
                lemma_consume_fits(s, self.pos as int);
            }
            let ghost p = self.pos as int;
            let ghost old_lexeme = self.lexeme;
            let ghost old_previous = self.previous;
            let ghost old_handling = self.handling;
            let (lexeme, handling) = self.next_state(c);
            proof {
                let m = classify(old_lexeme, old_previous, s[p]).2;
                assert(munch(s, p, old_lexeme, old_previous, old_handling) == match handling {
                    Handling::MayNeedMore => munch(s, p + 1, Some(lexeme), s[p], handling),
                    Handling::NeedsMore => munch(s, p + 1, Some(lexeme), s[p], handling),
                    Handling::PreviousReady => (lexeme, p, Seq::empty()),
                    Handling::CurrentReady => (lexeme, p + 1, Seq::empty()),
                    Handling::Done => (Lexeme::Bad, p + 1, m),
                });
                assert(handling != Handling::Done ==> lexeme != Lexeme::Bad);
            }
            match handling {
                Handling::PreviousReady => {},
                Handling::Done => {
                    self.end.consume(c);
                    self.pos += 1;
                },
                _ => {
                    self.consume(c);
                },
            }
            if self.lexeme.is_none() {
                self.start.move_to(&self.end);
            }
            self.lexeme = Some(lexeme);
            self.previous = c;
            self.handling = handling;
            proof {
                if handling != Handling::PreviousReady {
                    assert(s.subrange(begin, p + 1) == s.subrange(begin, p).push(s[p]));
                    lemma_cursor_step(s, p);
                    assert(self.end == cursor_at(s, p + 1));
                }
            }
            match handling {
                Handling::CurrentReady | Handling::PreviousReady | Handling::Done => {
                    self.done = handling == Handling::Done;
                    let t = self.to_token(lexeme);
                    proof {
                        lemma_scan_end(s, begin);
                        let e = scan(s, begin).1;
                        assert(t@.lexeme == token_at(s, begin).lexeme);
                        assert(t@.start == token_at(s, begin).start);
                        assert(self.pos == e);
                        assert(t@.end == token_at(s, begin).end);
                        assert(t@.text == token_at(s, begin).text);
                        assert(t@ == token_at(s, begin));
                        if t@.lexeme == Lexeme::Bad {
                            assert(seq![t@] + Seq::<TokenView>::empty() == seq![t@]);
                        }
                        assert(lex_from(s, begin) == seq![t@] + self.remaining());
                    assert(old(self).remaining() == lex_from(s, begin));
                    }
                    return Some(t);
                },
                _ => {},
            }
        }
    }
}

/// The tokens of `src`, in order; an error is the last one. Where none is an
/// error, their texts put together give back `src`.
pub fn tokenize(src: &str) -> (r: Vec<Token>)
    ensures
        views(r@) == lexed(src@),
        (forall|k: int| 0 <= k < r@.len() ==> #[trigger] r@[k].lexeme != Lexeme::Bad) ==> joined(
            views(r@),
        ) == src@,
{

    let mut tokenizer = Tokenizer::new(src);
    let mut r: Vec<Token> = Vec::new();
    loop
        invariant
            tokenizer.wf(),
            views(r@) + tokenizer.remaining() == lexed(src@),
        decreases tokenizer.remaining().len(),
    {
        match tokenizer.next() {
            Some(t) => {
                let ghost before = views(r@);
                r.push(t);
                proof {
                    assert(views(r@) == before.push(t@));
                }
            },
            None => {
                proof {
                    assert(views(r@) == lexed(src@));
                    if forall|k: int| 0 <= k < r@.len() ==> #[trigger] r@[k].lexeme != Lexeme::Bad {
                        assert forall|k: int| 0 <= k < lexed(src@).len() implies lexed(
                            src@,
                        )[k].lexeme != Lexeme::Bad by {
                            assert(views(r@)[k] == r@[k]@);
                        }
                        lemma_lossless(src@);
                    }
                }
                return r;
            },
        }
    }
}

/// There are no more tokens than characters.
pub proof fn lemma_lexed_len(s: Seq<char>, i: int)
    requires
        0 <= i <= s.len(),
    ensures
        lex_from(s, i).len() <= s.len() - i,
    decreases s.len() - i,
{
    if i < s.len() {
        lemma_scan_end(s, i);
        if token_at(s, i).lexeme != Lexeme::Bad {
            lemma_lexed_len(s, scan(s, i).1);
        }
    }
}

proof fn lemma_error_last_from(s: Seq<char>, i: int)
    requires
        0 <= i <= s.len(),
    ensures
        forall|k: int|
            0 <= k < lex_from(s, i).len() - 1 ==> #[trigger] lex_from(s, i)[k].lexeme
                != Lexeme::Bad,
    decreases s.len() - i,
{
    if i < s.len() && token_at(s, i).lexeme != Lexeme::Bad {
        lemma_scan_end(s, i);
        let e = scan(s, i).1;
        lemma_error_last_from(s, e);
        let rest = lex_from(s, e);
        assert(lex_from(s, i) == seq![token_at(s, i)] + rest);
        assert forall|k: int| 0 <= k < lex_from(s, i).len() - 1 implies #[trigger] lex_from(
            s,
            i,
        )[k].lexeme != Lexeme::Bad by {
            if k > 0 {
                assert(lex_from(s, i)[k] == rest[k - 1]);
            }
        }
    }
}

/// An error ends the tokens: none comes after it.
pub proof fn lemma_error_is_last(s: Seq<char>)
    ensures
        forall|k: int| 0 <= k < lexed(s).len() - 1 ==> #[trigger] lexed(s)[k].lexeme != Lexeme::Bad,
{
    lemma_error_last_from(s, 0);
}

} // verus!
