//! Declarative objects: `<vmod.object> <name> { .field = value; .method(args); }`
//! becomes the construction of the object in `vcl_init` and a statement for
//! each method call.
use vstd::prelude::*;

use crate::flow::{depths_fit, flow_finish, flow_init, flow_step, incomplete_of, blame, Flow, FlowState};
use crate::text::append_text;
use crate::tok::{emit, emit_raw, synthetic, views, Lexeme, Source, Token, TokenView};

verus! {

/// What the desugaring expects next.
#[derive(Clone, Copy, PartialEq, Eq, Debug, Structural)]
pub enum Expected {
    /// Ordinary code, passed through.
    Code,
    /// The name of the object.
    Ident,
    /// The `{` that opens the declaration.
    Block,
    /// A `.` before a member, or the closing `}`.
    Dot,
    /// The name of a field or a method.
    Member,
    /// `=` for a field, `(` for a method.
    FieldOrMethod,
    /// The first token of a field's value.
    Value,
    /// The rest of a field's value, up to `;`.
    EndOfField,
    /// The arguments of a method, up to `)`.
    Arguments,
    /// The `;` after a method call.
    SemiColon,
}

/// The value of the desugaring pass.
pub struct DeclState {
    pub flow: FlowState,
    pub expect: Expected,
    pub broken: bool,
    /// The name of the object being declared.
    pub ident: Seq<char>,
    /// The constructor, `vmod.object`.
    pub object: Seq<char>,
    /// The member being read.
    pub symbol: Seq<char>,
    /// Whether a field was read.
    pub field: bool,
    /// Whether a method was read.
    pub method: bool,
}

pub open spec fn decl_init() -> DeclState {
    DeclState {
        flow: flow_init(),
        expect: Expected::Code,
        broken: false,
        ident: Seq::empty(),
        object: Seq::empty(),
        symbol: Seq::empty(),
        field: false,
        method: false,
    }
}

pub open spec fn lit(l: Lexeme, s: Seq<char>) -> TokenView {
    synthetic(l, Source::Literal, s)
}

pub open spec fn comp(l: Lexeme, s: Seq<char>) -> TokenView {
    synthetic(l, Source::Computed, s)
}

pub open spec fn is_comment(l: Lexeme) -> bool {
    l == Lexeme::Comment || l == Lexeme::CComment || l == Lexeme::CxxComment
}

/// `sub vcl_init {`, then `new <ident> = <object>(`.
pub open spec fn header(ident: Seq<char>, object: Seq<char>) -> Seq<TokenView> {
    seq![
        lit(Lexeme::Name(0), "sub"@),
        lit(Lexeme::Blank, " "@),
        lit(Lexeme::Name(0), "vcl_init"@),
        lit(Lexeme::Blank, " "@),
        lit(Lexeme::OpeningBlock, "{"@),
        lit(Lexeme::Blank, "\n\t"@),
        lit(Lexeme::Name(0), "new"@),
        lit(Lexeme::Blank, " "@),
        comp(Lexeme::Name(0), ident),
        lit(Lexeme::Blank, " "@),
        lit(Lexeme::Delim('='), "="@),
        lit(Lexeme::Blank, " "@),
        comp(Lexeme::Name(1), object),
        lit(Lexeme::OpeningGroup, "("@),
    ]
}

/// `)` and `;`, which end a call.
pub open spec fn close_call() -> Seq<TokenView> {
    seq![lit(Lexeme::ClosingGroup, ")"@), lit(Lexeme::Delim(';'), ";"@)]
}

/// The start of a field: `, ` between fields, then `<field>=`.
pub open spec fn field_start(first: bool, field: Seq<char>) -> Seq<TokenView> {
    let sep = if first {
        Seq::empty()
    } else {
        seq![lit(Lexeme::Delim(','), ","@), lit(Lexeme::Blank, " "@)]
    };
    sep + seq![comp(Lexeme::Name(0), field), lit(Lexeme::Delim('='), "="@)]
}

/// The start of a method call: the constructor is closed before the first,
/// then `<ident>.<method>(` on a line of its own.
pub open spec fn method_start(first: bool, ident: Seq<char>, method: Seq<char>) -> Seq<
    TokenView,
> {
    let close = if first {
        close_call()
    } else {
        Seq::empty()
    };
    close + seq![
        lit(Lexeme::Blank, "\n\t"@),
        comp(Lexeme::Name(1), ident + seq!['.'] + method),
        lit(Lexeme::OpeningGroup, "("@),
    ]
}

/// The message for a token that the state does not admit.
pub open spec fn expect_message(e: Expected) -> Seq<char> {
    match e {
        Expected::Ident => "expected identifier"@,
        Expected::Block => "expected '{'"@,
        Expected::Dot => "expected '.' or '}'"@,
        Expected::Member => "expected field or method"@,
        Expected::FieldOrMethod => "expected '=' or '('"@,
        Expected::Value => "expected value"@,
        _ => "expected ';'"@,
    }
}

/// The states whose errors have a message of their own.
pub open spec fn has_message(e: Expected) -> bool {
    e != Expected::Code && e != Expected::EndOfField && e != Expected::Arguments
}

/// An error in place of `u`; nothing follows.
pub open spec fn decl_fail(s: DeclState, u: TokenView, msg: Seq<char>) -> (DeclState, Seq<
    TokenView,
>) {
    (DeclState { broken: true, ..s }, seq![blame(s.flow, u, msg)])
}

/// What the pass does with a token `u`, not an error, that the tracker
/// handed on; `s.flow` has counted it.
pub open spec fn decl_on(s: DeclState, u: TokenView) -> (DeclState, Seq<TokenView>) {
    let l = u.lexeme;
    let top = s.flow.groups == 0;
    let none = Seq::<TokenView>::empty();
    if s.expect == Expected::Code {
        if s.flow.blocks == 0 && l == Lexeme::Name(1) {
            (DeclState { object: u.text, expect: Expected::Ident, ..s }, none)
        } else if s.flow.blocks == 0 && l is Name && l != Lexeme::Name(0) {
            decl_fail(s, u, "invalid identifier"@)
        } else {
            (s, seq![u])
        }
    } else if is_comment(l) {
        (s, none)
    } else {
        match s.expect {
            Expected::Ident => if l == Lexeme::Name(0) {
                (
                    DeclState { ident: u.text, expect: Expected::Block, ..s },
                    header(u.text, s.object),
                )
            } else if l == Lexeme::Blank {
                (s, none)
            } else {
                decl_fail(s, u, expect_message(s.expect))
            },
            Expected::Block => if l == Lexeme::OpeningBlock {
                (DeclState { expect: Expected::Dot, ..s }, none)
            } else if l == Lexeme::Blank {
                (s, none)
            } else {
                decl_fail(s, u, expect_message(s.expect))
            },
            Expected::Dot => if l == Lexeme::ClosingBlock {
                (
                    DeclState { expect: Expected::Code, field: false, method: false, ..s },
                    (if s.method {
                        none
                    } else {
                        close_call()
                    }) + seq![lit(Lexeme::Blank, "\n"@), u],
                )
            } else if l == Lexeme::Prop {
                (DeclState { expect: Expected::Member, ..s }, none)
            } else if l == Lexeme::Blank {
                (s, none)
            } else {
                decl_fail(s, u, expect_message(s.expect))
            },
            Expected::Member => if l == Lexeme::Name(0) {
                (DeclState { symbol: u.text, expect: Expected::FieldOrMethod, ..s }, none)
            } else if l == Lexeme::Blank {
                (s, none)
            } else {
                decl_fail(s, u, expect_message(s.expect))
            },
            Expected::FieldOrMethod => if l == Lexeme::Delim('=') {
                if s.method {
                    decl_fail(s, u, "field after methods"@)
                } else {
                    (
                        DeclState { field: true, expect: Expected::Value, ..s },
                        field_start(!s.field, s.symbol),
                    )
                }
            } else if l == Lexeme::OpeningGroup {
                (
                    DeclState { method: true, expect: Expected::Arguments, ..s },
                    method_start(!s.method, s.ident, s.symbol),
                )
            } else if l == Lexeme::Blank {
                (s, none)
            } else {
                decl_fail(s, u, expect_message(s.expect))
            },
            Expected::Value => if l == Lexeme::Delim(';') && top {
                decl_fail(s, u, expect_message(s.expect))
            } else if l == Lexeme::Blank {
                (s, none)
            } else {
                (DeclState { expect: Expected::EndOfField, ..s }, seq![u])
            },
            Expected::EndOfField => if l == Lexeme::Delim(';') && top {
                (DeclState { expect: Expected::Dot, ..s }, none)
            } else {
                (s, seq![u])
            },
            Expected::Arguments => if l == Lexeme::ClosingGroup && top {
                (DeclState { expect: Expected::SemiColon, ..s }, close_call())
            } else {
                (s, seq![u])
            },
            _ => if l == Lexeme::Delim(';') && top {
                (DeclState { expect: Expected::Dot, ..s }, none)
            } else if l == Lexeme::Blank {
                (s, none)
            } else {
                decl_fail(s, u, expect_message(s.expect))
            },
        }
    }
}

/// One token through the pass: the new state and the tokens handed on.
pub open spec fn decl_step(s: DeclState, t: TokenView) -> (DeclState, Seq<TokenView>) {
    if s.broken {
        (s, Seq::empty())
    } else {
        let (f, o) = flow_step(s.flow, t);
        let s1 = DeclState { flow: f, ..s };
        match o {
            None => (s1, Seq::empty()),
            Some(u) => if u.lexeme == Lexeme::Bad {
                (DeclState { broken: true, ..s1 }, seq![u])
            } else {
                decl_on(s1, u)
            },
        }
    }
}

/// The end of input: the tracker's error, or an error where a declaration
/// is left unfinished.
pub open spec fn decl_finish(s: DeclState) -> Seq<TokenView> {
    if s.broken {
        Seq::empty()
    } else {
        match flow_finish(s.flow) {
            Some(u) => seq![u],
            None => if s.expect != Expected::Code {
                seq![incomplete_of(s.flow)]
            } else {
                Seq::empty()
            },
        }
    }
}

/// The tokens the pass hands on for `input`, end of input included.
pub open spec fn decl_run(s: DeclState, input: Seq<TokenView>) -> Seq<TokenView>
    decreases input.len(),
{
    if input.len() == 0 {
        decl_finish(s)
    } else {
        let (s2, out) = decl_step(s, input[0]);
        out + decl_run(s2, input.drop_first())
    }
}

/// The desugaring pass.
pub struct DeclarativeObject {
    flow: Flow,
    expect: Expected,
    broken: bool,
    ident: Vec<char>,
    object: Vec<char>,
    symbol: Vec<char>,
    field: bool,
    method: bool,
}

impl DeclarativeObject {
    pub closed spec fn state(&self) -> DeclState {
        DeclState {
            flow: self.flow.state(),
            expect: self.expect,
            broken: self.broken,
            ident: self.ident@,
            object: self.object@,
            symbol: self.symbol@,
            field: self.field,
            method: self.method,
        }
    }

    /// Whether one more token keeps the depths within the machine's integers.
    pub open spec fn has_room(&self) -> bool {
        depths_fit(self.state().flow)
    }

    pub fn new() -> (r: DeclarativeObject)
        ensures
            r.state() == decl_init(),
            r.has_room(),
    {
        DeclarativeObject {
            flow: Flow::new(),
            expect: Expected::Code,
            broken: false,
            ident: Vec::new(),
            object: Vec::new(),
            symbol: Vec::new(),
            field: false,
            method: false,
        }
    }

    /// Back to ordinary code once a declaration is complete.
    fn reset(&mut self)
        ensures
            final(self).state() == (DeclState {
                expect: Expected::Code,
                field: false,
                method: false,
                ..old(self).state()
            }),
            final(self).flow == old(self).flow,
    {
        self.expect = Expected::Code;
        self.field = false;
        self.method = false;
    }

    /// Hands on an error in place of `u`; nothing follows it.
    fn fail(&mut self, u: &Token, msg: &'static str, out: &mut Vec<Token>)
        ensures
            final(self).state() == decl_fail(old(self).state(), u@, msg@).0,
            views(final(out)@) == views(old(out)@) + decl_fail(old(self).state(), u@, msg@).1,
            final(self).flow == old(self).flow,
    {
        self.broken = true;
        emit(out, self.flow.blame(u, msg));
    }

    /// The error for a token that the current state does not admit.
    fn error(&mut self, u: &Token, out: &mut Vec<Token>)
        requires
            has_message(old(self).expect),
        ensures
            final(self).state() == decl_fail(
                old(self).state(),
                u@,
                expect_message(old(self).expect),
            ).0,
            views(final(out)@) == views(old(out)@) + decl_fail(
                old(self).state(),
                u@,
                expect_message(old(self).expect),
            ).1,
            final(self).flow == old(self).flow,
    {
        let msg = match self.expect {
            Expected::Ident => "expected identifier",
            Expected::Block => "expected '{'",
            Expected::Dot => "expected '.' or '}'",
            Expected::Member => "expected field or method",
            Expected::FieldOrMethod => "expected '=' or '('",
            Expected::Value => "expected value",
            _ => "expected ';'",
        };
        self.fail(u, msg, out);
    }

    /// `)` and `;`.
    fn close_call(out: &mut Vec<Token>)
        ensures
            views(final(out)@) == views(old(out)@) + close_call(),
    {
        let ghost before = views(out@);
        emit_raw(out, Lexeme::ClosingGroup, ")");
        emit_raw(out, Lexeme::Delim(';'), ";");
        proof {
            assert(views(out@) =~= before + close_call());
        }
    }

    /// The opening of `vcl_init` and of the constructor call.
    fn header(&self, u: &Token, out: &mut Vec<Token>)
        ensures
            views(final(out)@) == views(old(out)@) + header(u.text@, self.object@),
    {
        let ghost before = views(out@);
        emit_raw(out, Lexeme::Name(0), "sub");
        emit_raw(out, Lexeme::Blank, " ");
        emit_raw(out, Lexeme::Name(0), "vcl_init");
        emit_raw(out, Lexeme::Blank, " ");
        emit_raw(out, Lexeme::OpeningBlock, "{");
        emit_raw(out, Lexeme::Blank, "\n\t");
        emit_raw(out, Lexeme::Name(0), "new");
        emit_raw(out, Lexeme::Blank, " ");
        emit(out, Token::dynamic(Lexeme::Name(0), u.text.clone()));
        emit_raw(out, Lexeme::Blank, " ");
        emit_raw(out, Lexeme::Delim('='), "=");
        emit_raw(out, Lexeme::Blank, " ");
        emit(out, Token::dynamic(Lexeme::Name(1), self.object.clone()));
        emit_raw(out, Lexeme::OpeningGroup, "(");
        proof {
            assert(views(out@) =~= before + header(u.text@, self.object@));
        }
    }

    /// `<field>=`, after `, ` unless it is the first field.
    fn field_start(&self, out: &mut Vec<Token>)
        ensures
            views(final(out)@) == views(old(out)@) + field_start(!self.field, self.symbol@),
    {
        let ghost before = views(out@);
        if self.field {
            emit_raw(out, Lexeme::Delim(','), ",");
            emit_raw(out, Lexeme::Blank, " ");
        }
        emit(out, Token::dynamic(Lexeme::Name(0), self.symbol.clone()));
        emit_raw(out, Lexeme::Delim('='), "=");
        proof {
            assert(views(out@) =~= before + field_start(!self.field, self.symbol@));
        }
    }

    /// `<ident>.<method>(`, after closing the constructor before the first.
    fn method_start(&self, out: &mut Vec<Token>)
        ensures
            views(final(out)@) == views(old(out)@) + method_start(
                !self.method,
                self.ident@,
                self.symbol@,
            ),
    {
        let ghost before = views(out@);
        if !self.method {
            Self::close_call(out);
        }
        let ghost mid = views(out@);
        emit_raw(out, Lexeme::Blank, "\n\t");
        let mut sym = self.ident.clone();
        sym.push('.');
        append_text(&mut sym, self.symbol.as_slice());
        assert(sym@ == self.ident@ + seq!['.'] + self.symbol@);
        emit(out, Token::dynamic(Lexeme::Name(1), sym));
        emit_raw(out, Lexeme::OpeningGroup, "(");
        proof {
            if self.method {
                assert(mid == before);
                assert(before + Seq::<TokenView>::empty() == before);
            }
            assert(views(out@) =~= before + method_start(!self.method, self.ident@, self.symbol@));
        }
    }

    /// What to do with `u`, which the tracker handed on and is not an error.
    fn process(&mut self, u: Token, out: &mut Vec<Token>)
        requires
            u.lexeme != Lexeme::Bad,
        ensures
            final(self).state() == decl_on(old(self).state(), u@).0,
            views(final(out)@) == views(old(out)@) + decl_on(old(self).state(), u@).1,
            final(self).flow == old(self).flow,
    {
        let l = u.lexeme;
        let top = self.flow.groups == 0;
        if self.expect == Expected::Code {
            if self.flow.blocks == 0 && l == Lexeme::Name(1) {
                self.object = u.text;
                self.expect = Expected::Ident;
            } else if self.flow.blocks == 0 && l != Lexeme::Name(0) && matches!(l, Lexeme::Name(_)) {
                self.fail(&u, "invalid identifier", out);
            } else {
                emit(out, u);
            }
            return;
        }
        if l == Lexeme::Comment || l == Lexeme::CComment || l == Lexeme::CxxComment {
            return;
        }
        match self.expect {
            Expected::Ident => {
                if l == Lexeme::Name(0) {
                    self.header(&u, out);
                    self.ident = u.text;
                    self.expect = Expected::Block;
                } else if l == Lexeme::Blank {
                } else {
                    self.error(&u, out);
                }
            },
            Expected::Block => {
                if l == Lexeme::OpeningBlock {
                    self.expect = Expected::Dot;
                } else if l == Lexeme::Blank {
                } else {
                    self.error(&u, out);
                }
            },
            Expected::Dot => {
                if l == Lexeme::ClosingBlock {
                    let ghost before = views(out@);
                    if !self.method {
                        Self::close_call(out);
                    }
                    emit_raw(out, Lexeme::Blank, "\n");
                    let ghost u_view = u@;
                    emit(out, u);
                    proof {
                        assert(views(out@) =~= before + decl_on(old(self).state(), u_view).1);
                    }
                    self.reset();
                } else if l == Lexeme::Prop {
                    self.expect = Expected::Member;
                } else if l == Lexeme::Blank {
                } else {
                    self.error(&u, out);
                }
            },
            Expected::Member => {
                if l == Lexeme::Name(0) {
                    self.symbol = u.text;
                    self.expect = Expected::FieldOrMethod;
                } else if l == Lexeme::Blank {
                } else {
                    self.error(&u, out);
                }
            },
            Expected::FieldOrMethod => {
                if l == Lexeme::Delim('=') {
                    if self.method {
                        self.fail(&u, "field after methods", out);
                    } else {
                        self.field_start(out);
                        self.field = true;
                        self.expect = Expected::Value;
                    }
                } else if l == Lexeme::OpeningGroup {
                    self.method_start(out);
                    self.method = true;
                    self.expect = Expected::Arguments;
                } else if l == Lexeme::Blank {
                } else {
                    self.error(&u, out);
                }
            },
            Expected::Value => {
                if l == Lexeme::Delim(';') && top {
                    self.error(&u, out);
                } else if l == Lexeme::Blank {
                } else {
                    emit(out, u);
                    self.expect = Expected::EndOfField;
                }
            },
            Expected::EndOfField => {
                if l == Lexeme::Delim(';') && top {
                    self.expect = Expected::Dot;
                } else {
                    emit(out, u);
                }
            },
            Expected::Arguments => {
                if l == Lexeme::ClosingGroup && top {
                    Self::close_call(out);
                    self.expect = Expected::SemiColon;
                } else {
                    emit(out, u);
                }
            },
            _ => {
                if l == Lexeme::Delim(';') && top {
                    self.expect = Expected::Dot;
                } else if l == Lexeme::Blank {
                } else {
                    self.error(&u, out);
                }
            },
        }
    }

    /// Takes in one token; gives the tokens to hand on.
    pub fn feed(&mut self, t: Token) -> (out: Vec<Token>)
        requires
            old(self).has_room(),
        ensures
            (final(self).state(), views(out@)) == decl_step(old(self).state(), t@),
    {
        let mut out: Vec<Token> = Vec::new();
        if self.broken {
            return out;
        }
        match self.flow.push(t) {
            None => {},
            Some(u) => {
                if u.lexeme == Lexeme::Bad {
                    self.broken = true;
                    emit(&mut out, u);
                } else {
                    self.process(u, &mut out);
                }
            },
        }
        proof {
            assert(views(Seq::<Token>::empty()) =~= Seq::<TokenView>::empty());
            assert(views(out@) =~= Seq::<TokenView>::empty() + views(out@));
        }
        out
    }

    /// The end of input; gives the tokens to hand on.
    pub fn finish(&mut self) -> (out: Vec<Token>)
        ensures
            views(out@) == decl_finish(old(self).state()),
            final(self).state().broken == (old(self).state().broken || out@.len() > 0),
    {
        let mut out: Vec<Token> = Vec::new();
        proof {
            assert(views(out@) =~= Seq::<TokenView>::empty());
        }
        if self.broken {
            return out;
        }
        match self.flow.finish() {
            Some(u) => {
                self.broken = true;
                emit(&mut out, u);
            },
            None => {
                if self.expect != Expected::Code {
                    self.broken = true;
                    emit(&mut out, self.flow.incomplete());
                }
            },
        }
        proof {
            assert(views(out@) =~= Seq::<TokenView>::empty() + views(out@));
        }
        out
    }
}

/// Rewrites the declarative objects of `input`.
pub fn desugar(input: &Vec<Token>) -> (r: Vec<Token>)
    requires
        input@.len() <= isize::MAX,
    ensures
        views(r@) == decl_run(decl_init(), views(input@)),
{
    let ghost whole = views(input@);
    let mut pass = DeclarativeObject::new();
    let mut r: Vec<Token> = Vec::new();
    let mut i: usize = 0;
    proof {
        assert(whole.skip(0) == whole);
        assert(views(r@) =~= Seq::<TokenView>::empty());
        assert(Seq::<TokenView>::empty() + decl_run(decl_init(), whole) == decl_run(
            decl_init(),
            whole,
        ));
    }
    while i < input.len()
        invariant
            whole == views(input@),
            i <= input@.len() <= isize::MAX,
            -(i as int) <= pass.flow.groups <= i,
            -(i as int) <= pass.flow.blocks <= i,
            views(r@) + decl_run(pass.state(), whole.skip(i as int)) == decl_run(
                decl_init(),
                whole,
            ),
        decreases input.len() - i,
    {
        let t = input[i].copy();
        let ghost before = views(r@);
        let ghost s = pass.state();
        proof {
            assert(whole.skip(i as int)[0] == t@);
            assert(whole.skip(i as int).drop_first() == whole.skip(i + 1));
        }
        let mut out = pass.feed(t);
        r.append(&mut out);
        i += 1;
        proof {
            assert(views(r@) =~= before + decl_step(s, whole[i - 1]).1);
            assert(views(r@) + decl_run(pass.state(), whole.skip(i as int)) == before + decl_run(
                s,
                whole.skip(i - 1),
            ));
        }
    }
    let ghost end_state = pass.state();
    let mut out = pass.finish();
    let ghost before = views(r@);
    r.append(&mut out);
    proof {
        assert(whole.skip(i as int).len() == 0);
        assert(views(r@) =~= before + decl_finish(end_state));
    }
    r
}

/// The pass hands on at most fourteen tokens for each it takes in, and one
/// at the end.
pub proof fn lemma_decl_len(s: DeclState, input: Seq<TokenView>)
    ensures
        decl_run(s, input).len() <= 14 * input.len() + 1,
    decreases input.len(),
{
    if input.len() > 0 {
        let (s2, out) = decl_step(s, input[0]);
        assert(out.len() <= 14);
        lemma_decl_len(s2, input.drop_first());
    }
}

} // verus!
