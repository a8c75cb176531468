//! Header arrays: `req.http[X-Foo]` is `req.http.X-Foo`.
use vstd::prelude::*;

use crate::flow::{flow_after, lemma_flow_identity, depths_fit, flow_finish, flow_init, flow_run, flow_step, incomplete_of, blame, Flow, FlowState};
use crate::text::{append_text, text_is};
use crate::tok::{emit, synthetic, views, Lexeme, Source, Token, TokenView};

verus! {

/// What the pass expects next.
#[derive(Clone, Copy, PartialEq, Eq, Debug, Structural)]
pub enum Expected {
    /// Ordinary code.
    Code,
    /// The `[` after a header collection.
    Open,
    /// The name of the header.
    Header,
    /// The closing `]`.
    Close,
}

/// The value of the header-array pass.
pub struct ArrayState {
    pub flow: FlowState,
    pub expect: Expected,
    pub broken: bool,
    /// The header collection, such as `req.http`.
    pub var: Seq<char>,
    /// The header's name.
    pub header: Seq<char>,
}

pub open spec fn array_init() -> ArrayState {
    ArrayState {
        flow: flow_init(),
        expect: Expected::Code,
        broken: false,
        var: Seq::empty(),
        header: Seq::empty(),
    }
}

/// The header collections of the language.
pub open spec fn is_collection(s: Seq<char>) -> bool {
    s == "obj.http"@ || s == "req.http"@ || s == "resp.http"@ || s == "bereq.http"@ || s
        == "beresp.http"@
}

/// Whether `t` opens a header array.
pub open spec fn array_trigger(t: TokenView) -> bool {
    t.lexeme == Lexeme::Name(1) && is_collection(t.text)
}

pub open spec fn array_fail(s: ArrayState, u: TokenView, msg: Seq<char>) -> (ArrayState, Seq<
    TokenView,
>) {
    (ArrayState { broken: true, ..s }, seq![blame(s.flow, u, msg)])
}

/// What the pass does with `u`, not an error, that the tracker handed on.
pub open spec fn array_on(s: ArrayState, u: TokenView) -> (ArrayState, Seq<TokenView>) {
    let none = Seq::<TokenView>::empty();
    match s.expect {
        Expected::Code => if array_trigger(u) {
            (ArrayState { expect: Expected::Open, var: u.text, ..s }, none)
        } else {
            (s, seq![u])
        },
        Expected::Open => if u.lexeme == Lexeme::OpeningArray {
            (ArrayState { expect: Expected::Header, ..s }, none)
        } else {
            array_fail(s, u, "expected '[' or '.'"@)
        },
        Expected::Header => if u.lexeme == Lexeme::Name(0) {
            (ArrayState { expect: Expected::Close, header: u.text, ..s }, none)
        } else {
            array_fail(s, u, "expected header name"@)
        },
        Expected::Close => if u.lexeme == Lexeme::ClosingArray {
            (
                ArrayState { expect: Expected::Code, ..s },
                seq![
                    synthetic(Lexeme::Name(2), Source::Computed, s.var + seq!['.'] + s.header),
                ],
            )
        } else {
            array_fail(s, u, "expected ']'"@)
        },
    }
}

pub open spec fn array_step(s: ArrayState, t: TokenView) -> (ArrayState, Seq<TokenView>) {
    if s.broken {
        (s, Seq::empty())
    } else {
        let (f, o) = flow_step(s.flow, t);
        let s1 = ArrayState { flow: f, ..s };
        match o {
            None => (s1, Seq::empty()),
            Some(u) => if u.lexeme == Lexeme::Bad {
                (ArrayState { broken: true, ..s1 }, seq![u])
            } else {
                array_on(s1, u)
            },
        }
    }
}

pub open spec fn array_finish(s: ArrayState) -> Seq<TokenView> {
    if s.broken {
        Seq::empty()
    } else {
        match flow_finish(s.flow) {
            Some(u) => seq![u],
            None => if s.expect != Expected::Code {
                seq![incomplete_of(s.flow)]
            } else {
                Seq::empty()
            },
        }
    }
}

/// The tokens the pass hands on for `input`, end of input included.
pub open spec fn array_run(s: ArrayState, input: Seq<TokenView>) -> Seq<TokenView>
    decreases input.len(),
{
    if input.len() == 0 {
        array_finish(s)
    } else {
        let (s2, out) = array_step(s, input[0]);
        out + array_run(s2, input.drop_first())
    }
}

/// The header-array pass.
pub struct HeaderArray {
    flow: Flow,
    expect: Expected,
    broken: bool,
    var: Vec<char>,
    header: Vec<char>,
}

impl HeaderArray {
    pub closed spec fn state(&self) -> ArrayState {
        ArrayState {
            flow: self.flow.state(),
            expect: self.expect,
            broken: self.broken,
            var: self.var@,
            header: self.header@,
        }
    }

    /// Whether one more token keeps the depths within the machine's integers.
    pub open spec fn has_room(&self) -> bool {
        depths_fit(self.state().flow)
    }

    pub fn new() -> (r: HeaderArray)
        ensures
            r.state() == array_init(),
            r.has_room(),
    {
        HeaderArray {
            flow: Flow::new(),
            expect: Expected::Code,
            broken: false,
            var: Vec::new(),
            header: Vec::new(),
        }
    }

    fn fail(&mut self, u: &Token, msg: &'static str, out: &mut Vec<Token>)
        ensures
            final(self).state() == array_fail(old(self).state(), u@, msg@).0,
            views(final(out)@) == views(old(out)@) + array_fail(old(self).state(), u@, msg@).1,
            final(self).flow == old(self).flow,
    {
        self.broken = true;
        emit(out, self.flow.blame(u, msg));
    }

    /// What to do with `u`, which the tracker handed on and is not an error.
    fn process(&mut self, u: Token, out: &mut Vec<Token>)
        ensures
            final(self).state() == array_on(old(self).state(), u@).0,
            views(final(out)@) == views(old(out)@) + array_on(old(self).state(), u@).1,
            final(self).flow == old(self).flow,
    {
        match self.expect {
            Expected::Code => {
                if u.lexeme == Lexeme::Name(1) && (text_is(u.as_str(), "obj.http") || text_is(
                    u.as_str(),
                    "req.http",
                ) || text_is(u.as_str(), "resp.http") || text_is(u.as_str(), "bereq.http")
                    || text_is(u.as_str(), "beresp.http")) {
                    self.var = u.text;
                    self.expect = Expected::Open;
                    proof {
                        assert(views(out@) == views(out@) + Seq::<TokenView>::empty());
                    }
                } else {
                    emit(out, u);
                }
            },
            Expected::Open => {
                if u.lexeme == Lexeme::OpeningArray {
                    self.expect = Expected::Header;
                    proof {
                        assert(views(out@) == views(out@) + Seq::<TokenView>::empty());
                    }
                } else {
                    self.fail(&u, "expected '[' or '.'", out);
                }
            },
            Expected::Header => {
                if u.lexeme == Lexeme::Name(0) {
                    self.header = u.text;
                    self.expect = Expected::Close;
                    proof {
                        assert(views(out@) == views(out@) + Seq::<TokenView>::empty());
                    }
                } else {
                    self.fail(&u, "expected header name", out);
                }
            },
            Expected::Close => {
                if u.lexeme == Lexeme::ClosingArray {
                    let mut name = self.var.clone();
                    name.push('.');
                    append_text(&mut name, self.header.as_slice());
                    assert(name@ == self.var@ + seq!['.'] + self.header@);
                    emit(out, Token::dynamic(Lexeme::Name(2), name));
                    self.expect = Expected::Code;
                } else {
                    self.fail(&u, "expected ']'", out);
                }
            },
        }
    }

    /// Takes in one token; gives the tokens to hand on.
    pub fn feed(&mut self, t: Token) -> (out: Vec<Token>)
        requires
            old(self).has_room(),
        ensures
            (final(self).state(), views(out@)) == array_step(old(self).state(), t@),
    {
        let mut out: Vec<Token> = Vec::new();
        proof {
            assert(views(out@) =~= Seq::<TokenView>::empty());
        }
        if self.broken {
            return out;
        }
        match self.flow.push(t) {
            None => {},
            Some(u) => {
                if u.lexeme == Lexeme::Bad {
                    self.broken = true;
                    emit(&mut out, u);
                } else {
                    self.process(u, &mut out);
                }
            },
        }
        proof {
            assert(views(out@) =~= Seq::<TokenView>::empty() + views(out@));
        }
        out
    }

    /// The end of input; gives the tokens to hand on.
    pub fn finish(&mut self) -> (out: Vec<Token>)
        ensures
            views(out@) == array_finish(old(self).state()),
            final(self).state().broken == (old(self).state().broken || out@.len() > 0),
    {
        let mut out: Vec<Token> = Vec::new();
        proof {
            assert(views(out@) =~= Seq::<TokenView>::empty());
        }
        if self.broken {
            return out;
        }
        match self.flow.finish() {
            Some(u) => {
                self.broken = true;
                emit(&mut out, u);
            },
            None => {
                if self.expect != Expected::Code {
                    self.broken = true;
                    emit(&mut out, self.flow.incomplete());
                }
            },
        }
        proof {
            assert(views(out@) =~= Seq::<TokenView>::empty() + views(out@));
        }
        out
    }
}

/// Flattens the header arrays of `input`.
pub fn flatten_arrays(input: &Vec<Token>) -> (r: Vec<Token>)
    requires
        input@.len() <= isize::MAX,
    ensures
        views(r@) == array_run(array_init(), views(input@)),
{
    let ghost whole = views(input@);
    let mut pass = HeaderArray::new();
    let mut r: Vec<Token> = Vec::new();
    let mut i: usize = 0;
    proof {
        assert(whole.skip(0) == whole);
        assert(views(r@) =~= Seq::<TokenView>::empty());
        assert(Seq::<TokenView>::empty() + array_run(array_init(), whole) == array_run(
            array_init(),
            whole,
        ));
    }
    while i < input.len()
        invariant
            whole == views(input@),
            i <= input@.len() <= isize::MAX,
            -(i as int) <= pass.flow.groups <= i,
            -(i as int) <= pass.flow.blocks <= i,
            views(r@) + array_run(pass.state(), whole.skip(i as int)) == array_run(
                array_init(),
                whole,
            ),
        decreases input.len() - i,
    {
        let t = input[i].copy();
        let ghost before = views(r@);
        let ghost s = pass.state();
        proof {
            assert(whole.skip(i as int)[0] == t@);
            assert(whole.skip(i as int).drop_first() == whole.skip(i + 1));
        }
        let mut out = pass.feed(t);
        r.append(&mut out);
        i += 1;
        proof {
            assert(views(r@) =~= before + array_step(s, whole[i - 1]).1);
            assert(views(r@) + array_run(pass.state(), whole.skip(i as int)) == before + array_run(
                s,
                whole.skip(i - 1),
            ));
        }
    }
    let ghost end_state = pass.state();
    let mut out = pass.finish();
    let ghost before = views(r@);
    r.append(&mut out);
    proof {
        assert(whole.skip(i as int).len() == 0);
        assert(views(r@) =~= before + array_finish(end_state));
    }
    r
}

proof fn lemma_array_passes(s: ArrayState, input: Seq<TokenView>)
    requires
        s.expect == Expected::Code,
        s.broken == s.flow.broken,
        forall|k: int| 0 <= k < input.len() ==> !array_trigger(#[trigger] input[k]),
    ensures
        array_run(s, input) == flow_run(s.flow, input),
    decreases input.len(),
{
    if input.len() > 0 {
        let (s2, out) = array_step(s, input[0]);
        assert forall|k: int| 0 <= k < input.drop_first().len() implies !array_trigger(
            #[trigger] input.drop_first()[k],
        ) by {
            assert(input.drop_first()[k] == input[k + 1]);
        }
        assert(!array_trigger(input[0]));
        lemma_array_passes(s2, input.drop_first());
    }
}

/// Pass-through: on an input without a header collection name such as
/// `req.http`, the pass does what the nesting tracker does, where the
/// tracker hands the input on unchanged, so does the pass, as on any
/// non-empty input that meets no error and leaves no group or block open.
pub proof fn lemma_array_identity(input: Seq<TokenView>)
    requires
        forall|k: int| 0 <= k < input.len() ==> !array_trigger(#[trigger] input[k]),
    ensures
        array_run(array_init(), input) == flow_run(flow_init(), input),
        flow_run(flow_init(), input) == input ==> array_run(array_init(), input) == input,
        input.len() > 0 && !flow_after(flow_init(), input).broken && flow_after(
            flow_init(),
            input,
        ).groups == 0 && flow_after(flow_init(), input).blocks == 0 ==> array_run(array_init(), input)
            == input,
{
    lemma_array_passes(array_init(), input);
    if input.len() > 0 && !flow_after(flow_init(), input).broken && flow_after(
        flow_init(),
        input,
    ).groups == 0 && flow_after(flow_init(), input).blocks == 0 {
        lemma_flow_identity(input);
    }
}

/// The pass hands on at most one token for each it takes in, and one at
/// the end.
pub proof fn lemma_array_len(s: ArrayState, input: Seq<TokenView>)
    ensures
        array_run(s, input).len() <= input.len() + 1,
    decreases input.len(),
{
    if input.len() > 0 {
        lemma_array_len(array_step(s, input[0]).0, input.drop_first());
    }
}

} // verus!
