//! `req.authority` and `bereq.authority` stand for the `Host` header.
use vstd::prelude::*;

use crate::flow::{flow_after, lemma_flow_identity, depths_fit, flow_finish, flow_init, flow_run, flow_step, opt_seq, Flow, FlowState};
use crate::text::text_is;
use crate::tok::{emit, synthetic, views, Lexeme, Source, Token, TokenView};

verus! {

/// The token that stands for `u`.
pub open spec fn authority_of(u: TokenView) -> TokenView {
    if u.lexeme == Lexeme::Name(1) && u.text == "req.authority"@ {
        synthetic(Lexeme::Name(1), Source::Literal, "req.http.host"@)
    } else if u.lexeme == Lexeme::Name(1) && u.text == "bereq.authority"@ {
        synthetic(Lexeme::Name(1), Source::Literal, "bereq.http.host"@)
    } else {
        u
    }
}

/// Whether `t` is one of the names this pass replaces.
pub open spec fn authority_trigger(t: TokenView) -> bool {
    t.lexeme == Lexeme::Name(1) && (t.text == "req.authority"@ || t.text == "bereq.authority"@)
}

pub open spec fn authority_step(f: FlowState, t: TokenView) -> (FlowState, Seq<TokenView>) {
    let (f2, o) = flow_step(f, t);
    (
        f2,
        match o {
            Some(u) => seq![authority_of(u)],
            None => Seq::empty(),
        },
    )
}

/// The tokens the pass hands on for `input`, end of input included.
pub open spec fn authority_run(f: FlowState, input: Seq<TokenView>) -> Seq<TokenView>
    decreases input.len(),
{
    if input.len() == 0 {
        opt_seq(flow_finish(f))
    } else {
        let (f2, out) = authority_step(f, input[0]);
        out + authority_run(f2, input.drop_first())
    }
}

/// The authority pass.
pub struct RequestAuthority(Flow);

impl RequestAuthority {
    pub closed spec fn state(&self) -> FlowState {
        self.0.state()
    }

    /// Whether one more token keeps the depths within the machine's integers.
    pub open spec fn has_room(&self) -> bool {
        depths_fit(self.state())
    }

    pub fn new() -> (r: RequestAuthority)
        ensures
            r.state() == flow_init(),
            r.has_room(),
    {
        RequestAuthority(Flow::new())
    }

    /// The token that stands for `u`.
    fn process(&self, u: Token) -> (r: Token)
        ensures
            r@ == authority_of(u@),
    {
        if u.lexeme == Lexeme::Name(1) {
            if text_is(u.as_str(), "req.authority") {
                return Token::raw(u.lexeme, "req.http.host");
            }
            if text_is(u.as_str(), "bereq.authority") {
                return Token::raw(u.lexeme, "bereq.http.host");
            }
        }
        u
    }

    /// Takes in one token; gives the tokens to hand on.
    pub fn feed(&mut self, t: Token) -> (out: Vec<Token>)
        requires
            old(self).has_room(),
        ensures
            (final(self).state(), views(out@)) == authority_step(old(self).state(), t@),
    {
        let mut out: Vec<Token> = Vec::new();
        proof {
            assert(views(out@) =~= Seq::<TokenView>::empty());
        }
        match self.0.push(t) {
            Some(u) => {
                let v = self.process(u);
                emit(&mut out, v);
                proof {
                    assert(Seq::<TokenView>::empty() + seq![v@] == seq![v@]);
                }
            },
            None => {},
        }
        out
    }

    /// The end of input.
    pub fn finish(&mut self) -> (r: Option<Token>)
        ensures
            match r {
                Some(u) => Some(u@),
                None => None,
            } == flow_finish(old(self).state()),
            final(self).state() == (FlowState {
                broken: old(self).state().broken || r is Some,
                ..old(self).state()
            }),
    {
        self.0.finish()
    }
}

/// Replaces the authority names of `input`.
pub fn rewrite_authority(input: &Vec<Token>) -> (r: Vec<Token>)
    requires
        input@.len() <= isize::MAX,
    ensures
        views(r@) == authority_run(flow_init(), views(input@)),
{
    let ghost whole = views(input@);
    let mut pass = RequestAuthority::new();
    let mut r: Vec<Token> = Vec::new();
    let mut i: usize = 0;
    proof {
        assert(whole.skip(0) == whole);
        assert(views(r@) =~= Seq::<TokenView>::empty());
        assert(Seq::<TokenView>::empty() + authority_run(flow_init(), whole) == authority_run(
            flow_init(),
            whole,
        ));
    }
    while i < input.len()
        invariant
            whole == views(input@),
            i <= input@.len() <= isize::MAX,
            -(i as int) <= pass.0.groups <= i,
            -(i as int) <= pass.0.blocks <= i,
            views(r@) + authority_run(pass.state(), whole.skip(i as int)) == authority_run(
                flow_init(),
                whole,
            ),
        decreases input.len() - i,
    {
        let t = input[i].copy();
        let ghost before = views(r@);
        let ghost s = pass.state();
        proof {
            assert(whole.skip(i as int)[0] == t@);
            assert(whole.skip(i as int).drop_first() == whole.skip(i + 1));
        }
        let mut out = pass.feed(t);
        r.append(&mut out);
        i += 1;
        proof {
            assert(views(r@) =~= before + authority_step(s, whole[i - 1]).1);
            assert(views(r@) + authority_run(pass.state(), whole.skip(i as int)) == before
                + authority_run(s, whole.skip(i - 1)));
        }
    }
    let ghost end_state = pass.state();
    let last = pass.finish();
    proof {
        assert(whole.skip(i as int).len() == 0);
    }
    match last {
        Some(u) => {
            let ghost before = views(r@);
            emit(&mut r, u);
        },
        None => {
            proof {
                assert(views(r@) + Seq::<TokenView>::empty() == views(r@));
            }
        },
    }
    r
}

proof fn lemma_authority_passes(f: FlowState, input: Seq<TokenView>)
    requires
        forall|k: int| 0 <= k < input.len() ==> !authority_trigger(#[trigger] input[k]),
    ensures
        authority_run(f, input) == flow_run(f, input),
    decreases input.len(),
{
    if input.len() > 0 {
        let (f2, o) = flow_step(f, input[0]);
        assert forall|k: int| 0 <= k < input.drop_first().len() implies !authority_trigger(
            #[trigger] input.drop_first()[k],
        ) by {
            assert(input.drop_first()[k] == input[k + 1]);
        }
        assert(!authority_trigger(input[0]));
        lemma_authority_passes(f2, input.drop_first());
        match o {
            Some(u) => {
                assert(authority_of(u) == u);
            },
            None => {},
        }
    }
}

/// Pass-through: on an input without `req.authority` or `bereq.authority`
/// the pass does what the nesting tracker does; where the tracker hands the
/// input on unchanged, so does the pass, as on any non-empty input that
/// meets no error and leaves no group or block open.
pub proof fn lemma_authority_identity(input: Seq<TokenView>)
    requires
        forall|k: int| 0 <= k < input.len() ==> !authority_trigger(#[trigger] input[k]),
    ensures
        authority_run(flow_init(), input) == flow_run(flow_init(), input),
        flow_run(flow_init(), input) == input ==> authority_run(flow_init(), input) == input,
        input.len() > 0 && !flow_after(flow_init(), input).broken && flow_after(
            flow_init(),
            input,
        ).groups == 0 && flow_after(flow_init(), input).blocks == 0 ==> authority_run(flow_init(), input)
            == input,
{
    lemma_authority_passes(flow_init(), input);
    if input.len() > 0 && !flow_after(flow_init(), input).broken && flow_after(
        flow_init(),
        input,
    ).groups == 0 && flow_after(flow_init(), input).blocks == 0 {
        lemma_flow_identity(input);
    }
}

/// The pass hands on at most one token for each it takes in, and one at
/// the end.
pub proof fn lemma_authority_len(f: FlowState, input: Seq<TokenView>)
    ensures
        authority_run(f, input).len() <= input.len() + 1,
    decreases input.len(),
{
    if input.len() > 0 {
        lemma_authority_len(authority_step(f, input[0]).0, input.drop_first());
    }
}

} // verus!
