//! The nesting tracker: group and block depth over a stream of tokens,
//! with the errors of unbalanced input and the end-of-input rule.
use vstd::prelude::*;

use crate::tok::{bad_at, synthetic, Lexeme, Source, Token, TokenView};

verus! {

/// The value of a nesting tracker.
pub struct FlowState {
    /// Depth of parentheses.
    pub groups: int,
    /// Depth of braces.
    pub blocks: int,
    /// The last token received.
    pub last: Option<TokenView>,
    /// The last token received that comes from the source.
    pub anchor: Option<TokenView>,
    /// Whether an error went through; nothing follows it.
    pub broken: bool,
}

pub open spec fn flow_init() -> FlowState {
    FlowState { groups: 0, blocks: 0, last: None, anchor: None, broken: false }
}

/// The depths after a token of category `l`.
pub open spec fn depths_after(groups: int, blocks: int, l: Lexeme) -> (int, int) {
    match l {
        Lexeme::OpeningGroup => (groups + 1, blocks),
        Lexeme::ClosingGroup => (groups - 1, blocks),
        Lexeme::OpeningBlock => (groups, blocks + 1),
        Lexeme::ClosingBlock => (groups, blocks - 1),
        _ => (groups, blocks),
    }
}

/// The error `msg` for token `t`. A token that a pass made has no place in
/// the source, so the error stands at the last source token received; only
/// where there was none does it have no position.
pub open spec fn blame(f: FlowState, t: TokenView, msg: Seq<char>) -> TokenView {
    if t.source == Source::Sourced {
        bad_at(t, msg)
    } else {
        match f.anchor {
            Some(a) => bad_at(a, msg),
            None => synthetic(Lexeme::Bad, Source::Literal, msg),
        }
    }
}

/// What the tracker makes of token `t` in state `f`, which has counted it:
/// a block may not open inside an expression, and no depth may go below
/// zero.
pub open spec fn checked(f: FlowState, t: TokenView) -> TokenView {
    if t.lexeme == Lexeme::Bad {
        t
    } else if t.lexeme == Lexeme::OpeningBlock && f.groups > 0 {
        blame(f, t, "block inside an expression"@)
    } else if f.groups < 0 || f.blocks < 0 {
        blame(f, t, "unbalanced brackets"@)
    } else {
        t
    }
}

/// One token through the tracker: the new state, and the token handed on
/// (none once broken).
pub open spec fn flow_step(f: FlowState, t: TokenView) -> (FlowState, Option<TokenView>) {
    if f.broken {
        (f, None)
    } else {
        let (g, b) = depths_after(f.groups, f.blocks, t.lexeme);
        let anchor = if t.source == Source::Sourced {
            Some(t)
        } else {
            f.anchor
        };
        let f1 = FlowState { groups: g, blocks: b, last: Some(t), anchor, broken: false };
        let u = checked(f1, t);
        (FlowState { broken: u.lexeme == Lexeme::Bad, ..f1 }, Some(u))
    }
}

/// The error that ends an input cut short: at the last token, or a token of
/// its own where there was none.
pub open spec fn incomplete_of(f: FlowState) -> TokenView {
    match f.last {
        Some(t) => blame(f, t, "incomplete VCL"@),
        None => synthetic(Lexeme::Bad, Source::Literal, "empty VCL"@),
    }
}

/// What the tracker hands on at the end of input: an error where the input
/// was empty or left a group or block open.
pub open spec fn flow_finish(f: FlowState) -> Option<TokenView> {
    if f.broken {
        None
    } else if f.last is None || f.groups != 0 || f.blocks != 0 {
        Some(incomplete_of(f))
    } else {
        None
    }
}

/// The sequence holding the value of `o`, if any.
pub open spec fn opt_seq(o: Option<TokenView>) -> Seq<TokenView> {
    match o {
        Some(t) => seq![t],
        None => Seq::empty(),
    }
}

/// The tokens the tracker hands on for `input`, end of input included.
pub open spec fn flow_run(f: FlowState, input: Seq<TokenView>) -> Seq<TokenView>
    decreases input.len(),
{
    if input.len() == 0 {
        opt_seq(flow_finish(f))
    } else {
        let (f2, o) = flow_step(f, input[0]);
        opt_seq(o) + flow_run(f2, input.drop_first())
    }
}

/// The state after `input`.
pub open spec fn flow_after(f: FlowState, input: Seq<TokenView>) -> FlowState
    decreases input.len(),
{
    if input.len() == 0 {
        f
    } else {
        flow_after(flow_step(f, input[0]).0, input.drop_first())
    }
}

proof fn lemma_broken_stays(f: FlowState, input: Seq<TokenView>)
    requires
        f.broken,
    ensures
        flow_after(f, input) == f,
    decreases input.len(),
{
    if input.len() > 0 {
        lemma_broken_stays(flow_step(f, input[0]).0, input.drop_first());
    }
}

proof fn lemma_after_last(f: FlowState, input: Seq<TokenView>)
    requires
        input.len() > 0,
        !flow_after(f, input).broken,
    ensures
        flow_after(f, input).last == Some(input.last()),
    decreases input.len(),
{
    let f2 = flow_step(f, input[0]).0;
    if f.broken {
        lemma_broken_stays(f, input);
    } else if input.len() == 1 {
        assert(input.drop_first().len() == 0);
    } else {
        lemma_after_last(f2, input.drop_first());
        assert(input.drop_first().last() == input.last());
    }
}

/// Balance: at the end of an input that met no error, the tracker reports
/// an incomplete input exactly when a group or a block is still open. The
/// error stands at the last token, or, where a pass made that token, at the
/// last token from the source.
pub proof fn lemma_balance(input: Seq<TokenView>)
    requires
        input.len() > 0,
        !flow_after(flow_init(), input).broken,
    ensures
        ({
            let f = flow_after(flow_init(), input);
            flow_finish(f) == if f.groups == 0 && f.blocks == 0 {
                None
            } else {
                Some(blame(f, input.last(), "incomplete VCL"@))
            }
        }),
{
    lemma_after_last(flow_init(), input);
}

proof fn lemma_flow_passes(f: FlowState, input: Seq<TokenView>)
    requires
        !flow_after(f, input).broken,
    ensures
        flow_run(f, input) == input + opt_seq(flow_finish(flow_after(f, input))),
    decreases input.len(),
{
    if input.len() == 0 {
        assert(input + opt_seq(flow_finish(f)) == opt_seq(flow_finish(f)));
    } else {
        if f.broken {
            lemma_broken_stays(f, input);
        }
        let (f2, o) = flow_step(f, input[0]);
        if f2.broken {
            lemma_broken_stays(f2, input.drop_first());
        }
        assert(o == Some(input[0]));
        lemma_flow_passes(f2, input.drop_first());
        assert(input == seq![input[0]] + input.drop_first());
        assert(seq![input[0]] + (input.drop_first() + opt_seq(
            flow_finish(flow_after(f, input)),
        )) == input + opt_seq(flow_finish(flow_after(f, input))));
    }
}

/// On a non-empty input that meets no error and leaves no group or block
/// open, the tracker hands on the input unchanged and adds nothing.
pub proof fn lemma_flow_identity(input: Seq<TokenView>)
    requires
        input.len() > 0,
        !flow_after(flow_init(), input).broken,
        flow_after(flow_init(), input).groups == 0,
        flow_after(flow_init(), input).blocks == 0,
    ensures
        flow_run(flow_init(), input) == input,
{
    lemma_flow_passes(flow_init(), input);
    lemma_after_last(flow_init(), input);
    assert(input + Seq::<TokenView>::empty() == input);
}

/// Depths are never negative after a token that the tracker accepts.
pub proof fn lemma_accepted_depths(f: FlowState, t: TokenView)
    requires
        flow_step(f, t).1 is Some,
        flow_step(f, t).1->0.lexeme != Lexeme::Bad,
    ensures
        flow_step(f, t).0.groups >= 0,
        flow_step(f, t).0.blocks >= 0,
{
}

/// Whether one more token keeps the depths of `f` within the machine's
/// integers.
pub open spec fn depths_fit(f: FlowState) -> bool {
    &&& isize::MIN < f.groups < isize::MAX
    &&& isize::MIN < f.blocks < isize::MAX
}

/// A nesting tracker.
pub struct Flow {
    pub groups: isize,
    pub blocks: isize,
    pub token: Option<Token>,
    pub anchor: Option<Token>,
    pub broken: bool,
}

impl Flow {
    pub open spec fn state(&self) -> FlowState {
        FlowState {
            groups: self.groups as int,
            blocks: self.blocks as int,
            last: match self.token {
                Some(t) => Some(t@),
                None => None,
            },
            anchor: match self.anchor {
                Some(t) => Some(t@),
                None => None,
            },
            broken: self.broken,
        }
    }

    /// Whether one more token keeps the depths within the machine's integers.
    pub open spec fn has_room(&self) -> bool {
        depths_fit(self.state())
    }

    pub fn new() -> (r: Flow)
        ensures
            r.state() == flow_init(),
    {
        Flow { groups: 0, blocks: 0, token: None, anchor: None, broken: false }
    }

    /// Counts the brackets of `t`, and keeps it as the last token.
    fn update(&mut self, t: &Token)
        requires
            old(self).has_room(),
        ensures
            (final(self).groups as int, final(self).blocks as int) == depths_after(
                old(self).groups as int,
                old(self).blocks as int,
                t.lexeme,
            ),
            final(self).state().last == Some(t@),
            final(self).state().anchor == if t.source == Source::Sourced {
                Some(t@)
            } else {
                old(self).state().anchor
            },
            final(self).broken == old(self).broken,
    {
        if t.source == Source::Sourced {
            self.anchor = Some(t.copy());
        }
        match t.lexeme {
            Lexeme::OpeningGroup => self.groups += 1,
            Lexeme::ClosingGroup => self.groups -= 1,
            Lexeme::OpeningBlock => self.blocks += 1,
            Lexeme::ClosingBlock => self.blocks -= 1,
            _ => {},
        }
        self.token = Some(t.copy());
    }

    /// Takes in `t` and hands it on, or an error in its place; nothing once
    /// broken.
    pub fn push(&mut self, t: Token) -> (r: Option<Token>)
        requires
            old(self).has_room(),
        ensures
            (final(self).state(), match r {
                Some(u) => Some(u@),
                None => None,
            }) == flow_step(old(self).state(), t@),
    {
        if self.broken {
            return None;
        }
        self.update(&t);
        let u = if t.lexeme == Lexeme::Bad {
            t
        } else if t.lexeme == Lexeme::OpeningBlock && self.groups > 0 {
            self.blame(&t, "block inside an expression")
        } else if self.groups < 0 || self.blocks < 0 {
            self.blame(&t, "unbalanced brackets")
        } else {
            t
        };
        self.broken = u.lexeme == Lexeme::Bad;
        Some(u)
    }

    /// The error `msg` for `t`: at `t`, or at the last source token where a
    /// pass made `t`.
    pub fn blame(&self, t: &Token, msg: &'static str) -> (r: Token)
        ensures
            r@ == blame(self.state(), t@, msg@),
    {
        if t.source == Source::Sourced {
            t.turn_bad_at(msg)
        } else {
            match &self.anchor {
                Some(a) => a.turn_bad_at(msg),
                None => Token::raw(Lexeme::Bad, msg),
            }
        }
    }

    /// The error for an input cut short; the tracker is broken after it.
    pub fn incomplete(&mut self) -> (r: Token)
        ensures
            r@ == incomplete_of(old(self).state()),
            final(self).state() == (FlowState { broken: true, ..old(self).state() }),
    {
        let r = match &self.token {
            Some(t) => self.blame(t, "incomplete VCL"),
            None => Token::raw(Lexeme::Bad, "empty VCL"),
        };
        self.broken = true;
        r
    }

    /// The end of input.
    pub fn finish(&mut self) -> (r: Option<Token>)
        ensures
            match r {
                Some(u) => Some(u@),
                None => None,
            } == flow_finish(old(self).state()),
            final(self).state() == (FlowState {
                broken: old(self).state().broken || r is Some,
                ..old(self).state()
            }),
    {
        if self.broken {
            None
        } else if self.token.is_none() || self.groups != 0 || self.blocks != 0 {
            Some(self.incomplete())
        } else {
            None
        }
    }
}

} // verus!
