//! The nesting tracker as a pass of its own.
use vstd::prelude::*;

use crate::flow::{depths_fit, flow_finish, flow_init, flow_run, flow_step, Flow, FlowState};
use crate::tok::{views, Token, TokenView};

verus! {

/// A pass that checks that brackets balance, and changes nothing else.
pub struct BracketCheck {
    flow: Flow,
}

impl BracketCheck {
    pub closed spec fn state(&self) -> FlowState {
        self.flow.state()
    }

    /// Whether one more token keeps the depths within the machine's integers.
    pub open spec fn has_room(&self) -> bool {
        depths_fit(self.state())
    }

    pub fn new() -> (r: BracketCheck)
        ensures
            r.state() == flow_init(),
            r.has_room(),
    {
        BracketCheck { flow: Flow::new() }
    }

    /// One token: handed on, or turned into an error.
    pub fn process(&mut self, t: Token) -> (r: Option<Token>)
        requires
            old(self).has_room(),
        ensures
            (final(self).state(), match r {
                Some(u) => Some(u@),
                None => None,
            }) == flow_step(old(self).state(), t@),
    {
        self.flow.push(t)
    }

    /// The end of input.
    pub fn process_last(&mut self) -> (r: Option<Token>)
        ensures
            match r {
                Some(u) => Some(u@),
                None => None,
            } == flow_finish(old(self).state()),
            final(self).state() == (FlowState {
                broken: old(self).state().broken || r is Some,
                ..old(self).state()
            }),
    {
        self.flow.finish()
    }
}

/// The tokens of `input` with their brackets checked.
pub fn check_brackets(input: &Vec<Token>) -> (r: Vec<Token>)
    requires
        input@.len() <= isize::MAX,
    ensures
        views(r@) == flow_run(flow_init(), views(input@)),
{
    let ghost whole = views(input@);
    let mut check = BracketCheck::new();
    let mut r: Vec<Token> = Vec::new();
    let mut i: usize = 0;
    proof {
        assert(whole.skip(0) == whole);
        assert(views(r@) == Seq::<TokenView>::empty());
        assert(Seq::<TokenView>::empty() + flow_run(flow_init(), whole) == flow_run(
            flow_init(),
            whole,
        ));
    }
    while i < input.len()
        invariant
            whole == views(input@),
            i <= input@.len() <= isize::MAX,
            -(i as int) <= check.state().groups <= i,
            -(i as int) <= check.state().blocks <= i,
            check.flow.groups == check.state().groups,
            check.flow.blocks == check.state().blocks,
            views(r@) + flow_run(check.state(), whole.skip(i as int)) == flow_run(
                flow_init(),
                whole,
            ),
        decreases input.len() - i,
    {
        let t = input[i].copy();
        let ghost before = views(r@);
        let ghost f = check.state();
        proof {
            assert(whole.skip(i as int)[0] == t@);
            assert(whole.skip(i as int).drop_first() == whole.skip(i + 1));
        }
        match check.process(t) {
            Some(u) => {
                r.push(u);
                proof {
                    assert(views(r@) == before.push(u@));
                    assert(before.push(u@) == before + seq![u@]);
                }
            },
            None => {},
        }
        i += 1;
        proof {
            assert(views(r@) + flow_run(check.state(), whole.skip(i as int)) == before + flow_run(
                f,
                whole.skip(i - 1),
            ));
        }
    }
    let last = check.process_last();
    proof {
        assert(whole.skip(i as int).len() == 0);
    }
    match last {
        Some(u) => {
            let ghost before = views(r@);
            r.push(u);
            proof {
                assert(views(r@) == before.push(u@));
                assert(before.push(u@) == before + seq![u@]);
            }
        },
        None => {
            proof {
                assert(views(r@) + Seq::<TokenView>::empty() == views(r@));
            }
        },
    }
    r
}

} // verus!
