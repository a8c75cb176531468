//! Vmod aliases: `import <vmod> [from <path>] [as <alias>];` and names
//! written with the alias in place of the vmod.
use vstd::prelude::*;

use crate::flow::{flow_after, lemma_flow_identity, depths_fit, flow_finish, flow_init, flow_run, flow_step, incomplete_of, blame, Flow, FlowState};
use crate::text::{append_from, has_dotted_prefix, same_text, starts_with, text_is};
use crate::tok::{emit, synthetic, views, Lexeme, Source, Token, TokenView};

verus! {

/// What the pass expects next.
#[derive(Clone, Copy, PartialEq, Eq, Debug, Structural)]
pub enum Expected {
    /// Ordinary code.
    Code,
    /// The vmod's name after `import`.
    Vmod,
    /// `from`, `as` or `;` after the vmod's name.
    From,
    /// The alias after `as`.
    Alias,
    /// The path after `from`.
    Path,
    /// The `;` that ends the import, or `as` after a path.
    SemiColon,
}

/// The value of the alias pass. The table maps each alias to its vmod, in
/// the order of the imports.
pub struct AliasState {
    pub flow: FlowState,
    pub expect: Expected,
    pub broken: bool,
    /// The vmod being imported.
    pub vmod: Seq<char>,
    /// Whether the import being read has its alias.
    pub aliased: bool,
    pub aliases: Seq<(Seq<char>, Seq<char>)>,
}

pub open spec fn alias_init() -> AliasState {
    AliasState {
        flow: flow_init(),
        expect: Expected::Code,
        broken: false,
        vmod: Seq::empty(),
        aliased: false,
        aliases: Seq::empty(),
    }
}

/// The name `text` with its alias replaced by the vmod: the first alias in
/// the table that, with a dot, starts `text`.
pub open spec fn resolve(aliases: Seq<(Seq<char>, Seq<char>)>, text: Seq<char>) -> Option<
    Seq<char>,
>
    decreases aliases.len(),
{
    if aliases.len() == 0 {
        None
    } else if starts_with(text, aliases[0].0 + seq!['.']) {
        Some(aliases[0].1 + seq!['.'] + text.skip(aliases[0].0.len() as int + 1))
    } else {
        resolve(aliases.drop_first(), text)
    }
}

/// Whether `a` is an alias of the table.
pub open spec fn has_alias(aliases: Seq<(Seq<char>, Seq<char>)>, a: Seq<char>) -> bool {
    exists|k: int| 0 <= k < aliases.len() && aliases[k].0 == a
}

/// Whether no alias stands twice in the table.
pub open spec fn keys_unique(aliases: Seq<(Seq<char>, Seq<char>)>) -> bool {
    forall|i: int, j: int|
        0 <= i < j < aliases.len() ==> #[trigger] aliases[i].0 != #[trigger] aliases[j].0
}

/// Whether `t` starts an import.
pub open spec fn alias_trigger(t: TokenView) -> bool {
    t.lexeme == Lexeme::Name(0) && t.text == "import"@
}

pub open spec fn alias_fail(s: AliasState, u: TokenView, msg: Seq<char>) -> (AliasState, Seq<
    TokenView,
>) {
    (AliasState { broken: true, ..s }, seq![blame(s.flow, u, msg)])
}

/// What the pass does with `u`, not an error, that the tracker handed on.
pub open spec fn alias_on(s: AliasState, u: TokenView) -> (AliasState, Seq<TokenView>) {
    let l = u.lexeme;
    let none = Seq::<TokenView>::empty();
    if s.expect == Expected::Code {
        if s.flow.blocks == 0 && s.flow.groups == 0 && alias_trigger(u) {
            (AliasState { expect: Expected::Vmod, aliased: false, ..s }, seq![u])
        } else if l == Lexeme::Name(1) && resolve(s.aliases, u.text) is Some {
            (s, seq![synthetic(Lexeme::Name(1), Source::Computed, resolve(s.aliases, u.text)->0)])
        } else {
            (s, seq![u])
        }
    } else if l == Lexeme::Comment || l == Lexeme::CComment || l == Lexeme::CxxComment || l
        == Lexeme::Blank {
        (s, seq![u])
    } else {
        match s.expect {
            Expected::Vmod => if l == Lexeme::Name(0) {
                (AliasState { expect: Expected::From, vmod: u.text, ..s }, seq![u])
            } else {
                alias_fail(s, u, "expected vmod name"@)
            },
            Expected::From => if l == Lexeme::Name(0) && u.text == "as"@ {
                (AliasState { expect: Expected::Alias, ..s }, none)
            } else if l == Lexeme::Name(0) && u.text == "from"@ {
                (AliasState { expect: Expected::Path, ..s }, seq![u])
            } else if l == Lexeme::Delim(';') {
                (AliasState { expect: Expected::Code, ..s }, seq![u])
            } else {
                alias_fail(s, u, "expected 'from' or 'as'"@)
            },
            Expected::Path => if l == Lexeme::SimpleString || l == Lexeme::BlockString {
                (AliasState { expect: Expected::SemiColon, ..s }, seq![u])
            } else {
                alias_fail(s, u, "unexpected vmod path"@)
            },
            Expected::Alias => if l == Lexeme::Name(0) {
                if has_alias(s.aliases, u.text) {
                    alias_fail(s, u, "duplicate alias"@)
                } else {
                    (
                        AliasState {
                            expect: Expected::SemiColon,
                            aliased: true,
                            aliases: s.aliases.push((u.text, s.vmod)),
                            ..s
                        },
                        none,
                    )
                }
            } else {
                alias_fail(s, u, "expected vmod alias"@)
            },
            _ => if l == Lexeme::Delim(';') {
                (AliasState { expect: Expected::Code, ..s }, seq![u])
            } else if l == Lexeme::Name(0) && u.text == "as"@ && !s.aliased {
                (AliasState { expect: Expected::Alias, ..s }, none)
            } else {
                alias_fail(s, u, "expected ';'"@)
            },
        }
    }
}

pub open spec fn alias_step(s: AliasState, t: TokenView) -> (AliasState, Seq<TokenView>) {
    if s.broken {
        (s, Seq::empty())
    } else {
        let (f, o) = flow_step(s.flow, t);
        let s1 = AliasState { flow: f, ..s };
        match o {
            None => (s1, Seq::empty()),
            Some(u) => if u.lexeme == Lexeme::Bad {
                (AliasState { broken: true, ..s1 }, seq![u])
            } else {
                alias_on(s1, u)
            },
        }
    }
}

pub open spec fn alias_finish(s: AliasState) -> Seq<TokenView> {
    if s.broken {
        Seq::empty()
    } else {
        match flow_finish(s.flow) {
            Some(u) => seq![u],
            None => if s.expect != Expected::Code {
                seq![incomplete_of(s.flow)]
            } else {
                Seq::empty()
            },
        }
    }
}

/// The tokens the pass hands on for `input`, end of input included.
pub open spec fn alias_run(s: AliasState, input: Seq<TokenView>) -> Seq<TokenView>
    decreases input.len(),
{
    if input.len() == 0 {
        alias_finish(s)
    } else {
        let (s2, out) = alias_step(s, input[0]);
        out + alias_run(s2, input.drop_first())
    }
}

pub open spec fn table_view(v: Seq<(Vec<char>, Vec<char>)>) -> Seq<(Seq<char>, Seq<char>)> {
    v.map_values(|p: (Vec<char>, Vec<char>)| (p.0@, p.1@))
}

/// The alias pass.
pub struct VmodAlias {
    flow: Flow,
    aliases: Vec<(Vec<char>, Vec<char>)>,
    expect: Expected,
    broken: bool,
    vmod: Vec<char>,
    aliased: bool,
}

impl VmodAlias {
    pub closed spec fn state(&self) -> AliasState {
        AliasState {
            flow: self.flow.state(),
            expect: self.expect,
            broken: self.broken,
            vmod: self.vmod@,
            aliased: self.aliased,
            aliases: table_view(self.aliases@),
        }
    }

    /// Whether one more token keeps the depths within the machine's integers.
    pub open spec fn has_room(&self) -> bool {
        depths_fit(self.state().flow)
    }

    pub fn new() -> (r: VmodAlias)
        ensures
            r.state() == alias_init(),
            r.has_room(),
    {
        let r = VmodAlias {
            flow: Flow::new(),
            aliases: Vec::new(),
            expect: Expected::Code,
            broken: false,
            vmod: Vec::new(),
            aliased: false,
        };
        proof {
            assert(table_view(r.aliases@) =~= Seq::<(Seq<char>, Seq<char>)>::empty());
        }
        r
    }

    /// `text` with its alias replaced, if it starts with one.
    fn resolve(&self, text: &[char]) -> (r: Option<Vec<char>>)
        ensures
            match r {
                Some(v) => resolve(self.state().aliases, text@) == Some(v@),
                None => resolve(self.state().aliases, text@) is None,
            },
    {
        let ghost table = table_view(self.aliases@);
        let mut i: usize = 0;
        proof {
            assert(table.skip(0) == table);
        }
        while i < self.aliases.len()
            invariant
                table == table_view(self.aliases@),
                i <= self.aliases@.len(),
                resolve(table, text@) == resolve(table.skip(i as int), text@),
            decreases self.aliases.len() - i,
        {
            let ghost rest = table.skip(i as int);
            assert(rest[0] == table[i as int]);
            if has_dotted_prefix(text, self.aliases[i].0.as_slice()) {
                assert((table[i as int].0 + seq!['.']).len() == table[i as int].0.len() + 1);
                assert(self.aliases[i as int].0@.len() + 1 <= text@.len());
                let mut v = self.aliases[i].1.clone();
                v.push('.');
                let n = self.aliases[i].0.len();
                assert(n < text.len());
                append_from(&mut v, text, n + 1);
                assert(v@ == table[i as int].1 + seq!['.'] + text@.skip(
                    table[i as int].0.len() as int + 1,
                ));
                return Some(v);
            }
            assert(rest.drop_first() == table.skip(i + 1));
            i += 1;
        }
        None
    }

    /// Whether `a` is an alias already.
    fn has_alias(&self, a: &[char]) -> (r: bool)
        ensures
            r == has_alias(self.state().aliases, a@),
    {
        let ghost table = table_view(self.aliases@);
        let mut i: usize = 0;
        while i < self.aliases.len()
            invariant
                table == table_view(self.aliases@),
                i <= self.aliases@.len(),
                forall|k: int| 0 <= k < i ==> table[k].0 != a@,
            decreases self.aliases.len() - i,
        {
            if same_text(self.aliases[i].0.as_slice(), a) {
                assert(table[i as int].0 == a@);
                return true;
            }
            i += 1;
        }
        false
    }

    fn fail(&mut self, u: &Token, msg: &'static str, out: &mut Vec<Token>)
        ensures
            final(self).state() == alias_fail(old(self).state(), u@, msg@).0,
            views(final(out)@) == views(old(out)@) + alias_fail(old(self).state(), u@, msg@).1,
            final(self).flow == old(self).flow,
    {
        self.broken = true;
        emit(out, self.flow.blame(u, msg));
    }

    /// What to do with `u`, which the tracker handed on and is not an error.
    fn process(&mut self, u: Token, out: &mut Vec<Token>)
        ensures
            final(self).state() == alias_on(old(self).state(), u@).0,
            views(final(out)@) == views(old(out)@) + alias_on(old(self).state(), u@).1,
            final(self).flow == old(self).flow,
    {
        let l = u.lexeme;
        proof {
            assert(views(out@) == views(out@) + Seq::<TokenView>::empty());
        }
        if self.expect == Expected::Code {
            if self.flow.blocks == 0 && self.flow.groups == 0 && l == Lexeme::Name(0) && text_is(
                u.as_str(),
                "import",
            ) {
                self.expect = Expected::Vmod;
                self.aliased = false;
                emit(out, u);
            } else if l == Lexeme::Name(1) {
                match self.resolve(u.as_str()) {
                    Some(v) => emit(out, Token::dynamic(Lexeme::Name(1), v)),
                    None => emit(out, u),
                }
            } else {
                emit(out, u);
            }
            return;
        }
        if l == Lexeme::Comment || l == Lexeme::CComment || l == Lexeme::CxxComment || l
            == Lexeme::Blank {
            emit(out, u);
            return;
        }
        match self.expect {
            Expected::Vmod => {
                if l == Lexeme::Name(0) {
                    self.vmod = u.text.clone();
                    self.expect = Expected::From;
                    emit(out, u);
                } else {
                    self.fail(&u, "expected vmod name", out);
                }
            },
            Expected::From => {
                if l == Lexeme::Name(0) && text_is(u.as_str(), "as") {
                    self.expect = Expected::Alias;
                } else if l == Lexeme::Name(0) && text_is(u.as_str(), "from") {
                    self.expect = Expected::Path;
                    emit(out, u);
                } else if l == Lexeme::Delim(';') {
                    self.expect = Expected::Code;
                    emit(out, u);
                } else {
                    self.fail(&u, "expected 'from' or 'as'", out);
                }
            },
            Expected::Path => {
                if l == Lexeme::SimpleString || l == Lexeme::BlockString {
                    self.expect = Expected::SemiColon;
                    emit(out, u);
                } else {
                    self.fail(&u, "unexpected vmod path", out);
                }
            },
            Expected::Alias => {
                if l == Lexeme::Name(0) {
                    if self.has_alias(u.as_str()) {
                        self.fail(&u, "duplicate alias", out);
                    } else {
                        let ghost before = table_view(self.aliases@);
                        self.aliases.push((u.text, self.vmod.clone()));
                        proof {
                            assert(table_view(self.aliases@) =~= before.push((u@.text, self.vmod@)));
                        }
                        self.aliased = true;
                        self.expect = Expected::SemiColon;
                    }
                } else {
                    self.fail(&u, "expected vmod alias", out);
                }
            },
            _ => {
                if l == Lexeme::Delim(';') {
                    self.expect = Expected::Code;
                    emit(out, u);
                } else if l == Lexeme::Name(0) && text_is(u.as_str(), "as") && !self.aliased {
                    self.expect = Expected::Alias;
                } else {
                    self.fail(&u, "expected ';'", out);
                }
            },
        }
    }
    /// Takes in one token; gives the tokens to hand on.
    pub fn feed(&mut self, t: Token) -> (out: Vec<Token>)
        requires
            old(self).has_room(),
        ensures
            (final(self).state(), views(out@)) == alias_step(old(self).state(), t@),
    {
        let mut out: Vec<Token> = Vec::new();
        proof {
            assert(views(out@) =~= Seq::<TokenView>::empty());
        }
        if self.broken {
            return out;
        }
        match self.flow.push(t) {
            None => {},
            Some(u) => {
                if u.lexeme == Lexeme::Bad {
                    self.broken = true;
                    emit(&mut out, u);
                } else {
                    self.process(u, &mut out);
                }
            },
        }
        proof {
            assert(views(out@) =~= Seq::<TokenView>::empty() + views(out@));
        }
        out
    }

    /// The end of input; gives the tokens to hand on.
    pub fn finish(&mut self) -> (out: Vec<Token>)
        ensures
            views(out@) == alias_finish(old(self).state()),
            final(self).state().broken == (old(self).state().broken || out@.len() > 0),
    {
        let mut out: Vec<Token> = Vec::new();
        proof {
            assert(views(out@) =~= Seq::<TokenView>::empty());
        }
        if self.broken {
            return out;
        }
        match self.flow.finish() {
            Some(u) => {
                self.broken = true;
                emit(&mut out, u);
            },
            None => {
                if self.expect != Expected::Code {
                    self.broken = true;
                    emit(&mut out, self.flow.incomplete());
                }
            },
        }
        proof {
            assert(views(out@) =~= Seq::<TokenView>::empty() + views(out@));
        }
        out
    }
}

/// Records the imports of `input` and resolves its aliases.
pub fn resolve_aliases(input: &Vec<Token>) -> (r: Vec<Token>)
    requires
        input@.len() <= isize::MAX,
    ensures
        views(r@) == alias_run(alias_init(), views(input@)),
{
    let ghost whole = views(input@);
    let mut pass = VmodAlias::new();
    let mut r: Vec<Token> = Vec::new();
    let mut i: usize = 0;
    proof {
        assert(whole.skip(0) == whole);
        assert(views(r@) =~= Seq::<TokenView>::empty());
        assert(Seq::<TokenView>::empty() + alias_run(alias_init(), whole) == alias_run(
            alias_init(),
            whole,
        ));
    }
    while i < input.len()
        invariant
            whole == views(input@),
            i <= input@.len() <= isize::MAX,
            -(i as int) <= pass.flow.groups <= i,
            -(i as int) <= pass.flow.blocks <= i,
            views(r@) + alias_run(pass.state(), whole.skip(i as int)) == alias_run(
                alias_init(),
                whole,
            ),
        decreases input.len() - i,
    {
        let t = input[i].copy();
        let ghost before = views(r@);
        let ghost s = pass.state();
        proof {
            assert(whole.skip(i as int)[0] == t@);
            assert(whole.skip(i as int).drop_first() == whole.skip(i + 1));
        }
        let mut out = pass.feed(t);
        r.append(&mut out);
        i += 1;
        proof {
            assert(views(r@) =~= before + alias_step(s, whole[i - 1]).1);
            assert(views(r@) + alias_run(pass.state(), whole.skip(i as int)) == before + alias_run(
                s,
                whole.skip(i - 1),
            ));
        }
    }
    let ghost end_state = pass.state();
    let mut out = pass.finish();
    let ghost before = views(r@);
    r.append(&mut out);
    proof {
        assert(whole.skip(i as int).len() == 0);
        assert(views(r@) =~= before + alias_finish(end_state));
    }
    r
}

proof fn lemma_alias_passes(s: AliasState, input: Seq<TokenView>)
    requires
        s.expect == Expected::Code,
        s.aliases.len() == 0,
        s.broken == s.flow.broken,
        forall|k: int| 0 <= k < input.len() ==> !alias_trigger(#[trigger] input[k]),
    ensures
        alias_run(s, input) == flow_run(s.flow, input),
    decreases input.len(),
{
    if input.len() > 0 {
        let (s2, out) = alias_step(s, input[0]);
        assert forall|k: int| 0 <= k < input.drop_first().len() implies !alias_trigger(
            #[trigger] input.drop_first()[k],
        ) by {
            assert(input.drop_first()[k] == input[k + 1]);
        }
        assert(!alias_trigger(input[0]));
        lemma_alias_passes(s2, input.drop_first());
    }
}

/// Pass-through: on an input without `import`, the pass does what the
/// nesting tracker does, where the tracker hands the input on
/// unchanged, so does the pass, as on any
/// non-empty input that meets no error and leaves no group or block open.
pub proof fn lemma_alias_identity(input: Seq<TokenView>)
    requires
        forall|k: int| 0 <= k < input.len() ==> !alias_trigger(#[trigger] input[k]),
    ensures
        alias_run(alias_init(), input) == flow_run(flow_init(), input),
        flow_run(flow_init(), input) == input ==> alias_run(alias_init(), input) == input,
        input.len() > 0 && !flow_after(flow_init(), input).broken && flow_after(
            flow_init(),
            input,
        ).groups == 0 && flow_after(flow_init(), input).blocks == 0 ==> alias_run(alias_init(), input)
            == input,
{
    lemma_alias_passes(alias_init(), input);
    if input.len() > 0 && !flow_after(flow_init(), input).broken && flow_after(
        flow_init(),
        input,
    ).groups == 0 && flow_after(flow_init(), input).blocks == 0 {
        lemma_flow_identity(input);
    }
}

/// The pass hands on at most one token for each it takes in, and one at
/// the end.
pub proof fn lemma_alias_len(s: AliasState, input: Seq<TokenView>)
    ensures
        alias_run(s, input).len() <= input.len() + 1,
    decreases input.len(),
{
    if input.len() > 0 {
        lemma_alias_len(alias_step(s, input[0]).0, input.drop_first());
    }
}

/// An alias is added only where it is new, so the table never holds one
/// twice.
pub proof fn lemma_aliases_unique(s: AliasState, t: TokenView)
    requires
        keys_unique(s.aliases),
    ensures
        keys_unique(alias_step(s, t).0.aliases),
{
    let s2 = alias_step(s, t).0;
    if s2.aliases != s.aliases {
        let (f, o) = flow_step(s.flow, t);
        let u = o->0;
        assert(!has_alias(s.aliases, u.text));
        assert(s2.aliases == s.aliases.push((u.text, s.vmod)));
        assert forall|i: int, j: int| 0 <= i < j < s2.aliases.len() implies #[trigger] s2.aliases[i].0
            != #[trigger] s2.aliases[j].0 by {
            if j == s.aliases.len() {
                assert(s2.aliases[i] == s.aliases[i]);
            } else {
                assert(s2.aliases[i] == s.aliases[i]);
                assert(s2.aliases[j] == s.aliases[j]);
            }
        }
    }
}

} // verus!
