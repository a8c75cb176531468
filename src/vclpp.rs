//! The whole preprocessor: the tokenizer, the passes, and the sink that
//! either writes every token's text or reports the first error.
use vstd::prelude::*;

use crate::bktchk::check_brackets;
use crate::declobj::{decl_init, decl_run, desugar, lemma_decl_len};
use crate::flow::{flow_init, flow_run};
use crate::hdrarray::{array_init, array_run, flatten_arrays, lemma_array_len};
use crate::lexer::{lemma_lexed_len, lexed, tokenize};
use crate::reqauth::{authority_run, lemma_authority_len, rewrite_authority};
use crate::text::append_text;
use crate::tok::{joined, lemma_joined_append, views, Lexeme, Token, TokenView};
use crate::vmodalias::{alias_init, alias_run, lemma_alias_len, resolve_aliases};

verus! {

/// The tokens that come out of the passes for source text `s`.
pub open spec fn preprocessed(s: Seq<char>) -> Seq<TokenView> {
    flow_run(
        flow_init(),
        array_run(
            array_init(),
            alias_run(
                alias_init(),
                authority_run(flow_init(), decl_run(decl_init(), lexed(s))),
            ),
        ),
    )
}

/// The first error among `v`, if any.
pub open spec fn first_bad(v: Seq<TokenView>) -> Option<TokenView>
    decreases v.len(),
{
    if v.len() == 0 {
        None
    } else if v[0].lexeme == Lexeme::Bad {
        Some(v[0])
    } else {
        first_bad(v.drop_first())
    }
}

/// What the sink makes of `v`: the first error, or the text of all tokens.
pub open spec fn sunk(v: Seq<TokenView>) -> Result<Seq<char>, TokenView> {
    match first_bad(v) {
        Some(t) => Err(t),
        None => Ok(joined(v)),
    }
}

/// The first error among `tokens`, or else the text of all of them, in order.
pub fn sink(tokens: &Vec<Token>) -> (r: Result<Vec<char>, Token>)
    ensures
        match r {
            Ok(text) => sunk(views(tokens@)) == Ok::<Seq<char>, TokenView>(text@),
            Err(t) => sunk(views(tokens@)) == Err::<Seq<char>, TokenView>(t@),
        },
{
    let ghost v = views(tokens@);
    let mut out: Vec<char> = Vec::new();
    let mut i: usize = 0;
    proof {
        assert(v.take(0) =~= Seq::<TokenView>::empty());
        assert(v.skip(0) == v);
    }
    while i < tokens.len()
        invariant
            v == views(tokens@),
            i <= tokens@.len(),
            out@ == joined(v.take(i as int)),
            first_bad(v) == first_bad(v.skip(i as int)),
            first_bad(v.take(i as int)) is None,
            first_bad(v) is None ==> joined(v) == joined(v.take(i as int)) + joined(
                v.skip(i as int),
            ),
        decreases tokens.len() - i,
    {
        let ghost rest = v.skip(i as int);
        assert(rest[0] == v[i as int]);
        if tokens[i].lexeme == Lexeme::Bad {
            return Err(tokens[i].copy());
        }
        append_text(&mut out, tokens[i].as_str());
        proof {
            let one = seq![v[i as int]];
            assert(v.take(i + 1) == v.take(i as int) + one);
            lemma_joined_append(v.take(i as int), one);
            assert(one.drop_first() =~= Seq::<TokenView>::empty());
            assert(joined(one) == v[i as int].text + joined(Seq::<TokenView>::empty()));
            assert(v[i as int].text + Seq::<char>::empty() == v[i as int].text);
            assert(rest.drop_first() == v.skip(i + 1));
            lemma_first_bad_append(v.take(i as int), one);
            assert(first_bad(Seq::<TokenView>::empty()) is None);
            assert(first_bad(one) == first_bad(one.drop_first()));
            assert(first_bad(v.take(i + 1)) is None);
            if first_bad(v) is None {
                assert(rest == one + v.skip(i + 1));
                lemma_joined_append(one, v.skip(i + 1));
            }
        }
        i += 1;
    }
    proof {
        assert(v.take(i as int) == v);
        assert(v.skip(i as int) =~= Seq::<TokenView>::empty());
    }
    Ok(out)
}

proof fn lemma_first_bad_append(a: Seq<TokenView>, b: Seq<TokenView>)
    ensures
        first_bad(a + b) == match first_bad(a) {
            Some(t) => Some(t),
            None => first_bad(b),
        },
    decreases a.len(),
{
    if a.len() == 0 {
        assert(a + b == b);
    } else {
        assert((a + b).drop_first() == a.drop_first() + b);
        assert((a + b)[0] == a[0]);
        lemma_first_bad_append(a.drop_first(), b);
    }
}

/// Preprocesses `src`: the output text, or the first error. The bound on
/// the length is far above what the tokens' memory would allow.
pub fn preprocess(src: &str) -> (r: Result<Vec<char>, Token>)
    requires
        src@.len() <= isize::MAX / 16,
    ensures
        match r {
            Ok(text) => sunk(preprocessed(src@)) == Ok::<Seq<char>, TokenView>(text@),
            Err(t) => sunk(preprocessed(src@)) == Err::<Seq<char>, TokenView>(t@),
        },
{
    let tokens = tokenize(src);
    proof {
        lemma_lexed_len(src@, 0);
        assert(views(tokens@).len() == tokens@.len());
        lemma_decl_len(decl_init(), views(tokens@));
    }
    let pass1 = desugar(&tokens);
    proof {
        assert(views(pass1@).len() == pass1@.len());
        lemma_authority_len(flow_init(), views(pass1@));
    }
    let pass2 = rewrite_authority(&pass1);
    proof {
        assert(views(pass2@).len() == pass2@.len());
        lemma_alias_len(alias_init(), views(pass2@));
    }
    let pass3 = resolve_aliases(&pass2);
    proof {
        assert(views(pass3@).len() == pass3@.len());
        lemma_array_len(array_init(), views(pass3@));
    }
    let pass4 = flatten_arrays(&pass3);
    proof {
        assert(views(pass4@).len() == pass4@.len());
    }
    let checked = check_brackets(&pass4);
    sink(&checked)
}

} // verus!
