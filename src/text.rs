//! Character sequences: the text that tokens carry.
use vstd::prelude::*;

verus! {

/// The characters of `s`, in order.
pub fn chars_of(s: &str) -> (r: Vec<char>)
    ensures
        r@ == s@,
{
    let mut r: Vec<char> = Vec::new();
    for c in it: s.chars()
        invariant
            r@ == it.seq().take(it.index() as int),
    {
        r.push(c);
    }
    r
}

/// Whether `p` is a prefix of `s`.
pub open spec fn starts_with(s: Seq<char>, p: Seq<char>) -> bool {
    p.len() <= s.len() && s.take(p.len() as int) == p
}

/// Whether two character slices hold the same text.
pub fn same_text(a: &[char], b: &[char]) -> (r: bool)
    ensures
        r == (a@ == b@),
{
    if a.len() != b.len() {
        return false;
    }
    let mut i: usize = 0;
    while i < a.len()
        invariant
            a@.len() == b@.len(),
            i <= a@.len(),
            a@.take(i as int) == b@.take(i as int),
        decreases a.len() - i,
    {
        if a[i] != b[i] {
            return false;
        }
        i += 1;
        assert(a@.take(i as int) == a@.take(i - 1).push(a@[i - 1]));
        assert(b@.take(i as int) == b@.take(i - 1).push(b@[i - 1]));
    }
    assert(a@ == a@.take(i as int));
    assert(b@ == b@.take(i as int));
    true
}

/// Appends the characters of `b` to `a`.
pub fn append_text(a: &mut Vec<char>, b: &[char])
    ensures
        final(a)@ == old(a)@ + b@,
{
    let mut i: usize = 0;
    while i < b.len()
        invariant
            i <= b@.len(),
            a@ == old(a)@ + b@.take(i as int),
        decreases b.len() - i,
    {
        a.push(b[i]);
        i += 1;
        assert(b@.take(i as int) == b@.take(i - 1).push(b@[i - 1]));
    }
    assert(b@.take(i as int) == b@);
}

/// Appends the characters of `b` from index `from` on to `a`.
pub fn append_from(a: &mut Vec<char>, b: &[char], from: usize)
    requires
        from <= b@.len(),
    ensures
        final(a)@ == old(a)@ + b@.skip(from as int),
{
    let mut i: usize = from;
    while i < b.len()
        invariant
            from <= i <= b@.len(),
            a@ == old(a)@ + b@.subrange(from as int, i as int),
        decreases b.len() - i,
    {
        a.push(b[i]);
        i += 1;
        assert(b@.subrange(from as int, i as int) == b@.subrange(from as int, i - 1).push(
            b@[i - 1],
        ));
    }
    assert(b@.subrange(from as int, i as int) == b@.skip(from as int));
}

/// Whether `text` starts with `prefix` and a dot.
pub fn has_dotted_prefix(text: &[char], prefix: &[char]) -> (r: bool)
    ensures
        r == starts_with(text@, prefix@ + seq!['.']),
{
    if text.len() <= prefix.len() {
        return false;
    }
    let mut i: usize = 0;
    while i < prefix.len()
        invariant
            prefix@.len() < text@.len(),
            i <= prefix@.len(),
            text@.take(i as int) == prefix@.take(i as int),
        decreases prefix.len() - i,
    {
        if text[i] != prefix[i] {
            assert((prefix@ + seq!['.'])[i as int] == prefix@[i as int]);
            assert(text@.take(prefix@.len() as int + 1)[i as int] == text@[i as int]);
            return false;
        }
        i += 1;
        assert(text@.take(i as int) == text@.take(i - 1).push(text@[i - 1]));
        assert(prefix@.take(i as int) == prefix@.take(i - 1).push(prefix@[i - 1]));
    }
    let r = text[prefix.len()] == '.';
    proof {
        assert(prefix@.take(i as int) == prefix@);
        assert((prefix@ + seq!['.'])[prefix@.len() as int] == '.');
        assert(text@.take(prefix@.len() as int + 1)[prefix@.len() as int] == text@[prefix@.len() as int]);
        if r {
            assert(text@.take(prefix@.len() as int + 1) =~= prefix@ + seq!['.']);
        }
    }
    r
}

/// Whether `a` spells `s`.
pub fn text_is(a: &[char], s: &str) -> (r: bool)
    ensures
        r == (a@ == s@),
{
    let b = chars_of(s);
    same_text(a, b.as_slice())
}

} // verus!
