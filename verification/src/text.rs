//! Character-sequence helpers shared by the formatting and rendering code.

use vstd::prelude::*;

verus! {

/// Replaces every character of `s` by the sequence `f` gives for it, in order.
pub open spec fn map_chars(s: Seq<char>, f: spec_fn(char) -> Seq<char>) -> Seq<char>
    decreases s.len(),
{
    if s.len() == 0 {
        Seq::empty()
    } else {
        map_chars(s.drop_last(), f) + f(s.last())
    }
}

/// Mapping a prefix one character longer appends that character's image.
pub proof fn lemma_map_chars_step(s: Seq<char>, f: spec_fn(char) -> Seq<char>, i: int)
    requires
        0 <= i < s.len(),
    ensures
        map_chars(s.take(i + 1), f) == map_chars(s.take(i), f) + f(s[i]),
{
    assert(s.take(i + 1).drop_last() =~= s.take(i));
}

/// A mapping under which no character of `s` has an image holding `x`
/// yields a result without `x`.
pub proof fn lemma_map_chars_excludes(s: Seq<char>, f: spec_fn(char) -> Seq<char>, x: char)
    requires
        forall|i: int| 0 <= i < s.len() ==> !(#[trigger] f(s[i])).contains(x),
    ensures
        !map_chars(s, f).contains(x),
    decreases s.len(),
{
    if s.len() > 0 {
        assert forall|i: int| 0 <= i < s.drop_last().len() implies !(#[trigger] f(
            s.drop_last()[i],
        )).contains(x) by {
            assert(s.drop_last()[i] == s[i]);
        }
        lemma_map_chars_excludes(s.drop_last(), f, x);
        let l = map_chars(s.drop_last(), f);
        let r = f(s[s.len() - 1]);
        assert forall|k: int| 0 <= k < (l + r).len() implies (l + r)[k] != x by {
            if k < l.len() {
                assert(l[k] == (l + r)[k]);
            } else {
                assert(r[k - l.len()] == (l + r)[k]);
            }
        }
    }
}

/// Two mappings that agree on every character of `s` map `s` alike.
pub proof fn lemma_map_chars_agree(
    s: Seq<char>,
    f: spec_fn(char) -> Seq<char>,
    g: spec_fn(char) -> Seq<char>,
)
    requires
        forall|i: int| 0 <= i < s.len() ==> #[trigger] f(s[i]) == g(s[i]),
    ensures
        map_chars(s, f) == map_chars(s, g),
    decreases s.len(),
{
    if s.len() > 0 {
        assert forall|i: int| 0 <= i < s.drop_last().len() implies #[trigger] f(
            s.drop_last()[i],
        ) == g(s.drop_last()[i]) by {
            assert(s.drop_last()[i] == s[i]);
        }
        lemma_map_chars_agree(s.drop_last(), f, g);
        assert(f(s[s.len() - 1]) == g(s[s.len() - 1]));
    }
}

/// A mapping that sends every character of `s` to a single character keeps
/// the length.
pub proof fn lemma_map_chars_len(s: Seq<char>, f: spec_fn(char) -> Seq<char>)
    requires
        forall|i: int| 0 <= i < s.len() ==> (#[trigger] f(s[i])).len() == 1,
    ensures
        map_chars(s, f).len() == s.len(),
    decreases s.len(),
{
    if s.len() > 0 {
        assert forall|i: int| 0 <= i < s.drop_last().len() implies (#[trigger] f(
            s.drop_last()[i],
        )).len() == 1 by {
            assert(s.drop_last()[i] == s[i]);
        }
        lemma_map_chars_len(s.drop_last(), f);
        assert(f(s[s.len() - 1]).len() == 1);
    }
}

/// Mapping a non-empty sequence gives the image of its first character
/// followed by the mapping of the rest.
pub proof fn lemma_map_chars_front(s: Seq<char>, f: spec_fn(char) -> Seq<char>)
    requires
        s.len() > 0,
    ensures
        map_chars(s, f) == f(s[0]) + map_chars(s.drop_first(), f),
    decreases s.len(),
{
    if s.len() == 1 {
        assert(s.drop_last() =~= Seq::<char>::empty());
        assert(s.drop_first() =~= Seq::<char>::empty());
        assert(f(s[0]) + Seq::<char>::empty() =~= f(s[0]));
    } else {
        lemma_map_chars_front(s.drop_last(), f);
        assert(s.drop_last().drop_first() =~= s.drop_first().drop_last());
        assert(s.drop_first().last() == s.last());
        assert(s.drop_last()[0] == s[0]);
        let a = f(s[0]);
        let b = map_chars(s.drop_first().drop_last(), f);
        let c = f(s.last());
        assert(a + b + c =~= a + (b + c));
    }
}

/// `s` with every occurrence of `pat` replaced by `rep`, scanning from the
/// left and skipping what a replacement consumed (`str.replace`).
pub open spec fn replace_all(s: Seq<char>, pat: Seq<char>, rep: Seq<char>) -> Seq<char>
    decreases s.len(),
{
    if s.len() == 0 {
        Seq::empty()
    } else if pat.len() > 0 && pat.len() <= s.len() && s.take(pat.len() as int) == pat {
        rep + replace_all(s.skip(pat.len() as int), pat, rep)
    } else {
        seq![s[0]] + replace_all(s.drop_first(), pat, rep)
    }
}

/// Text without the first character of `pat` passes through unchanged.
pub proof fn lemma_replace_skips(x: Seq<char>, y: Seq<char>, pat: Seq<char>, rep: Seq<char>)
    requires
        pat.len() > 0,
        forall|i: int| 0 <= i < x.len() ==> x[i] != pat[0],
    ensures
        replace_all(x + y, pat, rep) == x + replace_all(y, pat, rep),
    decreases x.len(),
{
    if x.len() == 0 {
        assert(x + y =~= y);
        assert(x + replace_all(y, pat, rep) =~= replace_all(y, pat, rep));
    } else {
        let xy = x + y;
        assert(xy[0] == x[0]);
        if pat.len() <= xy.len() && xy.take(pat.len() as int) == pat {
            assert(xy.take(pat.len() as int)[0] == xy[0]);
        }
        assert(xy.drop_first() =~= x.drop_first() + y);
        lemma_replace_skips(x.drop_first(), y, pat, rep);
        assert(seq![x[0]] + (x.drop_first() + replace_all(y, pat, rep)) =~= x + replace_all(
            y,
            pat,
            rep,
        ));
    }
}

/// An occurrence of `pat` at the front is replaced.
pub proof fn lemma_replace_front(y: Seq<char>, pat: Seq<char>, rep: Seq<char>)
    requires
        pat.len() > 0,
    ensures
        replace_all(pat + y, pat, rep) == rep + replace_all(y, pat, rep),
{
    assert((pat + y).take(pat.len() as int) =~= pat);
    assert((pat + y).skip(pat.len() as int) =~= y);
}

/// Text that starts with the first character of `pat` but differs from it in
/// the second, and holds that first character nowhere else, passes through
/// unchanged.
pub proof fn lemma_replace_near_miss(h: Seq<char>, y: Seq<char>, pat: Seq<char>, rep: Seq<char>)
    requires
        pat.len() >= 2,
        h.len() >= 2,
        h[0] == pat[0],
        h[1] != pat[1],
        forall|i: int| 1 <= i < h.len() ==> h[i] != pat[0],
    ensures
        replace_all(h + y, pat, rep) == h + replace_all(y, pat, rep),
{
    let hy = h + y;
    assert(hy[1] == h[1]);
    if pat.len() <= hy.len() && hy.take(pat.len() as int) == pat {
        assert(hy.take(pat.len() as int)[1] == hy[1]);
    }
    assert(hy.drop_first() =~= h.drop_first() + y);
    lemma_replace_skips(h.drop_first(), y, pat, rep);
    assert(seq![h[0]] + (h.drop_first() + replace_all(y, pat, rep)) =~= h + replace_all(
        y,
        pat,
        rep,
    ));
}

/// Replacing in mapped text maps with `g`, when replacing in the image of any
/// character under `f`, followed by anything, gives its image under `g`
/// followed by the replaced rest.
pub proof fn lemma_replace_map(
    s: Seq<char>,
    f: spec_fn(char) -> Seq<char>,
    g: spec_fn(char) -> Seq<char>,
    pat: Seq<char>,
    rep: Seq<char>,
)
    requires
        forall|c: char, y: Seq<char>| #[trigger]
            replace_all(f(c) + y, pat, rep) == g(c) + replace_all(y, pat, rep),
    ensures
        replace_all(map_chars(s, f), pat, rep) == map_chars(s, g),
    decreases s.len(),
{
    if s.len() == 0 {
    } else {
        lemma_map_chars_front(s, f);
        lemma_map_chars_front(s, g);
        lemma_replace_map(s.drop_first(), f, g, pat, rep);
        assert(replace_all(f(s[0]) + map_chars(s.drop_first(), f), pat, rep) == g(s[0])
            + replace_all(map_chars(s.drop_first(), f), pat, rep));
    }
}

/// A mapping that sends every character of `s` to itself leaves `s` as it is.
pub proof fn lemma_map_chars_identity(s: Seq<char>, f: spec_fn(char) -> Seq<char>)
    requires
        forall|i: int| 0 <= i < s.len() ==> #[trigger] f(s[i]) == seq![s[i]],
    ensures
        map_chars(s, f) == s,
    decreases s.len(),
{
    if s.len() > 0 {
        assert forall|i: int| 0 <= i < s.drop_last().len() implies #[trigger] f(
            s.drop_last()[i],
        ) == seq![s.drop_last()[i]] by {
            assert(s.drop_last()[i] == s[i]);
        }
        lemma_map_chars_identity(s.drop_last(), f);
        assert(f(s[s.len() - 1]) == seq![s[s.len() - 1]]);
        assert(s.drop_last() + seq![s.last()] =~= s);
    }
}

/// The pieces joined with one space between neighbours.
pub open spec fn join_spaced(pieces: Seq<Seq<char>>) -> Seq<char>
    decreases pieces.len(),
{
    if pieces.len() == 0 {
        Seq::empty()
    } else if pieces.len() == 1 {
        pieces[0]
    } else {
        join_spaced(pieces.drop_last()) + seq![' '] + pieces.last()
    }
}

/// Appends one character by calling `String::push`, which is trusted here:
/// the contract claims that afterwards the string holds the characters it
/// held before followed by `c`, as the standard library documents.
#[verifier::external_body]
pub(crate) fn push_char(s: &mut String, c: char)
    ensures
        final(s)@ == old(s)@.push(c),
{
    s.push(c);
}

/// The characters of `s`, in order.
pub fn chars_of(s: &str) -> (v: Vec<char>)
    ensures
        v@ == s@,
{
    let mut v: Vec<char> = Vec::new();
    for c in it: s.chars()
        invariant
            it.seq() == s@,
            v@ == it.seq().take(it.index() as int),
    {
        v.push(c);
    }
    v
}

/// Appends the characters `v[from..to]`.
pub fn push_chars(out: &mut String, v: &Vec<char>, from: usize, to: usize)
    requires
        from <= to <= v.len(),
    ensures
        final(out)@ == old(out)@ + v@.subrange(from as int, to as int),
{
    let mut i: usize = from;
    while i < to
        invariant
            from <= i <= to <= v.len(),
            out@ == old(out)@ + v@.subrange(from as int, i as int),
        decreases to - i,
    {
        push_char(out, v[i]);
        assert(v@.subrange(from as int, i + 1) =~= v@.subrange(from as int, i as int).push(v@[i as int]));
        i += 1;
    }
}

/// Whether `c` occurs in `v`.
pub fn has_char(v: &Vec<char>, c: char) -> (b: bool)
    ensures
        b == v@.contains(c),
{
    let mut i: usize = 0;
    while i < v.len()
        invariant
            i <= v.len(),
            forall|k: int| 0 <= k < i ==> v@[k] != c,
        decreases v.len() - i,
    {
        if v[i] == c {
            assert(v@[i as int] == c);
            return true;
        }
        i += 1;
    }
    false
}

} // verus!
