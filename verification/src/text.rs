//! Sequences of characters: where a separator first stands, how a text
//! splits at a separator, and how parts join again.

use vstd::prelude::*;
use vstd::std_specs::iter::IteratorSpec;
use vstd::string::*;

verus! {

/// The position of the first `x` in `s`, or the length of `s` where it holds
/// none.
pub open spec fn first_index<T>(s: Seq<T>, x: T) -> nat
    decreases s.len(),
{
    if s.len() == 0 || s[0] == x {
        0
    } else {
        1 + first_index(s.drop_first(), x)
    }
}

/// The parts of `s` between the separators; one more than there are
/// separators.
pub open spec fn split(s: Seq<char>, sep: char) -> Seq<Seq<char>>
    decreases s.len(),
{
    let i = first_index(s, sep);
    if i >= s.len() {
        seq![s]
    } else {
        seq![s.subrange(0, i as int)] + split(s.subrange(i as int + 1, s.len() as int), sep)
    }
}

/// The parts in a row, with a separator between each two.
pub open spec fn join(parts: Seq<Seq<char>>, sep: char) -> Seq<char>
    decreases parts.len(),
{
    if parts.len() == 0 {
        Seq::empty()
    } else if parts.len() == 1 {
        parts[0]
    } else {
        join(parts.drop_last(), sep) + seq![sep] + parts.last()
    }
}

/// The first index is within the sequence or its length, nothing before it is
/// `x`, and `x` stands at it.
pub proof fn lemma_first_index_is<T>(s: Seq<T>, x: T)
    ensures
        first_index(s, x) <= s.len(),
        forall|i: int| 0 <= i < first_index(s, x) ==> s[i] != x,
        first_index(s, x) < s.len() ==> s[first_index(s, x) as int] == x,
    decreases s.len(),
{
    if s.len() == 0 || s[0] == x {
    } else {
        let t = s.drop_first();
        lemma_first_index_is(t, x);
        assert forall|i: int| 0 <= i < first_index(s, x) implies s[i] != x by {
            if i > 0 {
                assert(s[i] == t[i - 1]);
            }
        }
        assert(first_index(t, x) < t.len() ==> t[first_index(t, x) as int] == s[first_index(
            s,
            x,
        ) as int]);
    }
}

/// A position before which nothing is `x`, and which holds `x` or is the
/// length, is the first index.
pub proof fn lemma_first_index<T>(s: Seq<T>, x: T, k: int)
    requires
        0 <= k <= s.len(),
        forall|i: int| 0 <= i < k ==> s[i] != x,
        k < s.len() ==> s[k] == x,
    ensures
        first_index(s, x) == k,
    decreases s.len(),
{
    if s.len() == 0 || s[0] == x {
    } else {
        let t = s.drop_first();
        assert forall|i: int| 0 <= i < k - 1 implies t[i] != x by {
            assert(t[i] == s[i + 1]);
        }
        lemma_first_index(t, x, k - 1);
    }
}

/// A text without the separator is its own single part.
pub proof fn lemma_split_whole(s: Seq<char>, sep: char)
    requires
        forall|i: int| 0 <= i < s.len() ==> s[i] != sep,
    ensures
        split(s, sep) == seq![s],
{
    lemma_first_index(s, sep, s.len() as int);
}

/// A separator and a part without one, put behind a text, add that part to
/// the parts of the text.
pub proof fn lemma_split_append(a: Seq<char>, b: Seq<char>, sep: char)
    requires
        forall|i: int| 0 <= i < b.len() ==> b[i] != sep,
    ensures
        split(a + seq![sep] + b, sep) == split(a, sep).push(b),
    decreases a.len(),
{
    let whole = a + seq![sep] + b;
    let i = first_index(a, sep) as int;
    lemma_first_index_is(a, sep);
    assert forall|j: int| 0 <= j < i implies whole[j] != sep by {
        assert(whole[j] == a[j]);
    }
    if i >= a.len() {
        assert(whole[a.len() as int] == sep);
        lemma_first_index(whole, sep, a.len() as int);
        assert(whole.subrange(0, a.len() as int) =~= a);
        assert(whole.subrange(a.len() as int + 1, whole.len() as int) =~= b);
        lemma_split_whole(b, sep);
        assert(split(whole, sep) =~= seq![a] + seq![b]);
        assert(split(a, sep) =~= seq![a]);
        assert(split(a, sep).push(b) =~= seq![a] + seq![b]);
    } else {
        assert(whole[i] == a[i]);
        lemma_first_index(whole, sep, i);
        let rest = a.subrange(i + 1, a.len() as int);
        assert(whole.subrange(0, i) =~= a.subrange(0, i));
        assert(whole.subrange(i + 1, whole.len() as int) =~= rest + seq![sep] + b);
        lemma_split_append(rest, b, sep);
        assert(split(whole, sep) =~= seq![a.subrange(0, i)] + split(rest, sep).push(b));
        assert(split(a, sep) == seq![a.subrange(0, i)] + split(rest, sep));
        assert(split(a, sep).push(b) =~= seq![a.subrange(0, i)] + split(rest, sep).push(b));
    }
}

/// Parts without the separator, joined and split again, are the same parts.
pub proof fn lemma_split_join(parts: Seq<Seq<char>>, sep: char)
    requires
        parts.len() > 0,
        forall|k: int, i: int|
            0 <= k < parts.len() && 0 <= i < parts[k].len() ==> parts[k][i] != sep,
    ensures
        split(join(parts, sep), sep) == parts,
    decreases parts.len(),
{
    if parts.len() == 1 {
        lemma_split_whole(parts[0], sep);
        assert(seq![parts[0]] =~= parts);
    } else {
        let init = parts.drop_last();
        assert forall|k: int, i: int|
            0 <= k < init.len() && 0 <= i < init[k].len() implies init[k][i] != sep by {
            assert(init[k] == parts[k]);
        }
        lemma_split_join(init, sep);
        lemma_split_append(join(init, sep), parts.last(), sep);
        assert(init.push(parts.last()) =~= parts);
    }
}

/// Joined parts begin with the first part.
pub proof fn lemma_join_begins(parts: Seq<Seq<char>>, sep: char)
    requires
        parts.len() > 0,
    ensures
        parts[0].is_prefix_of(join(parts, sep)),
    decreases parts.len(),
{
    if parts.len() > 1 {
        let init = parts.drop_last();
        lemma_join_begins(init, sep);
        assert(init[0] == parts[0]);
        let whole = join(parts, sep);
        assert(whole.subrange(0, parts[0].len() as int) =~= join(init, sep).subrange(
            0,
            parts[0].len() as int,
        ));
    }
}

/// The characters of a string.
pub fn to_chars(s: &str) -> (r: Vec<char>)
    ensures
        r@ == s@,
{
    broadcast use {next_postcondition, axiom_spec_iter};

    let mut chars: Vec<char> = Vec::new();
    let mut it = s.chars();
    loop
        invariant
            chars@ + it.remaining() == s@,
            it.decrease() is Some,
        decreases it.decrease()->0,
    {
        let ghost before = it.remaining();
        match it.next() {
            Some(c) => {
                chars.push(c);
                assert(chars@ + it.remaining() =~= s@) by {
                    assert(before =~= seq![c] + before.drop_first());
                };
            },
            None => {
                assert(chars@ =~= s@);
                return chars;
            },
        }
    }
}

/// Whether the characters from `a` to `b` are those of `text`.
pub fn region_is(chars: &Vec<char>, a: usize, b: usize, text: &str) -> (r: bool)
    requires
        a <= b <= chars.len(),
    ensures
        r == (chars@.subrange(a as int, b as int) == text@),
{
    let n: usize = text.unicode_len();
    if b - a != n {
        return false;
    }
    let mut i: usize = 0;
    while i < n
        invariant
            i <= n,
            n == text@.len(),
            a + n == b,
            b <= chars.len(),
            forall|j: int| 0 <= j < i ==> chars@[a + j] == text@[j],
        decreases n - i,
    {
        if chars[a + i] != text.get_char(i) {
            assert(chars@.subrange(a as int, b as int)[i as int] != text@[i as int]);
            return false;
        }
        i = i + 1;
    }
    assert(chars@.subrange(a as int, b as int) =~= text@);
    true
}

/// Whether the characters begin with those of `text`.
pub fn starts_with(chars: &Vec<char>, text: &str) -> (r: bool)
    ensures
        r == text@.is_prefix_of(chars@),
        r ==> text@.len() <= chars.len(),
{
    let n: usize = text.unicode_len();
    if n > chars.len() {
        false
    } else {
        region_is(chars, 0, n, text)
    }
}

/// The position of the first `x` from `a` on and before `b`, or `b`.
pub fn find(chars: &Vec<char>, a: usize, b: usize, x: char) -> (r: usize)
    requires
        a <= b <= chars.len(),
    ensures
        a <= r <= b,
        r - a == first_index(chars@.subrange(a as int, b as int), x),
{
    let mut i: usize = a;
    while i < b && chars[i] != x
        invariant
            a <= i <= b,
            b <= chars.len(),
            forall|j: int| a <= j < i ==> chars@[j] != x,
        decreases b - i,
    {
        i = i + 1;
    }
    proof {
        lemma_first_index(chars@.subrange(a as int, b as int), x, i - a);
    }
    i
}

} // verus!
