use vstd::prelude::*;
use vstd::std_specs::iter::IteratorSpec;

verus! {

/// Index of the first character of `s` at or after `i` that equals `a` or `b`;
/// `s.len()` when there is none.
pub open spec fn first_of(s: Seq<char>, i: int, a: char, b: char) -> int
    decreases s.len() - i,
{
    if 0 <= i < s.len() && s[i] != a && s[i] != b {
        first_of(s, i + 1, a, b)
    } else {
        i
    }
}

/// `first_of` lies between `i` and the length, skips only characters other than
/// `a` and `b`, and stops on one of them unless it reached the end.
pub proof fn lemma_first_of(s: Seq<char>, i: int, a: char, b: char)
    requires
        0 <= i <= s.len(),
    ensures
        i <= first_of(s, i, a, b) <= s.len(),
        forall|j: int| i <= j < first_of(s, i, a, b) ==> s[j] != a && s[j] != b,
        first_of(s, i, a, b) < s.len() ==> (s[first_of(s, i, a, b)] == a || s[first_of(s, i, a, b)] == b),
    decreases s.len() - i,
{
    if i < s.len() && s[i] != a && s[i] != b {
        lemma_first_of(s, i + 1, a, b);
    }
}

/// The pieces of `s` from index `i` on, cut at every occurrence of `sep`.
pub open spec fn split_from(s: Seq<char>, i: int, sep: char) -> Seq<Seq<char>>
    decreases s.len() - i,
    via split_from_decreases
{
    let k = first_of(s, i, sep, sep);
    if 0 <= i && k < s.len() {
        seq![s.subrange(i, k)] + split_from(s, k + 1, sep)
    } else {
        seq![s.subrange(i, s.len() as int)]
    }
}

#[via_fn]
proof fn split_from_decreases(s: Seq<char>, i: int, sep: char) {
    if 0 <= i && first_of(s, i, sep, sep) < s.len() {
        lemma_first_of(s, i, sep, sep);
    }
}

/// `s` cut at every occurrence of `sep`: the pieces between separators, in order,
/// empty pieces included. There is always at least one piece.
pub open spec fn split_on(s: Seq<char>, sep: char) -> Seq<Seq<char>> {
    split_from(s, 0, sep)
}

/// The character sequences that a sequence of string slices stands for.
pub open spec fn views_of(v: Seq<&str>) -> Seq<Seq<char>> {
    v.map_values(|x: &str| x@)
}

/// Copies the characters of `s` into a vector, one Unicode scalar value per element.
pub fn chars_of(s: &str) -> (r: Vec<char>)
    ensures
        r@ == s@,
{
    let mut r: Vec<char> = Vec::new();
    for c in it: s.chars()
        invariant
            it.seq() == s@,
            r@ == it.seq().take(it.index() as int),
    {
        r.push(c);
    }
    r
}

/// Finds the first index at or after `from` that holds `a` or `b`.
pub fn find_either(s: &Vec<char>, from: usize, a: char, b: char) -> (r: usize)
    requires
        from <= s.len(),
    ensures
        r == first_of(s@, from as int, a, b),
{
    let mut i = from;
    while i < s.len() && s[i] != a && s[i] != b
        invariant
            from <= i <= s.len(),
            first_of(s@, i as int, a, b) == first_of(s@, from as int, a, b),
        decreases s.len() - i,
    {
        i = i + 1;
    }
    i
}

/// Tells whether `pat` occurs in `s` starting at index `pos`.
pub fn occurs_at(s: &Vec<char>, pos: usize, pat: &Vec<char>) -> (r: bool)
    requires
        pos <= s.len(),
    ensures
        r == pat@.is_prefix_of(s@.skip(pos as int)),
{
    if pat.len() > s.len() - pos {
        return false;
    }
    let mut j: usize = 0;
    while j < pat.len()
        invariant
            pos <= s.len(),
            pat.len() <= s.len() - pos,
            j <= pat.len(),
            forall|k: int| 0 <= k < j ==> pat@[k] == s@[pos + k],
        decreases pat.len() - j,
    {
        if pat[j] != s[pos + j] {
            assert(pat@[j as int] != s@.skip(pos as int)[j as int]);
            return false;
        }
        j = j + 1;
    }
    assert(pat@ =~= s@.skip(pos as int).subrange(0, pat@.len() as int));
    true
}

/// Cuts `s` at every occurrence of `sep`, as slices of `s`.
pub fn split_char<'a>(s: &'a str, sep: char) -> (r: Vec<&'a str>)
    ensures
        views_of(r@) == split_on(s@, sep),
{
    let cs = chars_of(s);
    let mut r: Vec<&'a str> = Vec::new();
    let mut start: usize = 0;
    loop
        invariant
            cs@ == s@,
            start <= cs.len(),
            split_on(s@, sep) == views_of(r@) + split_from(s@, start as int, sep),
        decreases cs.len() - start,
    {
        let k = find_either(&cs, start, sep, sep);
        proof {
            lemma_first_of(s@, start as int, sep, sep);
        }
        let piece = s.substring_char(start, k);
        r.push(piece);
        assert(views_of(r@) =~= views_of(r@.drop_last()) + seq![piece@]);
        if k == cs.len() {
            assert(split_from(s@, start as int, sep) == seq![piece@]);
            assert(views_of(r@) =~= views_of(r@.drop_last()) + split_from(s@, start as int, sep));
            return r;
        }
        start = k + 1;
    }
}

} // verus!
