use vstd::prelude::*;
use crate::text::{chars_of, split_char, split_on, views_of};

verus! {

/// `a` sorts strictly before `b`, character by character, a proper prefix first.
/// On strings this is the order of their UTF-8 bytes.
pub open spec fn lex_lt(a: Seq<char>, b: Seq<char>) -> bool
    decreases a.len(),
{
    if a.len() == 0 {
        b.len() > 0
    } else if b.len() == 0 {
        false
    } else if a[0] != b[0] {
        a[0] < b[0]
    } else {
        lex_lt(a.drop_first(), b.drop_first())
    }
}

/// Of two different sequences exactly one sorts before the other.
proof fn lemma_lex_total(a: Seq<char>, b: Seq<char>)
    ensures
        a != b ==> lex_lt(a, b) || lex_lt(b, a),
        !(lex_lt(a, b) && lex_lt(b, a)),
    decreases a.len(),
{
    if a.len() > 0 && b.len() > 0 {
        lemma_lex_total(a.drop_first(), b.drop_first());
        if a[0] == b[0] && a.drop_first() == b.drop_first() {
            assert(a =~= seq![a[0]] + a.drop_first());
            assert(b =~= seq![b[0]] + b.drop_first());
        }
    } else if a.len() == 0 && b.len() == 0 {
        assert(a =~= b);
    }
}

/// The order is transitive.
proof fn lemma_lex_transitive(a: Seq<char>, b: Seq<char>, c: Seq<char>)
    requires
        lex_lt(a, b),
        lex_lt(b, c),
    ensures
        lex_lt(a, c),
    decreases a.len(),
{
    if a.len() > 0 && b.len() > 0 && c.len() > 0 && a[0] == b[0] && b[0] == c[0] {
        lemma_lex_transitive(a.drop_first(), b.drop_first(), c.drop_first());
    }
}

/// Each element of `s` sorts strictly before every later one.
pub open spec fn strictly_sorted(s: Seq<Seq<char>>) -> bool {
    forall|i: int, j: int| 0 <= i < j < s.len() ==> lex_lt(s[i], s[j])
}

/// Tells whether `a` sorts strictly before `b`.
pub fn lex_less(a: &Vec<char>, b: &Vec<char>) -> (r: bool)
    ensures
        r == lex_lt(a@, b@),
{
    let mut i: usize = 0;
    assert(a@.skip(0) =~= a@ && b@.skip(0) =~= b@);
    while i < a.len() && i < b.len() && a[i] == b[i]
        invariant
            i <= a.len(),
            i <= b.len(),
            lex_lt(a@, b@) == lex_lt(a@.skip(i as int), b@.skip(i as int)),
        decreases a.len() - i,
    {
        assert(a@.skip(i as int).drop_first() =~= a@.skip(i + 1));
        assert(b@.skip(i as int).drop_first() =~= b@.skip(i + 1));
        i = i + 1;
    }
    if i == a.len() {
        i < b.len()
    } else if i == b.len() {
        false
    } else {
        a[i] < b[i]
    }
}

/// Tells whether `a` and `b` hold the same characters.
pub fn same_chars(a: &Vec<char>, b: &Vec<char>) -> (r: bool)
    ensures
        r == (a@ == b@),
{
    if a.len() != b.len() {
        return false;
    }
    let mut i: usize = 0;
    while i < a.len()
        invariant
            a.len() == b.len(),
            i <= a.len(),
            forall|k: int| 0 <= k < i ==> a@[k] == b@[k],
        decreases a.len() - i,
    {
        if a[i] != b[i] {
            return false;
        }
        i = i + 1;
    }
    assert(a@ =~= b@);
    true
}

/// The character sequences held by a vector of character vectors.
pub open spec fn char_views(v: Seq<Vec<char>>) -> Seq<Seq<char>> {
    v.map_values(|c: Vec<char>| c@)
}

/// Inserting an element at the place where it belongs keeps a sequence sorted
/// and adds just that element.
proof fn lemma_sorted_insert(v: Seq<Seq<char>>, p: int, x: Seq<char>)
    requires
        strictly_sorted(v),
        0 <= p <= v.len(),
        forall|k: int| 0 <= k < p ==> lex_lt(v[k], x),
        forall|k: int| p <= k < v.len() ==> lex_lt(x, v[k]),
    ensures
        strictly_sorted(v.insert(p, x)),
        forall|y: Seq<char>| v.insert(p, x).contains(y) <==> (v.contains(y) || y == x),
{
    let w = v.insert(p, x);
    assert forall|i: int, j: int| 0 <= i < j < w.len() implies lex_lt(w[i], w[j]) by {
        if i < p && j > p {
            assert(w[j] == v[j - 1]);
        } else if i > p {
            assert(w[i] == v[i - 1] && w[j] == v[j - 1]);
        }
    }
    assert forall|y: Seq<char>| w.contains(y) <==> (v.contains(y) || y == x) by {
        if w.contains(y) {
            let i = choose|i: int| 0 <= i < w.len() && w[i] == y;
            if i < p {
                assert(v[i] == y);
            } else if i > p {
                assert(v[i - 1] == y);
            }
        }
        if v.contains(y) {
            let i = choose|i: int| 0 <= i < v.len() && v[i] == y;
            if i < p {
                assert(w[i] == y);
            } else {
                assert(w[i + 1] == y);
            }
        }
        if y == x {
            assert(w[p] == y);
        }
    }
}

/// Adds `w` to the sorted `r` unless it holds it already; `rc` holds the
/// characters of each element of `r`.
fn insert_sorted<'x>(r: &mut Vec<&'x str>, rc: &mut Vec<Vec<char>>, w: &'x str, wc: Vec<char>)
    requires
        wc@ == w@,
        char_views(old(rc)@) == views_of(old(r)@),
        strictly_sorted(views_of(old(r)@)),
    ensures
        char_views(final(rc)@) == views_of(final(r)@),
        strictly_sorted(views_of(final(r)@)),
        views_of(final(r)@).to_set() == views_of(old(r)@).to_set().insert(w@),
{
    let ghost v = views_of(r@);
    assert(char_views(rc@).len() == rc.len() && v.len() == r.len());
    let mut p: usize = 0;
    while p < rc.len() && lex_less(&rc[p], &wc)
        invariant
            p <= rc.len(),
            rc.len() == r.len(),
            v == views_of(r@),
            char_views(rc@) == v,
            forall|k: int| 0 <= k < p ==> lex_lt(v[k], wc@),
        decreases rc.len() - p,
    {
        assert(v[p as int] == rc@[p as int]@);
        p = p + 1;
    }
    assert(rc.len() == v.len());
    let present = p < rc.len() && same_chars(&rc[p], &wc);
    if present {
        assert(v[p as int] == rc@[p as int]@);
        assert(v.contains(w@));
        assert(views_of(r@).to_set() =~= v.to_set().insert(w@));
    } else {
        proof {
            if p < rc.len() {
                assert(v[p as int] == rc@[p as int]@);
                lemma_lex_total(v[p as int], wc@);
                assert forall|k: int| p <= k < v.len() implies lex_lt(wc@, v[k]) by {
                    if k > p {
                        lemma_lex_transitive(wc@, v[p as int], v[k]);
                    }
                }
            }
            lemma_sorted_insert(v, p as int, w@);
        }
        r.insert(p, w);
        rc.insert(p, wc);
        assert(views_of(r@) =~= v.insert(p as int, w@));
        assert(char_views(rc@) =~= v.insert(p as int, w@));
        let ghost nv = views_of(r@);
        assert forall|y: Seq<char>| nv.to_set().contains(y) <==> v.to_set().insert(w@).contains(y) by {
            assert(nv == v.insert(p as int, w@));
            assert(nv.contains(y) <==> (v.contains(y) || y == w@));
        }
        assert(nv.to_set() =~= v.to_set().insert(w@));
    }
}

/// Tells whether one of `list` holds the same characters as `w`.
fn holds_chars(list: &Vec<Vec<char>>, w: &Vec<char>) -> (r: bool)
    ensures
        r == char_views(list@).contains(w@),
{
    let mut i: usize = 0;
    while i < list.len()
        invariant
            i <= list.len(),
            forall|k: int| 0 <= k < i ==> list@[k]@ != w@,
        decreases list.len() - i,
    {
        if same_chars(&list[i], w) {
            assert(char_views(list@)[i as int] == w@);
            return true;
        }
        i = i + 1;
    }
    false
}

/// The distinct elements of `mine` that are not among `others`, sorted.
fn only_in<'x>(mine: &Vec<&'x str>, others: &Vec<&str>) -> (r: Vec<&'x str>)
    ensures
        strictly_sorted(views_of(r@)),
        forall|x: Seq<char>| views_of(r@).contains(x) <==> (views_of(mine@).contains(x)
            && !views_of(others@).contains(x)),
{
    let mut oc: Vec<Vec<char>> = Vec::new();
    let mut i: usize = 0;
    while i < others.len()
        invariant
            i <= others.len(),
            oc.len() == i,
            forall|k: int| 0 <= k < i ==> oc@[k]@ == others@[k]@,
        decreases others.len() - i,
    {
        let c = chars_of(others[i]);
        assert(c@ == others@[i as int]@);
        oc.push(c);
        i = i + 1;
    }
    assert(char_views(oc@) =~= views_of(others@));
    let mut r: Vec<&'x str> = Vec::new();
    let mut rc: Vec<Vec<char>> = Vec::new();
    let mut j: usize = 0;
    assert(char_views(rc@) =~= views_of(r@));
    while j < mine.len()
        invariant
            j <= mine.len(),
            char_views(oc@) == views_of(others@),
            char_views(rc@) == views_of(r@),
            strictly_sorted(views_of(r@)),
            forall|x: Seq<char>| views_of(r@).contains(x) <==> (views_of(mine@.take(j as int)).contains(x)
                && !views_of(others@).contains(x)),
        decreases mine.len() - j,
    {
        let wc = chars_of(mine[j]);
        let ghost seen = views_of(mine@.take(j as int));
        assert(views_of(mine@.take(j + 1)) =~= seen.push(mine@[j as int]@));
        let ghost before = views_of(r@);
        if !holds_chars(&oc, &wc) {
            insert_sorted(&mut r, &mut rc, mine[j], wc);
            assert(forall|x: Seq<char>| #[trigger] views_of(r@).contains(x) <==> views_of(r@).to_set().contains(x));
            assert(forall|x: Seq<char>| #[trigger] before.contains(x) <==> before.to_set().contains(x));
        }
        assert forall|x: Seq<char>| views_of(mine@.take(j + 1)).contains(x) <==> (seen.contains(x)
            || x == mine@[j as int]@) by {
            let s2 = seen.push(mine@[j as int]@);
            if s2.contains(x) {
                let k = choose|k: int| 0 <= k < s2.len() && s2[k] == x;
                if k < seen.len() {
                    assert(seen[k] == x);
                }
            }
            if seen.contains(x) {
                let k = choose|k: int| 0 <= k < seen.len() && seen[k] == x;
                assert(s2[k] == x);
            }
            if x == mine@[j as int]@ {
                assert(s2[seen.len() as int] == x);
            }
        }
        j = j + 1;
    }
    assert(mine@.take(mine.len() as int) =~= mine@);
    r
}

/// The words that occur in only one of two sentences.
#[derive(Debug, Default)]
pub struct Difference<'first, 'second> {
    /// Words of the first sentence that the second lacks, sorted, each once.
    pub first_only: Vec<&'first str>,
    /// Words of the second sentence that the first lacks, sorted, each once.
    pub second_only: Vec<&'second str>,
}

/// The words of `s`: its pieces between single spaces.
pub open spec fn words_of(s: Seq<char>) -> Seq<Seq<char>> {
    split_on(s, ' ')
}

/// Finds the words, split on single spaces, that occur in one sentence and not in
/// the other; each list is sorted and holds each word once.
pub fn find_difference<'fst, 'snd>(sentence1: &'fst str, sentence2: &'snd str) -> (r: Difference<
    'fst,
    'snd,
>)
    ensures
        strictly_sorted(views_of(r.first_only@)),
        strictly_sorted(views_of(r.second_only@)),
        forall|x: Seq<char>| views_of(r.first_only@).contains(x) <==> (words_of(sentence1@).contains(x)
            && !words_of(sentence2@).contains(x)),
        forall|x: Seq<char>| views_of(r.second_only@).contains(x) <==> (words_of(sentence2@).contains(x)
            && !words_of(sentence1@).contains(x)),
{
    let words1 = split_char(sentence1, ' ');
    let words2 = split_char(sentence2, ' ');
    Difference { first_only: only_in(&words1, &words2), second_only: only_in(&words2, &words1) }
}

/// Tells whether `c` is one of `v`.
fn holds_char(v: &Vec<char>, c: char) -> (r: bool)
    ensures
        r == v@.contains(c),
{
    let mut i: usize = 0;
    while i < v.len()
        invariant
            i <= v.len(),
            forall|k: int| 0 <= k < i ==> v@[k] != c,
        decreases v.len() - i,
    {
        if v[i] == c {
            return true;
        }
        i = i + 1;
    }
    false
}

/// How many distinct characters occur in both strings.
pub fn count_shared_letters(string1: &str, string2: &str) -> (r: usize)
    ensures
        r == string1@.to_set().intersect(string2@.to_set()).len(),
{
    let c1 = chars_of(string1);
    let c2 = chars_of(string2);
    let mut common: Vec<char> = Vec::new();
    let mut i: usize = 0;
    while i < c1.len()
        invariant
            c1@ == string1@,
            c2@ == string2@,
            i <= c1.len(),
            common@.no_duplicates(),
            forall|c: char| common@.contains(c) <==> (c1@.take(i as int).contains(c) && c2@.contains(c)),
        decreases c1.len() - i,
    {
        let c = c1[i];
        let ghost before = common@;
        let ghost seen = c1@.take(i as int);
        assert(c1@.take(i + 1) =~= seen.push(c));
        let in_second = holds_char(&c2, c);
        let already = holds_char(&common, c);
        if in_second && !already {
            common.push(c);
            assert forall|x: char| common@.contains(x) <==> (before.contains(x) || x == c) by {
                if common@.contains(x) {
                    let k = choose|k: int| 0 <= k < common@.len() && common@[k] == x;
                    if k < before.len() {
                        assert(before[k] == x);
                    }
                }
                if before.contains(x) {
                    let k = choose|k: int| 0 <= k < before.len() && before[k] == x;
                    assert(common@[k] == x);
                }
                if x == c {
                    assert(common@[before.len() as int] == x);
                }
            }
        }
        assert forall|x: char| c1@.take(i + 1).contains(x) <==> (seen.contains(x) || x == c) by {
            let s2 = seen.push(c);
            if s2.contains(x) {
                let k = choose|k: int| 0 <= k < s2.len() && s2[k] == x;
                if k < seen.len() {
                    assert(seen[k] == x);
                }
            }
            if seen.contains(x) {
                let k = choose|k: int| 0 <= k < seen.len() && seen[k] == x;
                assert(s2[k] == x);
            }
            if x == c {
                assert(s2[seen.len() as int] == x);
            }
        }
        assert forall|x: char| common@.contains(x) <==> (c1@.take(i + 1).contains(x) && c2@.contains(
            x,
        )) by {
            assert(before.contains(x) <==> (seen.contains(x) && c2@.contains(x)));
            assert(c1@.take(i + 1).contains(x) <==> (seen.contains(x) || x == c));
            if !(in_second && !already) {
                assert(common@ == before);
            }
        }
        i = i + 1;
    }
    assert(c1@.take(c1.len() as int) =~= c1@);
    proof {
        common@.unique_seq_to_set();
        assert(common@.to_set() =~= string1@.to_set().intersect(string2@.to_set()));
    }
    common.len()
}

/// The distinct words of a sentence.
pub struct UniqueWords<'a> {
    sentence: &'a str,
    unique_words: Vec<&'a str>,
}

impl<'a> UniqueWords<'a> {
    /// The sentence.
    pub closed spec fn spec_sentence(&self) -> &'a str {
        self.sentence
    }

    /// Its distinct words, in order of first occurrence.
    pub closed spec fn spec_unique_words(&self) -> Seq<&'a str> {
        self.unique_words@
    }

    /// Each word of the sentence is held once, and nothing else is.
    pub open spec fn wf(&self) -> bool {
        &&& views_of(self.spec_unique_words()).no_duplicates()
        &&& forall|x: Seq<char>| views_of(self.spec_unique_words()).contains(x)
            <==> words_of(self.spec_sentence()@).contains(x)
    }

    /// Splits `sentence` on single spaces and keeps each word once, in order of
    /// first occurrence.
    pub fn new(sentence: &'a str) -> (r: UniqueWords<'a>)
        ensures
            r.wf(),
            r.spec_sentence() == sentence,
    {
        let words = split_char(sentence, ' ');
        let mut unique_words: Vec<&'a str> = Vec::new();
        let mut uc: Vec<Vec<char>> = Vec::new();
        let mut i: usize = 0;
        while i < words.len()
            invariant
                i <= words.len(),
                views_of(words@) == words_of(sentence@),
                char_views(uc@) == views_of(unique_words@),
                views_of(unique_words@).no_duplicates(),
                forall|x: Seq<char>| views_of(unique_words@).contains(x) <==> views_of(
                    words@.take(i as int),
                ).contains(x),
            decreases words.len() - i,
        {
            let wc = chars_of(words[i]);
            let ghost seen = views_of(words@.take(i as int));
            let ghost before = views_of(unique_words@);
            let ghost w = words@[i as int]@;
            assert(views_of(words@.take(i + 1)) =~= seen.push(w));
            if !holds_chars(&uc, &wc) {
                unique_words.push(words[i]);
                uc.push(wc);
                assert(views_of(unique_words@) =~= before.push(w));
                assert(char_views(uc@) =~= before.push(w));
                assert forall|a: int, b: int|
                    0 <= a < b < before.push(w).len() implies before.push(w)[a] != before.push(w)[b] by {
                    if b == before.len() {
                        assert(before.contains(before[a]));
                    }
                }
            }
            assert forall|x: Seq<char>| views_of(unique_words@).contains(x) <==> seen.push(w).contains(x) by {
                let now = views_of(unique_words@);
                let s2 = seen.push(w);
                if s2.contains(x) {
                    let k = choose|k: int| 0 <= k < s2.len() && s2[k] == x;
                    if k < seen.len() {
                        assert(seen[k] == x);
                        assert(before.contains(x));
                        let j = choose|j: int| 0 <= j < before.len() && before[j] == x;
                        assert(now[j] == x);
                    } else if now.len() > before.len() {
                        assert(now[before.len() as int] == x);
                    }
                }
                if now.contains(x) {
                    let k = choose|k: int| 0 <= k < now.len() && now[k] == x;
                    if k < before.len() {
                        assert(before[k] == x);
                        assert(before.contains(x));
                        let j = choose|j: int| 0 <= j < seen.len() && seen[j] == x;
                        assert(s2[j] == x);
                    } else {
                        assert(s2[seen.len() as int] == x);
                    }
                }
            }
            i = i + 1;
        }
        assert(words@.take(words.len() as int) =~= words@);
        UniqueWords { sentence, unique_words }
    }

    /// The sentence.
    pub fn sentence(&self) -> (r: &'a str)
        ensures
            r == self.spec_sentence(),
    {
        self.sentence
    }

    /// The distinct words, sorted.
    pub fn get_sorted_words<'b>(&'b self) -> (r: Vec<&'a str>)
        requires
            self.wf(),
        ensures
            strictly_sorted(views_of(r@)),
            forall|x: Seq<char>| views_of(r@).contains(x) <==> words_of(self.spec_sentence()@).contains(x),
    {
        let none: Vec<&str> = Vec::new();
        assert(views_of(none@) =~= Seq::<Seq<char>>::empty());
        only_in(&self.unique_words, &none)
    }
}

} // verus!
