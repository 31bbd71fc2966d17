use vstd::prelude::*;
use crate::text::{
    chars_of, find_either, first_of, lemma_first_of, occurs_at, split_char, split_on, views_of,
};

verus! {

/// One compiled unit of a pattern, as a value over characters.
pub enum TokenModel {
    /// Literal text that must occur exactly.
    Raw(Seq<char>),
    /// Literal alternatives, tried in order.
    OneOf(Seq<Seq<char>>),
    /// Any single character.
    Wild,
}

/// The tokens that the pattern `p` compiles to from index `i` on, or `None` when a
/// group opened there is never closed.
pub open spec fn parse_from(p: Seq<char>, i: int) -> Option<Seq<TokenModel>>
    decreases p.len() - i,
    via parse_from_decreases
{
    if i < 0 || i >= p.len() {
        Some(Seq::empty())
    } else if p[i] == '.' {
        match parse_from(p, i + 1) {
            Some(t) => Some(seq![TokenModel::Wild] + t),
            None => None,
        }
    } else if p[i] == '(' {
        let close = first_of(p, i + 1, ')', ')');
        if close >= p.len() {
            None
        } else {
            match parse_from(p, close + 1) {
                Some(t) => Some(seq![TokenModel::OneOf(split_on(p.subrange(i + 1, close), '|'))] + t),
                None => None,
            }
        }
    } else {
        let end = first_of(p, i, '.', '(');
        match parse_from(p, end) {
            Some(t) => Some(seq![TokenModel::Raw(p.subrange(i, end))] + t),
            None => None,
        }
    }
}

#[via_fn]
proof fn parse_from_decreases(p: Seq<char>, i: int) {
    if 0 <= i < p.len() {
        if p[i] == '(' {
            lemma_first_of(p, i + 1, ')', ')');
        } else if p[i] != '.' {
            lemma_first_of(p, i, '.', '(');
        }
    }
}

/// What compiling the whole pattern `p` gives.
pub open spec fn compile_pattern(p: Seq<char>) -> Option<Seq<TokenModel>> {
    parse_from(p, 0)
}

/// The first of `opts` that is a prefix of `rest`.
pub open spec fn first_prefix(opts: Seq<Seq<char>>, rest: Seq<char>) -> Option<Seq<char>>
    decreases opts.len(),
{
    if opts.len() == 0 {
        None
    } else if opts[0].is_prefix_of(rest) {
        Some(opts[0])
    } else {
        first_prefix(opts.drop_first(), rest)
    }
}

/// How many characters `tok` takes from the start of the non-empty `rest`, if it
/// matches there.
pub open spec fn token_match(tok: TokenModel, rest: Seq<char>) -> Option<nat> {
    match tok {
        TokenModel::Wild => Some(1),
        TokenModel::Raw(t) => if t.is_prefix_of(rest) {
            Some(t.len())
        } else {
            None
        },
        TokenModel::OneOf(opts) => match first_prefix(opts, rest) {
            Some(o) => Some(o.len()),
            None => None,
        },
    }
}

/// The spans of `inp` that one greedy pass of `toks` matches, one per matched
/// token, in order. The pass ends at the first token that does not match, or when
/// the input is used up.
pub open spec fn run(toks: Seq<TokenModel>, inp: Seq<char>) -> Seq<Seq<char>>
    decreases toks.len(),
{
    if toks.len() == 0 || inp.len() == 0 {
        Seq::empty()
    } else {
        match token_match(toks[0], inp) {
            Some(n) => seq![inp.take(n as int)] + run(toks.drop_first(), inp.skip(n as int)),
            None => Seq::empty(),
        }
    }
}


/// One compiled unit of a pattern; its text borrows from the pattern.
#[derive(Debug, PartialEq, Eq)]
pub enum MatcherToken<'a> {
    /// Text without anything special.
    RawText(&'a str),
    /// Text that may be any one of several strings, written `(one|two|three)`.
    OneOfText(Vec<&'a str>),
    /// Any single character, written `.`.
    WildCard,
}

impl<'a> View for MatcherToken<'a> {
    type V = TokenModel;

    open spec fn view(&self) -> TokenModel {
        match self {
            MatcherToken::RawText(t) => TokenModel::Raw(t@),
            MatcherToken::OneOfText(opts) => TokenModel::OneOf(views_of(opts@)),
            MatcherToken::WildCard => TokenModel::Wild,
        }
    }
}

/// The values that a sequence of tokens stands for.
pub open spec fn models_of<'a>(toks: Seq<MatcherToken<'a>>) -> Seq<TokenModel> {
    toks.map_values(|t: MatcherToken<'a>| t@)
}

/// A compiled pattern, with the most tokens that any match against it has matched.
#[derive(Debug, PartialEq, Eq)]
pub struct Matcher<'a> {
    text: &'a str,
    tokens: Vec<MatcherToken<'a>>,
    most_tokens_matched: usize,
}

impl<'a> Matcher<'a> {
    /// The pattern text.
    pub closed spec fn spec_text(&self) -> &'a str {
        self.text
    }

    /// The compiled tokens.
    pub closed spec fn spec_tokens(&self) -> Seq<MatcherToken<'a>> {
        self.tokens@
    }

    /// The most tokens matched by any call so far.
    pub closed spec fn spec_most(&self) -> nat {
        self.most_tokens_matched as nat
    }

    /// The tokens, as values.
    pub open spec fn model(&self) -> Seq<TokenModel> {
        models_of(self.spec_tokens())
    }

    /// The tokens are what the pattern compiles to.
    pub open spec fn wf(&self) -> bool {
        compile_pattern(self.spec_text()@) == Some(self.model())
    }

    /// Compiles `text`; `None` when a `(` has no `)` after it.
    pub fn new(text: &'a str) -> (r: Option<Matcher<'a>>)
        ensures
            compile_pattern(text@) is None <==> r is None,
            r matches Some(m) ==> {
                &&& m.wf()
                &&& m.spec_text() == text
                &&& compile_pattern(text@) == Some(m.model())
                &&& m.spec_most() == 0
            },
    {
        let cs = chars_of(text);
        let mut tokens: Vec<MatcherToken<'a>> = Vec::new();
        let mut i: usize = 0;
        while i < cs.len()
            invariant
                cs@ == text@,
                i <= cs.len(),
                parse_from(text@, 0) is None <==> parse_from(text@, i as int) is None,
                parse_from(text@, i as int) matches Some(rest) ==> parse_from(text@, 0) == Some(
                    models_of(tokens@) + rest,
                ),
            decreases cs.len() - i,
        {
            let ghost before = tokens@;
            let ghost p = text@;
            if cs[i] == '.' {
                tokens.push(MatcherToken::WildCard);
                assert(models_of(tokens@) =~= models_of(before) + seq![TokenModel::Wild]);
                i = i + 1;
            } else if cs[i] == '(' {
                let close = find_either(&cs, i + 1, ')', ')');
                proof {
                    lemma_first_of(p, i + 1, ')', ')');
                }
                if close == cs.len() {
                    return None;
                }
                let inner = text.substring_char(i + 1, close);
                let options = split_char(inner, '|');
                let ghost tok = MatcherToken::OneOfText(options);
                tokens.push(MatcherToken::OneOfText(options));
                assert(models_of(tokens@) =~= models_of(before) + seq![tok@]);
                i = close + 1;
            } else {
                let end = find_either(&cs, i, '.', '(');
                proof {
                    lemma_first_of(p, i as int, '.', '(');
                }
                let piece = text.substring_char(i, end);
                tokens.push(MatcherToken::RawText(piece));
                assert(models_of(tokens@) =~= models_of(before) + seq![TokenModel::Raw(piece@)]);
                i = end;
            }
            proof {
                if let Some(rest) = parse_from(p, i as int) {
                    assert(models_of(tokens@) + rest =~= models_of(before) + (seq![models_of(tokens@).last()] + rest));
                }
            }
        }
        assert(models_of(tokens@) + Seq::empty() =~= models_of(tokens@));
        Some(Matcher { text, tokens, most_tokens_matched: 0 })
    }

    /// The pattern text this matcher was compiled from.
    pub fn text(&self) -> (r: &'a str)
        ensures
            r == self.spec_text(),
    {
        self.text
    }

    /// The compiled tokens, in pattern order.
    pub fn tokens(&self) -> (r: &Vec<MatcherToken<'a>>)
        ensures
            r@ == self.spec_tokens(),
    {
        &self.tokens
    }

    /// The most tokens that any single match on this matcher has matched.
    pub fn most_tokens_matched(&self) -> (r: usize)
        ensures
            r == self.spec_most(),
    {
        self.most_tokens_matched
    }

    /// Runs one greedy pass of the tokens over `string`. Returns each matched
    /// token with the part of `string` it matched, and raises the count of the most
    /// tokens matched when this pass matched more.
    pub fn match_string<'b, 'c>(&'b mut self, string: &'c str) -> (r: Vec<
        (&'b MatcherToken<'a>, &'c str),
    >)
        ensures
            final(self).spec_text() == old(self).spec_text(),
            final(self).spec_tokens() == old(self).spec_tokens(),
            r.len() == run(old(self).model(), string@).len(),
            forall|i: int| 0 <= i < r.len() ==> *r@[i].0 == old(self).spec_tokens()[i],
            forall|i: int| 0 <= i < r.len() ==> r@[i].1@ == run(old(self).model(), string@)[i],
            r@.map_values(|e: (&MatcherToken<'a>, &str)| e.1@).flatten().is_prefix_of(string@),
            final(self).spec_most() == if r.len() > old(self).spec_most() {
                r.len() as nat
            } else {
                old(self).spec_most()
            },
    {
        let cs = chars_of(string);
        let mut answer: Vec<(&'b MatcherToken<'a>, &'c str)> = Vec::new();
        let tokens: &'b Vec<MatcherToken<'a>> = &self.tokens;
        let ghost toks = models_of(tokens@);
        let mut k: usize = 0;
        let mut pos: usize = 0;
        assert(toks.skip(0) =~= toks);
        assert(string@.skip(0) =~= string@);
        assert(answer@.map_values(|e: (&MatcherToken<'a>, &str)| e.1@) + run(toks, string@) =~= run(
            toks,
            string@,
        ));
        while k < tokens.len() && pos < cs.len()
            invariant
                cs@ == string@,
                toks == models_of(tokens@),
                k <= tokens.len(),
                pos <= cs.len(),
                answer.len() == k,
                forall|i: int| 0 <= i < k ==> *answer@[i].0 == tokens@[i],
                run(toks, string@) == answer@.map_values(|e: (&MatcherToken<'a>, &str)| e.1@) + run(
                    toks.skip(k as int),
                    string@.skip(pos as int),
                ),
            ensures
                answer.len() <= tokens.len(),
                forall|i: int| 0 <= i < answer.len() ==> *answer@[i].0 == tokens@[i],
                run(toks, string@) == answer@.map_values(|e: (&MatcherToken<'a>, &str)| e.1@),
            decreases tokens.len() - k,
        {
            let token = &tokens[k];
            let ghost rest = string@.skip(pos as int);
            let taken: Option<usize> = match token {
                MatcherToken::WildCard => Some(1),
                MatcherToken::RawText(text) => {
                    let tc = chars_of(text);
                    if occurs_at(&cs, pos, &tc) {
                        Some(tc.len())
                    } else {
                        None
                    }
                },
                MatcherToken::OneOfText(options) => first_option_at(options, &cs, pos),
            };
            assert(match taken {
                Some(n) => token_match(token@, rest) == Some(n as nat) && pos + n <= cs.len(),
                None => token_match(token@, rest) is None,
            });
            assert(toks.skip(k as int)[0] == token@);
            assert(toks.skip(k as int).drop_first() =~= toks.skip(k + 1));
            match taken {
                Some(n) => {
                    let piece = string.substring_char(pos, pos + n);
                    let ghost before = answer@;
                    answer.push((token, piece));
                    assert(answer@.map_values(|e: (&MatcherToken<'a>, &str)| e.1@) =~= before.map_values(
                        |e: (&MatcherToken<'a>, &str)| e.1@,
                    ) + seq![piece@]);
                    assert(rest.take(n as int) =~= piece@);
                    assert(rest.skip(n as int) =~= string@.skip(pos + n));
                    k = k + 1;
                    pos = pos + n;
                    if k == tokens.len() || pos == cs.len() {
                        let ghost done = answer@.map_values(|e: (&MatcherToken<'a>, &str)| e.1@);
                        assert(done + Seq::<Seq<char>>::empty() =~= done);
                    }
                },
                None => {
                    let ghost done = answer@.map_values(|e: (&MatcherToken<'a>, &str)| e.1@);
                    assert(done + Seq::<Seq<char>>::empty() =~= done);
                    break;
                },
            }
        }
        proof {
            lemma_run_contiguous(toks, string@);
        }
        if answer.len() > self.most_tokens_matched {
            self.most_tokens_matched = answer.len();
        }
        answer
    }
}

/// The spans that a pass matches are adjacent and in order: joined, they are a
/// prefix of the input.
pub proof fn lemma_run_contiguous(toks: Seq<TokenModel>, inp: Seq<char>)
    ensures
        run(toks, inp).flatten().is_prefix_of(inp),
    decreases toks.len(),
{
    if toks.len() > 0 && inp.len() > 0 {
        if let Some(n) = token_match(toks[0], inp) {
            lemma_token_match_fits(toks[0], inp);
            let tail = run(toks.drop_first(), inp.skip(n as int));
            lemma_run_contiguous(toks.drop_first(), inp.skip(n as int));
            let spans = run(toks, inp);
            assert(spans.drop_first() =~= tail);
            assert(spans.flatten() =~= inp.take(n as int) + tail.flatten());
            assert(inp =~= inp.take(n as int) + inp.skip(n as int));
        }
    }
    if run(toks, inp).len() == 0 {
        assert(run(toks, inp).flatten() =~= Seq::<char>::empty());
    }
}

/// Why a pattern does not compile.
#[derive(Debug, Clone, Copy, PartialEq, Eq)]
pub enum CompileError {
    /// A `(` with no `)` after it.
    UnterminatedGroup,
}

/// Compiles `pattern` into a matcher whose count of matched tokens starts at 0.
pub fn compile<'a>(pattern: &'a str) -> (r: Result<Matcher<'a>, CompileError>)
    ensures
        compile_pattern(pattern@) is None <==> r == Err::<Matcher<'a>, CompileError>(
            CompileError::UnterminatedGroup,
        ),
        r matches Ok(m) ==> {
            &&& m.wf()
            &&& m.spec_text() == pattern
            &&& compile_pattern(pattern@) == Some(m.model())
            &&& m.spec_most() == 0
        },
{
    match Matcher::new(pattern) {
        Some(m) => Ok(m),
        None => Err(CompileError::UnterminatedGroup),
    }
}

/// The first alternative that is a prefix of the input is one of the alternatives
/// and a prefix of the input.
proof fn lemma_first_prefix(opts: Seq<Seq<char>>, rest: Seq<char>)
    ensures
        first_prefix(opts, rest) matches Some(o) ==> o.is_prefix_of(rest),
    decreases opts.len(),
{
    if opts.len() > 0 && !opts[0].is_prefix_of(rest) {
        lemma_first_prefix(opts.drop_first(), rest);
    }
}

/// A token never takes more characters than the non-empty input holds.
proof fn lemma_token_match_fits(tok: TokenModel, rest: Seq<char>)
    requires
        rest.len() > 0,
    ensures
        token_match(tok, rest) matches Some(n) ==> n <= rest.len(),
{
    if let TokenModel::OneOf(opts) = tok {
        lemma_first_prefix(opts, rest);
    }
}

/// The empty pattern compiles to no tokens, and no tokens match nothing of any
/// input.
pub proof fn lemma_empty_pattern(inp: Seq<char>)
    ensures
        compile_pattern(Seq::empty()) == Some(Seq::<TokenModel>::empty()),
        run(Seq::empty(), inp) == Seq::<Seq<char>>::empty(),
{
}

/// A wildcard takes exactly the first character of a non-empty input, however many
/// bytes that character has.
pub proof fn lemma_wildcard_one_char(inp: Seq<char>)
    requires
        inp.len() > 0,
    ensures
        run(seq![TokenModel::Wild], inp) == seq![seq![inp[0]]],
{
    let toks = seq![TokenModel::Wild];
    assert(toks.drop_first() =~= Seq::<TokenModel>::empty());
    assert(inp.take(1) =~= seq![inp[0]]);
    assert(run(toks, inp) =~= seq![inp.take(1)] + run(Seq::empty(), inp.skip(1)));
    assert(seq![inp.take(1)] + Seq::<Seq<char>>::empty() =~= seq![seq![inp[0]]]);
}

/// The length of the first of `options` that occurs in `cs` at `pos`.
fn first_option_at(options: &Vec<&str>, cs: &Vec<char>, pos: usize) -> (r: Option<usize>)
    requires
        pos <= cs.len(),
    ensures
        r matches Some(n) ==> pos + n <= cs.len(),
        r is None <==> first_prefix(views_of(options@), cs@.skip(pos as int)) is None,
        r matches Some(n) ==> first_prefix(views_of(options@), cs@.skip(pos as int)) matches Some(o)
            && o.len() == n,
{
    let ghost opts = views_of(options@);
    let ghost rest = cs@.skip(pos as int);
    let mut j: usize = 0;
    assert(opts.skip(0) =~= opts);
    while j < options.len()
        invariant
            j <= options.len(),
            opts == views_of(options@),
            rest == cs@.skip(pos as int),
            pos <= cs.len(),
            first_prefix(opts, rest) == first_prefix(opts.skip(j as int), rest),
        decreases options.len() - j,
    {
        let oc = chars_of(options[j]);
        assert(opts.skip(j as int)[0] == oc@);
        assert(opts.skip(j as int).drop_first() =~= opts.skip(j + 1));
        if occurs_at(cs, pos, &oc) {
            return Some(oc.len());
        }
        j = j + 1;
    }
    None
}

} // verus!
