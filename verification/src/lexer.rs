//! A lexer over a slice of characters: numbers, words and single ASCII punctuation marks.
use vstd::prelude::*;

use crate::chars::{
    is_alphanumeric, is_ascii_punctuation, is_ascii_whitespace, is_numeric,
    spec_ascii_punctuation, spec_ascii_whitespace, unicode_alphanumeric, unicode_numeric,
};

verus! {

/// A source of document text, such as a file on disk.
pub trait IntoText {
    /// The whole text of the document, or `None` when it cannot be read.
    fn into_text(&mut self) -> Option<String>;

    /// The path of the document.
    fn get_path(&self) -> &str;
}

/// `s` without its leading ASCII whitespace.
pub open spec fn trim_spec(s: Seq<char>) -> Seq<char>
    decreases s.len(),
{
    if s.len() > 0 && spec_ascii_whitespace(s[0]) {
        trim_spec(s.drop_first())
    } else {
        s
    }
}

/// The length of the longest prefix of `s` all of whose characters satisfy `p`.
pub open spec fn prefix_len(s: Seq<char>, p: spec_fn(char) -> bool) -> nat
    decreases s.len(),
{
    if s.len() > 0 && p(s[0]) {
        1 + prefix_len(s.drop_first(), p)
    } else {
        0
    }
}

/// The prefix is no longer than `s`, and is not empty when the first character satisfies `p`.
pub proof fn lemma_prefix_len_bound(s: Seq<char>, p: spec_fn(char) -> bool)
    ensures
        prefix_len(s, p) <= s.len(),
        s.len() > 0 && p(s[0]) ==> prefix_len(s, p) > 0,
    decreases s.len(),
{
    if s.len() > 0 && p(s[0]) {
        lemma_prefix_len_bound(s.drop_first(), p);
    }
}

/// What `cut(n)` does to the content `s`: the token taken and the content left.
/// Nothing is taken unless `n` is below the length of `s`.
pub open spec fn cut_spec(s: Seq<char>, n: int) -> (Option<Seq<char>>, Seq<char>) {
    if n >= s.len() {
        (None, s)
    } else {
        (Some(s.take(n)), s.skip(n))
    }
}

/// `at` accepts the first `n` characters of `s`, and rejects the next one if there is one.
pub open spec fn accepted_prefix<F: FnMut(&char) -> bool>(at: F, s: Seq<char>, n: int) -> bool {
    &&& 0 <= n <= s.len()
    &&& forall|i: int| 0 <= i < n ==> call_ensures(at, (&s[i],), true)
    &&& n < s.len() ==> call_ensures(at, (&s[n],), false)
}

/// The characters of an optional token.
pub open spec fn slice_view(r: Option<&[char]>) -> Option<Seq<char>> {
    match r {
        Some(tok) => Some(tok@),
        None => None,
    }
}

/// The characters of each slice of a sequence.
pub open spec fn slices_view(v: Seq<&[char]>) -> Seq<Seq<char>> {
    v.map_values(|t: &[char]| t@)
}

/// The lexer finds no token in the trimmed content `t`: it is empty, or starts with a
/// character that is neither alphanumeric nor ASCII punctuation, or starts a number (when
/// the first character is numeric) or word (otherwise) that runs to the end of `t`.
pub open spec fn stops(t: Seq<char>) -> bool {
    ||| t.len() == 0
    ||| !(unicode_alphanumeric(t[0]) || spec_ascii_punctuation(t[0]))
    ||| unicode_alphanumeric(t[0]) && (if unicode_numeric(t[0]) {
        prefix_len(t, |c: char| unicode_numeric(c))
    } else {
        prefix_len(t, |c: char| unicode_alphanumeric(c))
    }) >= t.len()
}

/// One step of the lexer on the content `s`: the token it returns and the content left.
pub open spec fn next_token_spec(s: Seq<char>) -> (Option<Seq<char>>, Seq<char>) {
    let t = trim_spec(s);
    if t.len() == 0 {
        (None, t)
    } else if unicode_numeric(t[0]) {
        cut_spec(t, prefix_len(t, |c: char| unicode_numeric(c)) as int)
    } else if unicode_alphanumeric(t[0]) {
        cut_spec(t, prefix_len(t, |c: char| unicode_alphanumeric(c)) as int)
    } else if spec_ascii_punctuation(t[0]) {
        (Some(t.take(1)), t.skip(1))
    } else {
        (None, t)
    }
}

/// The tokens that repeated calls of `next_token` return on the content `s`, up to the
/// first `None`.
pub open spec fn tokens_spec(s: Seq<char>) -> Seq<Seq<char>>
    decreases s.len(),
{
    match next_token_spec(s) {
        (Some(tok), rest) => if rest.len() < s.len() {
            seq![tok] + tokens_spec(rest)
        } else {
            seq![]
        },
        (None, _) => seq![],
    }
}

/// Trimming never lengthens the content.
proof fn lemma_trim_len(s: Seq<char>)
    ensures
        trim_spec(s).len() <= s.len(),
    decreases s.len(),
{
    if s.len() > 0 && spec_ascii_whitespace(s[0]) {
        lemma_trim_len(s.drop_first());
    }
}

/// Where `at` answers as the predicate `p` does, the prefix it accepts is the longest
/// prefix whose characters satisfy `p`.
proof fn lemma_accepted_prefix_len<F: FnMut(&char) -> bool>(
    at: F,
    p: spec_fn(char) -> bool,
    s: Seq<char>,
    n: int,
)
    requires
        accepted_prefix(at, s, n),
        forall|c: char, b: bool| call_ensures(at, (&c,), b) ==> b == p(c),
    ensures
        n == prefix_len(s, p),
    decreases s.len(),
{
    if s.len() > 0 {
        if n > 0 {
            assert(call_ensures(at, (&s[0],), true));
            assert forall|i: int| 0 <= i < n - 1 implies call_ensures(
                at,
                (&s.drop_first()[i],),
                true,
            ) by {
                assert(s.drop_first()[i] == s[i + 1]);
            }
            if n - 1 < s.drop_first().len() {
                assert(s.drop_first()[n - 1] == s[n]);
            }
            lemma_accepted_prefix_len(at, p, s.drop_first(), n - 1);
        } else {
            assert(call_ensures(at, (&s[0],), false));
        }
    }
}

/// Trimming twice is trimming once.
pub proof fn lemma_trim_idempotent(s: Seq<char>)
    ensures
        trim_spec(trim_spec(s)) == trim_spec(s),
    decreases s.len(),
{
    if s.len() > 0 && spec_ascii_whitespace(s[0]) {
        lemma_trim_idempotent(s.drop_first());
    }
}

/// Trimming drops exactly the leading run of ASCII whitespace: every character dropped is
/// ASCII whitespace, what is left is a suffix of the content, and it is empty or starts with
/// a character that is not ASCII whitespace.
pub proof fn lemma_trim_strips_whitespace(s: Seq<char>)
    ensures
        trim_spec(s).len() <= s.len(),
        trim_spec(s) == s.skip(s.len() - trim_spec(s).len()),
        forall|i: int| 0 <= i < s.len() - trim_spec(s).len() ==> spec_ascii_whitespace(#[trigger] s[i]),
        trim_spec(s).len() > 0 ==> !spec_ascii_whitespace(trim_spec(s)[0]),
    decreases s.len(),
{
    if s.len() == 0 {
        assert(s.skip(0) =~= s);
    } else if !spec_ascii_whitespace(s[0]) {
        assert(s.skip(0) =~= s);
    } else {
        let r = s.drop_first();
        lemma_trim_strips_whitespace(r);
        assert(r.skip(r.len() - trim_spec(s).len()) =~= s.skip(s.len() - trim_spec(s).len()));
        assert forall|i: int| 0 <= i < s.len() - trim_spec(s).len() implies spec_ascii_whitespace(
            #[trigger] s[i],
        ) by {
            if i > 0 {
                assert(s[i] == r[i - 1]);
            }
        }
    }
}

/// Trimming drops a prefix: the trimmed content is a suffix of the content.
pub proof fn lemma_trim_suffix(s: Seq<char>)
    ensures
        trim_spec(s).len() <= s.len(),
        trim_spec(s) == s.skip(s.len() - trim_spec(s).len()),
    decreases s.len(),
{
    if s.len() > 0 && spec_ascii_whitespace(s[0]) {
        lemma_trim_suffix(s.drop_first());
        assert(s.drop_first().skip(s.drop_first().len() - trim_spec(s).len()) =~= s.skip(
            s.len() - trim_spec(s).len(),
        ));
    } else {
        assert(s.skip(0) =~= s);
    }
}

/// A cut loses nothing: the token taken followed by the content left is the content.
pub proof fn lemma_cut_reassembles(s: Seq<char>, n: int)
    requires
        0 <= n,
    ensures
        cut_spec(s, n) matches (Some(tok), rest) ==> tok + rest == s,
        cut_spec(s, n) matches (None, rest) ==> rest == s,
{
    if n < s.len() {
        assert(s.take(n) + s.skip(n) =~= s);
    }
}

/// The token followed by the content left is a suffix of the content: the lexer drops only
/// the whitespace before the token.
pub proof fn lemma_next_token_in_place(s: Seq<char>)
    ensures
        next_token_spec(s) matches (Some(tok), rest) ==> tok + rest == s.skip(
            s.len() - (tok + rest).len(),
        ),
{
    let t = trim_spec(s);
    lemma_trim_suffix(s);
    if t.len() > 0 {
        if unicode_numeric(t[0]) {
            let n = prefix_len(t, |c: char| unicode_numeric(c)) as int;
            lemma_prefix_len_bound(t, |c: char| unicode_numeric(c));
            lemma_cut_reassembles(t, n);
        } else if unicode_alphanumeric(t[0]) {
            let n = prefix_len(t, |c: char| unicode_alphanumeric(c)) as int;
            lemma_prefix_len_bound(t, |c: char| unicode_alphanumeric(c));
            lemma_cut_reassembles(t, n);
        } else if spec_ascii_punctuation(t[0]) {
            assert(t.take(1) + t.skip(1) =~= t);
        }
    }
}

/// No character of `t` is ASCII whitespace.
pub open spec fn no_ascii_whitespace(t: Seq<char>) -> bool {
    forall|i: int| 0 <= i < t.len() ==> !spec_ascii_whitespace(#[trigger] t[i])
}

/// A prefix that `at` accepts holds no ASCII whitespace when `at` accepts none.
proof fn lemma_token_no_whitespace<F: FnMut(&char) -> bool>(at: F, s: Seq<char>, n: int)
    requires
        accepted_prefix(at, s, n),
        forall|c: char, b: bool| call_ensures(at, (&c,), b) ==> (b ==> !spec_ascii_whitespace(c)),
    ensures
        no_ascii_whitespace(s.take(n)),
{
    assert forall|i: int| 0 <= i < s.take(n).len() implies !spec_ascii_whitespace(
        #[trigger] s.take(n)[i],
    ) by {
        assert(s.take(n)[i] == s[i]);
        assert(call_ensures(at, (&s[i],), true));
    }
}

/// Every character of the longest prefix satisfying `p` satisfies `p`.
pub proof fn lemma_prefix_holds(s: Seq<char>, p: spec_fn(char) -> bool)
    ensures
        forall|i: int| 0 <= i < prefix_len(s, p) ==> p(#[trigger] s[i]),
    decreases s.len(),
{
    lemma_prefix_len_bound(s, p);
    if s.len() > 0 && p(s[0]) {
        lemma_prefix_holds(s.drop_first(), p);
        assert forall|i: int| 0 <= i < prefix_len(s, p) implies p(#[trigger] s[i]) by {
            if i > 0 {
                assert(s[i] == s.drop_first()[i - 1]);
            }
        }
    }
}

/// Splits character content into tokens.
pub struct Lexer<'a> {
    pub content: &'a [char],
}

impl<'a> Lexer<'a> {
    /// A lexer over `content`.
    pub fn new(content: &'a [char]) -> (r: Self)
        ensures
            r.content@ == content@,
    {
        Self { content }
    }

    /// Drops the leading ASCII whitespace of the content.
    pub fn trim(&mut self)
        ensures
            final(self).content@ == trim_spec(old(self).content@),
            final(self).content@.len() > 0 ==> !spec_ascii_whitespace(final(self).content@[0]),
            final(self).content@ == old(self).content@.skip(
                old(self).content@.len() - final(self).content@.len(),
            ),
            forall|i: int|
                0 <= i < old(self).content@.len() - final(self).content@.len()
                    ==> spec_ascii_whitespace(#[trigger] old(self).content@[i]),
    {
        proof {
            lemma_trim_strips_whitespace(old(self).content@);
        }
        while self.content.len() > 0 && is_ascii_whitespace(self.content[0])
            invariant
                trim_spec(self.content@) == trim_spec(old(self).content@),
            decreases self.content@.len(),
        {
            assert(self.content@.subrange(1, self.content@.len() as int)
                =~= self.content@.drop_first());
            self.content = &self.content[1..self.content.len()];
        }
    }

    /// Takes the first `n` characters of the content, if more than `n` are left.
    pub fn cut(&mut self, n: usize) -> (r: Option<&'a [char]>)
        ensures
            (slice_view(r), final(self).content@) == cut_spec(old(self).content@, n as int),
    {
        if n >= self.content.len() {
            None
        } else {
            let result = &self.content[0..n];
            self.content = &self.content[n..self.content.len()];
            Some(result)
        }
    }

    /// Takes the longest prefix of the content whose characters `at` accepts, if it is
    /// shorter than the content.
    pub fn cut_at(&mut self, mut at: impl FnMut(&char) -> bool) -> (r: Option<&'a [char]>)
        requires
            forall|c: char| call_requires(at, (&c,)),
        ensures
            exists|n: int|
                #![trigger cut_spec(old(self).content@, n)]
                accepted_prefix(at, old(self).content@, n) && (slice_view(r), final(self).content@)
                    == cut_spec(old(self).content@, n),
    {
        let ghost at0 = at;
        let mut n: usize = 0;
        while n < self.content.len()
            invariant
                at == at0,
                forall|c: char| call_requires(at, (&c,)),
                n <= self.content@.len(),
                self.content@ == old(self).content@,
                forall|i: int| 0 <= i < n ==> call_ensures(at, (&self.content@[i],), true),
            ensures
                accepted_prefix(at, old(self).content@, n as int),
                self.content@ == old(self).content@,
            decreases self.content@.len() - n,
        {
            let accepted = at(&self.content[n]);
            if !accepted {
                break;
            }
            n += 1;
        }
        let r = self.cut(n);
        assert(cut_spec(old(self).content@, n as int) == (slice_view(r), self.content@));
        r
    }

    /// Returns the next token and drops it, with the whitespace before it, from the content.
    /// A number runs over numeric characters, a word over alphanumeric ones, and an ASCII
    /// punctuation mark is a token of its own. A number or word that reaches the end of the
    /// content is not returned, and neither is anything starting with another character.
    pub fn next_token(&mut self) -> (r: Option<&'a [char]>)
        ensures
            (slice_view(r), final(self).content@) == next_token_spec(old(self).content@),
            r matches Some(tok) ==> 0 < tok@.len() && final(self).content@.len() + tok@.len()
                <= old(self).content@.len(),
            r is None <==> stops(trim_spec(old(self).content@)),
            r is None ==> final(self).content@ == trim_spec(old(self).content@),
            r matches Some(tok) ==> no_ascii_whitespace(tok@),
    {
        self.trim();
        proof {
            lemma_trim_len(old(self).content@);
        }
        if self.content.is_empty() {
            return None;
        }
        let ghost t = self.content@;
        let alphanumeric = is_alphanumeric(self.content[0]);
        if is_numeric(self.content[0]) {
            let number = |s: &char| -> (r: bool)
                ensures
                    r == unicode_numeric(*s),
                    r ==> !spec_ascii_punctuation(*s) && !spec_ascii_whitespace(*s),
                { is_numeric(*s) && !is_ascii_punctuation(*s) && !is_ascii_whitespace(*s) };
            let token = self.cut_at(number);
            proof {
                let n = choose|n: int|
                    #![trigger cut_spec(t, n)]
                    accepted_prefix(number, t, n) && (slice_view(token), self.content@)
                        == cut_spec(t, n);
                lemma_accepted_prefix_len(number, |c: char| unicode_numeric(c), t, n);
                assert(unicode_numeric(t[0]));
                lemma_token_no_whitespace(number, t, n);
                assert(prefix_len(t, |c: char| unicode_numeric(c)) > 0);
            }
            return token;
        }
        if alphanumeric {
            let word = |s: &char| -> (r: bool)
                ensures
                    r == unicode_alphanumeric(*s),
                    r ==> !spec_ascii_punctuation(*s) && !spec_ascii_whitespace(*s),
                { is_alphanumeric(*s) && !is_ascii_punctuation(*s) && !is_ascii_whitespace(*s) };
            let token = self.cut_at(word);
            proof {
                let n = choose|n: int|
                    #![trigger cut_spec(t, n)]
                    accepted_prefix(word, t, n) && (slice_view(token), self.content@)
                        == cut_spec(t, n);
                lemma_accepted_prefix_len(word, |c: char| unicode_alphanumeric(c), t, n);
                assert(unicode_alphanumeric(t[0]));
                lemma_token_no_whitespace(word, t, n);
                assert(prefix_len(t, |c: char| unicode_alphanumeric(c)) > 0);
            }
            return token;
        }
        if is_ascii_punctuation(self.content[0]) {
            let token = &self.content[0..1];
            self.content = &self.content[1..self.content.len()];
            return Some(token);
        }
        None
    }

    /// Every token that repeated calls of `next_token` return, in order, up to the first
    /// `None`.
    pub fn tokens(self) -> (r: Vec<&'a [char]>)
        ensures
            slices_view(r@) == tokens_spec(self.content@),
    {
        let mut lexer = self;
        let mut out: Vec<&'a [char]> = Vec::new();
        loop
            invariant
                slices_view(out@) + tokens_spec(lexer.content@) == tokens_spec(self.content@),
            decreases lexer.content@.len(),
        {
            let ghost before = lexer.content@;
            match lexer.next_token() {
                Some(tok) => {
                    proof {
                        assert(tokens_spec(before) == seq![tok@] + tokens_spec(lexer.content@));
                        assert(slices_view(out@.push(tok)) =~= slices_view(out@).push(tok@));
                        assert(slices_view(out@).push(tok@) + tokens_spec(lexer.content@)
                            =~= slices_view(out@) + (seq![tok@] + tokens_spec(lexer.content@)));
                    }
                    out.push(tok);
                },
                None => {
                    proof {
                        assert(tokens_spec(before) == Seq::<Seq<char>>::empty());
                        assert(slices_view(out@) + tokens_spec(before) =~= slices_view(out@));
                    }
                    return out;
                },
            }
        }
    }
}

} // verus!
