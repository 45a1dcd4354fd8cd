//! Splitting text into the words between runs of Unicode whitespace.
use vstd::prelude::*;

use vstd::std_specs::iter::IteratorSpec;

use crate::chars::{is_whitespace, unicode_whitespace};
use crate::lexer::{lemma_prefix_len_bound, prefix_len};

verus! {

/// The number of leading characters of `s` that are not whitespace.
pub open spec fn word_len(s: Seq<char>) -> nat {
    prefix_len(s, |c: char| !unicode_whitespace(c))
}

/// The words of `s`: its maximal runs of characters that are not whitespace, in order.
pub open spec fn words_spec(s: Seq<char>) -> Seq<Seq<char>>
    decreases s.len(),
{
    if s.len() == 0 {
        Seq::empty()
    } else if unicode_whitespace(s[0]) {
        words_spec(s.drop_first())
    } else {
        proof {
            lemma_prefix_len_bound(s, |c: char| !unicode_whitespace(c));
        }
        seq![s.take(word_len(s) as int)] + words_spec(s.skip(word_len(s) as int))
    }
}

/// The words `ws` joined by single spaces.
pub open spec fn join_words(ws: Seq<Seq<char>>) -> Seq<char>
    decreases ws.len(),
{
    if ws.len() == 0 {
        Seq::empty()
    } else if ws.len() == 1 {
        ws[0]
    } else {
        ws[0] + seq![' '] + join_words(ws.drop_first())
    }
}

/// A non-empty word without whitespace, followed by nothing or by whitespace, is the first
/// word of the text.
proof fn lemma_words_of_word_then(w: Seq<char>, tail: Seq<char>)
    requires
        w.len() > 0,
        forall|i: int| 0 <= i < w.len() ==> !unicode_whitespace(#[trigger] w[i]),
        tail.len() > 0 ==> unicode_whitespace(tail[0]),
    ensures
        words_spec(w + tail) == seq![w] + words_spec(tail),
{
    let s = w + tail;
    assert forall|i: int| 0 <= i < w.len() implies !unicode_whitespace(#[trigger] s[i]) by {
        assert(s[i] == w[i]);
    }
    if w.len() < s.len() {
        assert(s[w.len() as int] == tail[0]);
    }
    lemma_word_len(s, w.len() as int);
    assert(s.take(w.len() as int) =~= w);
    assert(s.skip(w.len() as int) =~= tail);
}

/// Splitting words joined by single spaces gives the words back.
proof fn lemma_words_of_joined(ws: Seq<Seq<char>>)
    requires
        forall|k: int| #![trigger ws[k]] 0 <= k < ws.len() ==> {
            &&& ws[k].len() > 0
            &&& forall|i: int| 0 <= i < ws[k].len() ==> !unicode_whitespace(#[trigger] ws[k][i])
        },
    ensures
        words_spec(join_words(ws)) == ws,
    decreases ws.len(),
{
    if ws.len() == 0 {
    } else if ws.len() == 1 {
        let w = ws[0];
        lemma_words_of_word_then(w, Seq::empty());
        assert(w + Seq::<char>::empty() =~= w);
        assert(words_spec(Seq::<char>::empty()) =~= Seq::<Seq<char>>::empty());
        assert(seq![w] + Seq::<Seq<char>>::empty() =~= ws);
    } else {
        let rest = ws.drop_first();
        assert forall|k: int| #![trigger rest[k]] 0 <= k < rest.len() implies {
            &&& rest[k].len() > 0
            &&& forall|i: int| 0 <= i < rest[k].len() ==> !unicode_whitespace(
                #[trigger] rest[k][i],
            )
        } by {
            assert(rest[k] == ws[k + 1]);
        }
        lemma_words_of_joined(rest);
        let tail = seq![' '] + join_words(rest);
        assert(ws[0] + seq![' '] + join_words(rest) =~= ws[0] + tail);
        lemma_words_of_word_then(ws[0], tail);
        assert(tail.drop_first() =~= join_words(rest));
        assert(seq![ws[0]] + rest =~= ws);
    }
}

/// Re-spacing a text changes none of its words: its words joined by single spaces have the
/// same words.
pub proof fn lemma_respacing_keeps_words(s: Seq<char>)
    ensures
        words_spec(join_words(words_spec(s))) == words_spec(s),
{
    lemma_words_nonempty(s);
    lemma_words_of_joined(words_spec(s));
}

/// A text has no words exactly when all its characters are whitespace.
pub proof fn lemma_no_words_iff_whitespace(s: Seq<char>)
    ensures
        words_spec(s).len() == 0 <==> forall|i: int| 0 <= i < s.len() ==> unicode_whitespace(
            #[trigger] s[i],
        ),
    decreases s.len(),
{
    if s.len() > 0 {
        if unicode_whitespace(s[0]) {
            lemma_no_words_iff_whitespace(s.drop_first());
            if words_spec(s).len() == 0 {
                assert forall|i: int| 0 <= i < s.len() implies unicode_whitespace(#[trigger] s[i]) by {
                    if i > 0 {
                        assert(s[i] == s.drop_first()[i - 1]);
                    }
                }
            } else {
                assert(!forall|i: int| 0 <= i < s.drop_first().len() ==> unicode_whitespace(
                    #[trigger] s.drop_first()[i],
                ));
                let j = choose|j: int| 0 <= j < s.drop_first().len() && !unicode_whitespace(
                    s.drop_first()[j],
                );
                assert(s[j + 1] == s.drop_first()[j]);
            }
        }
    }
}

/// Every word is non-empty and holds no whitespace, and there are at most as many words as
/// characters.
pub proof fn lemma_words_nonempty(s: Seq<char>)
    ensures
        words_spec(s).len() <= s.len(),
        forall|k: int| #![trigger words_spec(s)[k]] 0 <= k < words_spec(s).len() ==> {
            &&& words_spec(s)[k].len() > 0
            &&& forall|i: int| 0 <= i < words_spec(s)[k].len() ==> !unicode_whitespace(
                #[trigger] words_spec(s)[k][i],
            )
        },
    decreases s.len(),
{
    if s.len() > 0 {
        if unicode_whitespace(s[0]) {
            lemma_words_nonempty(s.drop_first());
        } else {
            let n = word_len(s) as int;
            lemma_prefix_len_bound(s, |c: char| !unicode_whitespace(c));
            crate::lexer::lemma_prefix_holds(s, |c: char| !unicode_whitespace(c));
            lemma_words_nonempty(s.skip(n));
            let w = words_spec(s);
            assert forall|k: int| #![trigger w[k]] 0 <= k < w.len() implies {
                &&& w[k].len() > 0
                &&& forall|i: int| 0 <= i < w[k].len() ==> !unicode_whitespace(#[trigger] w[k][i])
            } by {
                if k > 0 {
                    assert(w[k] == words_spec(s.skip(n))[k - 1]);
                } else {
                    assert(w[0] == s.take(n));
                    assert forall|i: int| 0 <= i < w[0].len() implies !unicode_whitespace(
                        #[trigger] w[0][i],
                    ) by {
                        assert(w[0][i] == s[i]);
                    }
                }
            }
        }
    }
}

/// The characters of `s`, in order.
pub(crate) fn chars_of(s: &str) -> (r: Vec<char>)
    ensures
        r@ == s@,
{
    let mut it = s.chars();
    proof {
        vstd::string::axiom_spec_iter(s);
    }
    let mut v: Vec<char> = Vec::new();
    loop
        invariant
            v@ + IteratorSpec::remaining(&it) == s@,
            IteratorSpec::decrease(&it) is Some,
        decreases IteratorSpec::decrease(&it)->0,
    {
        let ghost before = IteratorSpec::remaining(&it);
        match it.next() {
            Some(c) => {
                proof {
                    assert(v@.push(c) + IteratorSpec::remaining(&it) =~= v@ + before);
                }
                v.push(c);
            },
            None => {
                assert(v@ + before =~= v@);
                return v;
            },
        }
    }
}

/// The string of the characters `chars`, in order.
pub(crate) fn string_of(chars: &[char]) -> (r: String)
    ensures
        r@ == chars@,
{
    let mut out = String::new();
    let mut i: usize = 0;
    while i < chars.len()
        invariant
            i <= chars@.len(),
            out@ == chars@.take(i as int),
        decreases chars@.len() - i,
    {
        push_char(&mut out, chars[i]);
        assert(chars@.take(i as int).push(chars@[i as int]) =~= chars@.take(i + 1));
        i += 1;
    }
    assert(chars@.take(i as int) =~= chars@);
    out
}

/// `String::push`.
#[verifier::external_body]
pub(crate) fn push_char(s: &mut String, c: char)
    ensures
        final(s)@ == old(s)@.push(c),
{
    s.push(c)
}

/// The views of a sequence of strings.
pub open spec fn string_views(v: Seq<String>) -> Seq<Seq<char>> {
    v.map_values(|w: String| w@)
}

/// The words of `s`, as `str::split_whitespace` yields them.
pub fn split_whitespace(s: &str) -> (r: Vec<String>)
    ensures
        string_views(r@) == words_spec(s@),
{
    let chars = chars_of(s);
    let mut rest: &[char] = chars.as_slice();
    let mut out: Vec<String> = Vec::new();
    while rest.len() > 0
        invariant
            words_spec(s@) == string_views(out@) + words_spec(rest@),
        decreases rest@.len(),
    {
        if is_whitespace(rest[0]) {
            assert(rest@.subrange(1, rest@.len() as int) =~= rest@.drop_first());
            rest = &rest[1..rest.len()];
        } else {
            let mut n: usize = 0;
            while n < rest.len() && !is_whitespace(rest[n])
                invariant
                    n <= rest@.len(),
                    forall|i: int| 0 <= i < n ==> !unicode_whitespace(#[trigger] rest@[i]),
                decreases rest@.len() - n,
            {
                n += 1;
            }
            proof {
                lemma_word_len(rest@, n as int);
            }
            let word = string_of(&rest[0..n]);
            let ghost before = rest@;
            let ghost old_out = out@;
            out.push(word);
            rest = &rest[n..rest.len()];
            assert(string_views(out@) =~= string_views(old_out).push(before.take(n as int)));
            assert(words_spec(s@) =~= string_views(out@) + words_spec(rest@));
        }
    }
    assert(words_spec(rest@) =~= Seq::<Seq<char>>::empty());
    assert(string_views(out@) + words_spec(rest@) =~= string_views(out@));
    out
}

/// A run of `n` characters that are not whitespace, followed by the end or by whitespace,
/// is the word length.
proof fn lemma_word_len(s: Seq<char>, n: int)
    requires
        0 <= n <= s.len(),
        forall|i: int| 0 <= i < n ==> !unicode_whitespace(#[trigger] s[i]),
        n < s.len() ==> unicode_whitespace(s[n]),
    ensures
        word_len(s) == n,
    decreases n,
{
    if n > 0 {
        assert forall|i: int| 0 <= i < n - 1 implies !unicode_whitespace(
            #[trigger] s.drop_first()[i],
        ) by {
            assert(s.drop_first()[i] == s[i + 1]);
        }
        if n - 1 < s.drop_first().len() {
            assert(s.drop_first()[n - 1] == s[n]);
        }
        lemma_word_len(s.drop_first(), n - 1);
    }
}

} // verus!
