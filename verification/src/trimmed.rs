//! The simple splitter: a zero-copy iterator over the runs of text
//! between separator characters, with no quoting or escaping.

use crate::model::{
    is_separator, lemma_sep_run_len_is, lemma_sep_run_props, lemma_skip_skip,
    lemma_split_all_trim, lemma_word_len_is, sep_free, sep_run_len, split_all, word_len,
};
use vstd::prelude::*;

verus! {

/// Whether `c` separates tokens for the simple splitter: Unicode
/// whitespace or ASCII punctuation, exactly as [`is_separator`] says.
pub fn is_trim_separator(c: char) -> (r: bool)
    ensures
        r == is_separator(c),
{
    let u = c as u32;
    (0x09 <= u && u <= 0x0d) || u == 0x20 || u == 0x85 || u == 0xa0 || u == 0x1680 || (0x2000 <= u
        && u <= 0x200a) || u == 0x2028 || u == 0x2029 || u == 0x202f || u == 0x205f || u == 0x3000
        || (0x21 <= u && u <= 0x2f) || (0x3a <= u && u <= 0x40) || (0x5b <= u && u <= 0x60) || (0x7b
        <= u && u <= 0x7e)
}

/// A zero-copy splitter over the words of a borrowed string.
///
/// The held slice is always the unconsumed input with any leading
/// separator run already removed; each [`TrimmedWords::next`] yields
/// the next maximal separator-free run as a subslice of the original
/// input.
#[derive(Debug)]
pub struct TrimmedWords<'a> {
    string: &'a str,
}

impl<'a> TrimmedWords<'a> {
    /// The unconsumed input, as characters.
    pub closed spec fn text(self) -> Seq<char> {
        self.string@
    }

    /// The unconsumed input never begins with a separator.
    pub open spec fn wf(self) -> bool {
        self.text().len() > 0 ==> !is_separator(self.text()[0])
    }

    /// The sequence of tokens this splitter will still yield.
    pub open spec fn tokens(self) -> Seq<Seq<char>> {
        split_all(self.text())
    }

    /// Split the commandline.
    pub fn new(string: &str) -> (r: TrimmedWords<'_>)
        ensures
            r.wf(),
            r.text() == string@.skip(sep_run_len(string@) as int),
            r.tokens() == split_all(string@),
    {
        let n = string.unicode_len();
        let mut i: usize = 0;
        loop
            invariant
                i <= n,
                n == string@.len(),
                forall|k: int| 0 <= k < i ==> is_separator(#[trigger] string@[k]),
            ensures
                i <= n,
                forall|k: int| 0 <= k < i ==> is_separator(#[trigger] string@[k]),
                i < n ==> !is_separator(string@[i as int]),
            decreases n - i,
        {
            if i < n {
                if is_trim_separator(string.get_char(i)) {
                    i = i + 1;
                } else {
                    break ;
                }
            } else {
                break ;
            }
        }
        proof {
            lemma_sep_run_len_is(string@, i as int);
            lemma_sep_run_props(string@);
            lemma_split_all_trim(string@);
        }
        let r = TrimmedWords { string: string.substring_char(i, n) };
        proof {
            assert(r.text() =~= string@.skip(i as int));
            if r.text().len() > 0 {
                assert(r.text()[0] == string@[i as int]);
            }
        }
        r
    }

    /// Yield the next token: the maximal separator-free prefix of the
    /// unconsumed input, leaving the input trimmed past the separator
    /// run that follows it.
    pub fn next(&mut self) -> (r: Option<&'a str>)
        requires
            old(self).wf(),
        ensures
            final(self).wf(),
            (match r {
                Some(tok) => {
                    &&& old(self).text().len() > 0
                    &&& tok@ == old(self).text().take(word_len(old(self).text()) as int)
                    &&& tok@.len() > 0
                    &&& sep_free(tok@)
                    &&& old(self).tokens() == seq![tok@] + final(self).tokens()
                },
                None => {
                    &&& old(self).text().len() == 0
                    &&& final(self).text() == old(self).text()
                    &&& old(self).tokens() == Seq::<Seq<char>>::empty()
                },
            }),
    {
        let s: &'a str = self.string;
        let n = s.unicode_len();
        if n == 0 {
            proof {
                assert(s@.skip(0) =~= s@);
            }
            return None;
        }
        let mut i: usize = 0;
        loop
            invariant
                i <= n,
                n == s@.len(),
                forall|k: int| 0 <= k < i ==> !is_separator(#[trigger] s@[k]),
            ensures
                i <= n,
                forall|k: int| 0 <= k < i ==> !is_separator(#[trigger] s@[k]),
                i < n ==> is_separator(s@[i as int]),
            decreases n - i,
        {
            if i < n {
                if is_trim_separator(s.get_char(i)) {
                    break ;
                } else {
                    i = i + 1;
                }
            } else {
                break ;
            }
        }
        proof {
            lemma_word_len_is(s@, i as int);
        }
        let out = s.substring_char(0, i);
        let mut j: usize = i;
        loop
            invariant
                i <= j <= n,
                n == s@.len(),
                forall|k: int| i <= k < j ==> is_separator(#[trigger] s@[k]),
            ensures
                i <= j <= n,
                forall|k: int| i <= k < j ==> is_separator(#[trigger] s@[k]),
                j < n ==> !is_separator(s@[j as int]),
            decreases n - j,
        {
            if j < n {
                if is_trim_separator(s.get_char(j)) {
                    j = j + 1;
                } else {
                    break ;
                }
            } else {
                break ;
            }
        }
        self.string = s.substring_char(j, n);
        proof {
            let t = s@;
            lemma_sep_run_len_is(t, 0);
            assert(t.skip(0) =~= t);
            let x = t.skip(i as int);
            assert forall|k: int| 0 <= k < j - i implies is_separator(#[trigger] x[k]) by {
                assert(x[k] == t[k + i]);
            }
            if j < n {
                assert(x[j - i] == t[j as int]);
            }
            lemma_sep_run_len_is(x, j - i);
            lemma_skip_skip(t, i as int, j - i);
            assert(self.text() =~= x.skip(j - i));
            lemma_split_all_trim(x);
            assert(out@ =~= t.take(i as int));
            assert forall|k: int| 0 <= k < out@.len() implies !is_separator(
                #[trigger] out@[k],
            ) by {
                assert(out@[k] == t[k]);
            }
            if self.text().len() > 0 {
                assert(self.text()[0] == t[j as int]);
            }
            assert(old(self).tokens() == seq![out@] + self.tokens());
        }
        Some(out)
    }
}

/// The simple splitter never yields an empty token, and no yielded
/// token contains a separator character.
pub proof fn lemma_tokens_separator_free<'a>(w: TrimmedWords<'a>)
    ensures
        forall|i: int|
            0 <= i < w.tokens().len() ==> (#[trigger] w.tokens()[i]).len() > 0 && sep_free(
                w.tokens()[i],
            ),
{
    crate::model::lemma_split_all_sep_free(w.text());
}

} // verus!
