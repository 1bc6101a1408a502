//! The mathematical model of both splitters.
//!
//! Token sequences are described over `Seq<char>`, the view of the
//! input text.  [`scan`] and [`all_tokens`] give the decoding
//! tokenizer's behaviour; [`split_all`] gives the simple splitter's.

use vstd::prelude::*;

verus! {

// ---------------------------------------------------------------------
// The decoding tokenizer.
// ---------------------------------------------------------------------
/// The four characters the decoding tokenizer treats as whitespace: a
/// run of them ends the token being built.
pub open spec fn is_token_space(c: char) -> bool {
    c == ' ' || c == '\t' || c == '\r' || c == '\n'
}

/// The escape table: a backslash followed by `c` contributes this one
/// character to the token.
pub open spec fn escape_char(c: char) -> char {
    if c == 't' {
        '\t'
    } else if c == 'r' {
        '\r'
    } else if c == 'n' {
        '\n'
    } else {
        c
    }
}

/// `s` with its leading run of tokenizer whitespace removed.
pub open spec fn skip_spaces(s: Seq<char>) -> Seq<char>
    decreases s.len(),
{
    if s.len() > 0 && is_token_space(s[0]) {
        skip_spaces(s.skip(1))
    } else {
        s
    }
}

pub proof fn lemma_skip_spaces_props(s: Seq<char>)
    ensures
        skip_spaces(s).len() <= s.len(),
        skip_spaces(s).len() > 0 ==> !is_token_space(skip_spaces(s)[0]),
        s.len() > 0 && is_token_space(s[0]) ==> skip_spaces(s).len() < s.len(),
    decreases s.len(),
{
    if s.len() > 0 && is_token_space(s[0]) {
        lemma_skip_spaces_props(s.skip(1));
    }
}

/// Skipping whitespace is a suffix operation: the result is `s` with
/// some prefix of its characters removed.
pub proof fn lemma_skip_spaces_suffix(s: Seq<char>)
    ensures
        exists|k: int| 0 <= k <= s.len() && skip_spaces(s) == s.skip(k),
    decreases s.len(),
{
    if s.len() > 0 && is_token_space(s[0]) {
        lemma_skip_spaces_suffix(s.skip(1));
        let k = choose|k: int| 0 <= k <= s.skip(1).len() && skip_spaces(s.skip(1)) == s.skip(1).skip(
            k,
        );
        assert(s.skip(1).skip(k) =~= s.skip(k + 1));
    } else {
        assert(s.skip(0) =~= s);
    }
}

/// One quoted run, entered just after an opening double quote: collects
/// characters into `buf` until an unescaped closing quote or the end of
/// the input, decoding backslash escapes on the way.  Returns the
/// extended buffer and the input that follows the run.
pub open spec fn scan_quoted(buf: Seq<char>, s: Seq<char>) -> (Seq<char>, Seq<char>)
    decreases s.len(),
{
    if s.len() == 0 {
        (buf, s)
    } else if s[0] == '\\' {
        if s.len() >= 2 {
            scan_quoted(buf.push(escape_char(s[1])), s.skip(2))
        } else {
            scan_quoted(buf, s.skip(1))
        }
    } else if s[0] == '"' {
        (buf, s.skip(1))
    } else {
        scan_quoted(buf.push(s[0]), s.skip(1))
    }
}

pub proof fn lemma_scan_quoted_props(buf: Seq<char>, s: Seq<char>)
    ensures
        scan_quoted(buf, s).1.len() <= s.len(),
        scan_quoted(buf, s).0.len() >= buf.len(),
    decreases s.len(),
{
    if s.len() == 0 {
    } else if s[0] == '\\' {
        if s.len() >= 2 {
            lemma_scan_quoted_props(buf.push(escape_char(s[1])), s.skip(2));
        } else {
            lemma_scan_quoted_props(buf, s.skip(1));
        }
    } else if s[0] == '"' {
    } else {
        lemma_scan_quoted_props(buf.push(s[0]), s.skip(1));
    }
}

/// One step of tokenization: with `buf` the characters already
/// collected for the token in progress and `s` the unscanned input,
/// yields the next emitted token together with the input left after it,
/// or `None` when no further token is emitted.
///
/// A token is emitted at a whitespace run (which is consumed whole) or
/// at the end of the input, and only when the buffer is non-empty, so
/// no empty tokens arise from leading, trailing or repeated whitespace.
pub open spec fn scan(buf: Seq<char>, s: Seq<char>) -> Option<(Seq<char>, Seq<char>)>
    decreases s.len(),
{
    if s.len() == 0 {
        if buf.len() > 0 {
            Some((buf, s))
        } else {
            None
        }
    } else if is_token_space(s[0]) {
        if buf.len() > 0 {
            Some((buf, skip_spaces(s)))
        } else {
            proof {
                lemma_skip_spaces_props(s);
            }
            scan(buf, skip_spaces(s))
        }
    } else if s[0] == '\\' {
        if s.len() >= 2 {
            scan(buf.push(escape_char(s[1])), s.skip(2))
        } else {
            scan(buf, s.skip(1))
        }
    } else if s[0] == '"' {
        proof {
            lemma_scan_quoted_props(buf, s.skip(1));
        }
        scan(scan_quoted(buf, s.skip(1)).0, scan_quoted(buf, s.skip(1)).1)
    } else {
        scan(buf.push(s[0]), s.skip(1))
    }
}

/// An emitted token is never empty, extends the buffer it started
/// from, and leaves strictly less input behind whenever there was any.
pub proof fn lemma_scan_props(buf: Seq<char>, s: Seq<char>)
    ensures
        match scan(buf, s) {
            Some(p) => {
                &&& p.0.len() > 0
                &&& p.0.len() >= buf.len()
                &&& p.1.len() <= s.len()
                &&& s.len() > 0 ==> p.1.len() < s.len()
            },
            None => buf.len() == 0,
        },
    decreases s.len(),
{
    if s.len() == 0 {
    } else if is_token_space(s[0]) {
        lemma_skip_spaces_props(s);
        if buf.len() > 0 {
        } else {
            lemma_scan_props(buf, skip_spaces(s));
        }
    } else if s[0] == '\\' {
        if s.len() >= 2 {
            lemma_scan_props(buf.push(escape_char(s[1])), s.skip(2));
        } else {
            lemma_scan_props(buf, s.skip(1));
        }
    } else if s[0] == '"' {
        lemma_scan_quoted_props(buf, s.skip(1));
        lemma_scan_props(scan_quoted(buf, s.skip(1)).0, scan_quoted(buf, s.skip(1)).1);
    } else {
        lemma_scan_props(buf.push(s[0]), s.skip(1));
    }
}

/// Every token the tokenizer will still emit, starting from a buffer
/// of already collected characters and the unscanned input.
pub open spec fn all_tokens(buf: Seq<char>, s: Seq<char>) -> Seq<Seq<char>>
    decreases s.len(), buf.len(),
{
    match scan(buf, s) {
        None => Seq::empty(),
        Some(p) => {
            proof {
                lemma_scan_props(buf, s);
            }
            seq![p.0] + all_tokens(Seq::empty(), p.1)
        },
    }
}

/// No emitted token is ever the empty string.
pub proof fn lemma_all_tokens_nonempty(buf: Seq<char>, s: Seq<char>)
    ensures
        forall|i: int|
            0 <= i < all_tokens(buf, s).len() ==> #[trigger] all_tokens(buf, s)[i].len() > 0,
    decreases s.len(), buf.len(),
{
    lemma_scan_props(buf, s);
    match scan(buf, s) {
        None => {},
        Some(p) => {
            lemma_all_tokens_nonempty(Seq::empty(), p.1);
            assert forall|i: int| 0 <= i < all_tokens(buf, s).len() implies #[trigger] all_tokens(
                buf,
                s,
            )[i].len() > 0 by {
                if i > 0 {
                    assert(all_tokens(buf, s)[i] == all_tokens(Seq::empty(), p.1)[i - 1]);
                }
            }
        },
    }
}

// ---------------------------------------------------------------------
// The simple splitter.
// ---------------------------------------------------------------------
/// A separator for the simple splitter: Unicode whitespace or ASCII
/// punctuation.  The whitespace alternatives are exactly the characters
/// with the Unicode `White_Space` property.
pub open spec fn is_separator(c: char) -> bool {
    ||| (0x09 <= c as u32 && c as u32 <= 0x0d)
    ||| c as u32 == 0x20
    ||| c as u32 == 0x85
    ||| c as u32 == 0xa0
    ||| c as u32 == 0x1680
    ||| (0x2000 <= c as u32 && c as u32 <= 0x200a)
    ||| c as u32 == 0x2028
    ||| c as u32 == 0x2029
    ||| c as u32 == 0x202f
    ||| c as u32 == 0x205f
    ||| c as u32 == 0x3000
    ||| (0x21 <= c as u32 && c as u32 <= 0x2f)
    ||| (0x3a <= c as u32 && c as u32 <= 0x40)
    ||| (0x5b <= c as u32 && c as u32 <= 0x60)
    ||| (0x7b <= c as u32 && c as u32 <= 0x7e)
}

/// Holds when no character of `t` is a separator.
pub open spec fn sep_free(t: Seq<char>) -> bool {
    forall|k: int| 0 <= k < t.len() ==> !is_separator(#[trigger] t[k])
}

/// The length of the leading run of separators in `s`.
pub open spec fn sep_run_len(s: Seq<char>) -> nat
    decreases s.len(),
{
    if s.len() > 0 && is_separator(s[0]) {
        1 + sep_run_len(s.skip(1))
    } else {
        0
    }
}

/// The length of the leading run of non-separators in `s`: the first
/// token's length once leading separators are gone.
pub open spec fn word_len(s: Seq<char>) -> nat
    decreases s.len(),
{
    if s.len() > 0 && !is_separator(s[0]) {
        1 + word_len(s.skip(1))
    } else {
        0
    }
}

pub proof fn lemma_sep_run_props(s: Seq<char>)
    ensures
        sep_run_len(s) <= s.len(),
        forall|k: int| 0 <= k < sep_run_len(s) ==> is_separator(#[trigger] s[k]),
        sep_run_len(s) < s.len() ==> !is_separator(s[sep_run_len(s) as int]),
    decreases s.len(),
{
    if s.len() > 0 && is_separator(s[0]) {
        lemma_sep_run_props(s.skip(1));
        assert forall|k: int| 0 <= k < sep_run_len(s) implies is_separator(#[trigger] s[k]) by {
            if k > 0 {
                assert(s.skip(1)[k - 1] == s[k]);
            }
        }
        if sep_run_len(s) < s.len() {
            assert(s.skip(1)[sep_run_len(s) as int - 1] == s[sep_run_len(s) as int]);
        }
    }
}

pub proof fn lemma_word_len_props(s: Seq<char>)
    ensures
        word_len(s) <= s.len(),
        forall|k: int| 0 <= k < word_len(s) ==> !is_separator(#[trigger] s[k]),
        word_len(s) < s.len() ==> is_separator(s[word_len(s) as int]),
    decreases s.len(),
{
    if s.len() > 0 && !is_separator(s[0]) {
        lemma_word_len_props(s.skip(1));
        assert forall|k: int| 0 <= k < word_len(s) implies !is_separator(#[trigger] s[k]) by {
            if k > 0 {
                assert(s.skip(1)[k - 1] == s[k]);
            }
        }
        if word_len(s) < s.len() {
            assert(s.skip(1)[word_len(s) as int - 1] == s[word_len(s) as int]);
        }
    }
}

/// A scan that saw `i` separators and then either the end of the input
/// or a non-separator has found the full leading separator run.
pub proof fn lemma_sep_run_len_is(s: Seq<char>, i: int)
    requires
        0 <= i <= s.len(),
        forall|k: int| 0 <= k < i ==> is_separator(#[trigger] s[k]),
        i < s.len() ==> !is_separator(s[i]),
    ensures
        sep_run_len(s) == i,
    decreases s.len(),
{
    if i == 0 {
    } else {
        assert forall|k: int| 0 <= k < i - 1 implies is_separator(#[trigger] s.skip(1)[k]) by {
            assert(s.skip(1)[k] == s[k + 1]);
        }
        if i - 1 < s.skip(1).len() {
            assert(s.skip(1)[i - 1] == s[i]);
        }
        lemma_sep_run_len_is(s.skip(1), i - 1);
    }
}

/// The mirror image of [`lemma_sep_run_len_is`] for the first token.
pub proof fn lemma_word_len_is(s: Seq<char>, i: int)
    requires
        0 <= i <= s.len(),
        forall|k: int| 0 <= k < i ==> !is_separator(#[trigger] s[k]),
        i < s.len() ==> is_separator(s[i]),
    ensures
        word_len(s) == i,
    decreases s.len(),
{
    if i == 0 {
    } else {
        assert forall|k: int| 0 <= k < i - 1 implies !is_separator(#[trigger] s.skip(1)[k]) by {
            assert(s.skip(1)[k] == s[k + 1]);
        }
        if i - 1 < s.skip(1).len() {
            assert(s.skip(1)[i - 1] == s[i]);
        }
        lemma_word_len_is(s.skip(1), i - 1);
    }
}

/// All tokens of the simple splitter: drop leading separators, take the
/// maximal separator-free prefix as a token, and repeat.
pub open spec fn split_all(s: Seq<char>) -> Seq<Seq<char>>
    decreases s.len(),
{
    let t = s.skip(sep_run_len(s) as int);
    if t.len() == 0 {
        Seq::empty()
    } else {
        proof {
            lemma_sep_run_props(s);
            lemma_word_len_props(t);
        }
        seq![t.take(word_len(t) as int)] + split_all(t.skip(word_len(t) as int))
    }
}

/// Trimming leading separators first does not change the token
/// sequence.
pub proof fn lemma_split_all_trim(s: Seq<char>)
    ensures
        split_all(s.skip(sep_run_len(s) as int)) == split_all(s),
{
    let t = s.skip(sep_run_len(s) as int);
    lemma_sep_run_props(s);
    if t.len() > 0 {
        lemma_sep_run_len_is(t, 0);
    }
    assert(t.skip(sep_run_len(t) as int) =~= t);
}

/// No token of the simple splitter is empty or contains a separator.
pub proof fn lemma_split_all_sep_free(s: Seq<char>)
    ensures
        forall|i: int|
            0 <= i < split_all(s).len() ==> (#[trigger] split_all(s)[i]).len() > 0 && sep_free(
                split_all(s)[i],
            ),
    decreases s.len(),
{
    let t = s.skip(sep_run_len(s) as int);
    lemma_sep_run_props(s);
    if t.len() > 0 {
        lemma_word_len_props(t);
        let tok = t.take(word_len(t) as int);
        assert(word_len(t) > 0);
        assert forall|k: int| 0 <= k < tok.len() implies !is_separator(#[trigger] tok[k]) by {
            assert(tok[k] == t[k]);
        }
        lemma_split_all_sep_free(t.skip(word_len(t) as int));
        assert forall|i: int| 0 <= i < split_all(s).len() implies (#[trigger] split_all(s)[i]).len()
            > 0 && sep_free(split_all(s)[i]) by {
            if i == 0 {
                assert(split_all(s)[0] == tok);
            } else {
                assert(split_all(s)[i] == split_all(t.skip(word_len(t) as int))[i - 1]);
            }
        }
    }
}

// ---------------------------------------------------------------------
// Shared sequence facts.
// ---------------------------------------------------------------------
/// Two successive suffix operations collapse into one.
pub proof fn lemma_skip_skip(s: Seq<char>, a: int, b: int)
    requires
        0 <= a,
        0 <= b,
        a + b <= s.len(),
    ensures
        s.skip(a).skip(b) =~= s.skip(a + b),
{
}

} // verus!
