//! The decoding tokenizer: an owning, lazy word scanner that collapses
//! whitespace runs, decodes backslash escapes and keeps double-quoted
//! runs together in one token.

use crate::model::{
    all_tokens, escape_char, lemma_skip_skip, lemma_skip_spaces_props, scan, scan_quoted,
    skip_spaces,
};
use std::sync::Arc;
use vstd::prelude::*;

verus! {

/// Relies on `String::push`: appends exactly the one character `c` to
/// the end of `s`.
pub assume_specification[ String::push ](s: &mut String, c: char)
    ensures
        final(s)@ == old(s)@.push(c),
;

/// The backing text of a [`Words`] tokenizer: either a shared,
/// reference-counted owned string or a reference that lives for the
/// whole process.  Neither variant is ever mutated.
#[derive(Debug, Clone)]
pub enum WordsStorage {
    Shared(Arc<String>),
    Static(&'static str),
}

impl View for WordsStorage {
    type V = Seq<char>;

    open spec fn view(&self) -> Seq<char> {
        match self {
            WordsStorage::Shared(s) => s@,
            WordsStorage::Static(s) => s@,
        }
    }
}

impl WordsStorage {
    /// The stored text, whichever variant holds it.
    pub fn as_str(&self) -> (r: &str)
        ensures
            r@ == self@,
    {
        match self {
            WordsStorage::Shared(s) => s.as_str(),
            WordsStorage::Static(s) => s,
        }
    }
}

impl core::convert::From<&'static str> for WordsStorage {
    /// A process-lifetime literal backs the tokenizer without a copy.
    fn from(value: &'static str) -> (r: WordsStorage) {
        WordsStorage::Static(value)
    }
}

impl vstd::std_specs::convert::FromSpecImpl<&'static str> for WordsStorage {
    open spec fn obeys_from_spec() -> bool {
        true
    }

    open spec fn from_spec(value: &'static str) -> WordsStorage {
        WordsStorage::Static(value)
    }
}

impl core::convert::From<Arc<String>> for WordsStorage {
    /// A shared owned string backs the tokenizer without a copy of its
    /// content.
    fn from(value: Arc<String>) -> (r: WordsStorage) {
        WordsStorage::Shared(value)
    }
}

impl vstd::std_specs::convert::FromSpecImpl<Arc<String>> for WordsStorage {
    open spec fn obeys_from_spec() -> bool {
        true
    }

    open spec fn from_spec(value: Arc<String>) -> WordsStorage {
        WordsStorage::Shared(value)
    }
}

/// Construct a tokenizer over the words of a string.
pub fn words(string: WordsStorage) -> (r: Words)
    ensures
        r.wf(),
        r.text() == string@,
        r.pos() == 0,
        r.buf() == Seq::<char>::empty(),
        r.tokens() == all_tokens(Seq::<char>::empty(), string@),
{
    Words::new(string)
}

/// A lazy tokenizer over the words of a string.
///
/// Each call of [`Words::next`] emits the next decoded token as a
/// fresh `String`, or `None` once the input is exhausted.  The view
/// functions tie every operation to the model in [`crate::model`]:
/// [`Words::tokens`] is the sequence of tokens still to come.
#[derive(Debug, Clone)]
pub struct Words {
    string: WordsStorage,
    off: usize,
    /// one character lookahead.
    b0: Option<(usize, char)>,
    buffer: String,
}

impl Words {
    /// The full backing text, as characters.
    pub closed spec fn text(self) -> Seq<char> {
        self.string@
    }

    /// The characters already collected for the token in progress.
    pub closed spec fn buf(self) -> Seq<char> {
        self.buffer@
    }

    /// The character position of the lookahead: everything before it
    /// has been consumed by the scanner.
    pub closed spec fn pos(self) -> int {
        match self.b0 {
            Some(p) => p.0 as int,
            None => self.text().len() as int,
        }
    }

    /// The lookahead mirrors the text at the cursor: it holds the
    /// character at `pos`, or nothing once the text is exhausted.
    pub closed spec fn wf(self) -> bool {
        match self.b0 {
            Some(p) => p.0 < self.text().len() && self.text()[p.0 as int] == p.1 && self.off == p.0
                + 1,
            None => self.off == self.text().len(),
        }
    }

    /// The unscanned input: the lookahead character and everything
    /// after it.
    pub open spec fn remaining(self) -> Seq<char> {
        self.text().skip(self.pos())
    }

    /// The sequence of tokens this tokenizer will still emit.
    pub open spec fn tokens(self) -> Seq<Seq<char>> {
        all_tokens(self.buf(), self.remaining())
    }

    /// Split the given string.
    pub fn new(string: WordsStorage) -> (r: Words)
        ensures
            r.wf(),
            r.text() == string@,
            r.pos() == 0,
            r.buf() == Seq::<char>::empty(),
            r.tokens() == all_tokens(Seq::<char>::empty(), string@),
    {
        let n = string.as_str().unicode_len();
        let b0 = if n > 0 {
            let c = string.as_str().get_char(0);
            Some((0usize, c))
        } else {
            None
        };
        let off: usize = if n > 0 {
            1
        } else {
            0
        };
        let r = Words { string, off, b0, buffer: String::new() };
        proof {
            assert(r.remaining() =~= r.text());
        }
        r
    }

    /// Access the underlying string.
    pub fn string(&self) -> (r: &str)
        ensures
            r@ == self.text(),
    {
        self.string.as_str()
    }

    /// Take the next character.
    pub(crate) fn take(&mut self) -> (r: Option<(usize, char)>)
        requires
            old(self).wf(),
        ensures
            final(self).wf(),
            final(self).text() == old(self).text(),
            final(self).buf() == old(self).buf(),
            old(self).remaining().len() > 0 ==> {
                &&& r == Some((old(self).pos() as usize, old(self).remaining()[0]))
                &&& final(self).remaining() == old(self).remaining().skip(1)
                &&& final(self).pos() == old(self).pos() + 1
            },
            old(self).remaining().len() == 0 ==> {
                &&& r is None
                &&& final(self).pos() == old(self).pos()
                &&& final(self).remaining() == old(self).remaining()
            },
    {
        let s = self.string.as_str();
        let n = s.unicode_len();
        let next = if self.off < n {
            let c = s.get_char(self.off);
            Some((self.off, c))
        } else {
            None
        };
        let out = self.b0;
        self.b0 = next;
        if self.off < n {
            self.off = self.off + 1;
        }
        proof {
            if old(self).remaining().len() > 0 {
                assert(old(self).remaining()[0] == old(self).text()[old(self).pos()]);
                lemma_skip_skip(old(self).text(), old(self).pos(), 1);
                assert(self.remaining() =~= old(self).remaining().skip(1));
            }
        }
        out
    }

    /// Look at the next character.
    pub(crate) fn peek(&self) -> (r: Option<(usize, char)>)
        requires
            self.wf(),
        ensures
            self.remaining().len() > 0 ==> r == Some((self.pos() as usize, self.remaining()[0])),
            self.remaining().len() == 0 ==> r is None,
    {
        proof {
            if self.remaining().len() > 0 {
                assert(self.remaining()[0] == self.text()[self.pos()]);
            }
        }
        self.b0
    }

    /// The rest of the input: the unconsumed suffix of the original
    /// text, beginning with the lookahead character.
    pub fn rest(&self) -> (r: &str)
        requires
            self.wf(),
        ensures
            r@ == self.remaining(),
            r@ == self.text().skip(self.pos()),
    {
        let s = self.string.as_str();
        let n = s.unicode_len();
        match self.b0 {
            Some(p) => s.substring_char(p.0, n),
            None => s.substring_char(n, n),
        }
    }

    /// Process an escape.
    fn escape(&mut self)
        requires
            old(self).wf(),
        ensures
            final(self).wf(),
            final(self).text() == old(self).text(),
            old(self).remaining().len() > 0 ==> {
                &&& final(self).buf() == old(self).buf().push(
                    escape_char(old(self).remaining()[0]),
                )
                &&& final(self).remaining() == old(self).remaining().skip(1)
            },
            old(self).remaining().len() == 0 ==> {
                &&& final(self).buf() == old(self).buf()
                &&& final(self).remaining() == old(self).remaining()
            },
    {
        let t = self.take();
        match t {
            None => {},
            Some(p) => {
                let c = p.1;
                if c == 't' {
                    self.buffer.push('\t');
                } else if c == 'r' {
                    self.buffer.push('\r');
                } else if c == 'n' {
                    self.buffer.push('\n');
                } else {
                    self.buffer.push(c);
                }
            },
        }
    }

    /// Emit the next token, or `None` once the input is exhausted.
    ///
    /// The emitted token is exactly what one [`scan`] step of the model
    /// yields from the current buffer and unscanned input, and the
    /// token sequence shrinks by exactly that token.
    pub fn next(&mut self) -> (r: Option<String>)
        requires
            old(self).wf(),
        ensures
            final(self).wf(),
            final(self).text() == old(self).text(),
            (match r {
                Some(tok) => {
                    &&& scan(old(self).buf(), old(self).remaining()) == Some(
                        (tok@, final(self).remaining()),
                    )
                    &&& final(self).buf().len() == 0
                },
                None => {
                    &&& scan(old(self).buf(), old(self).remaining()) is None
                    &&& final(self).remaining().len() == 0
                    &&& final(self).buf().len() == 0
                },
            }),
            old(self).tokens() == (match r {
                Some(tok) => seq![tok@] + final(self).tokens(),
                None => Seq::<Seq<char>>::empty(),
            }),
    {
        loop
            invariant
                self.wf(),
                self.text() == old(self).text(),
                scan(self.buf(), self.remaining()) == scan(old(self).buf(), old(self).remaining()),
            ensures
                self.wf(),
                self.text() == old(self).text(),
                scan(self.buf(), self.remaining()) == scan(old(self).buf(), old(self).remaining()),
                self.remaining().len() == 0,
            decreases self.remaining().len(),
        {
            let ghost buf_at_top = self.buf();
            let ghost rem_at_top = self.remaining();
            let t = self.take();
            match t {
                None => {
                    break ;
                },
                Some(p) => {
                    let c = p.1;
                    if c == ' ' || c == '\t' || c == '\r' || c == '\n' {
                        // Consume all whitespace so that `rest` behaves better.
                        proof {
                            lemma_skip_spaces_props(rem_at_top);
                        }
                        loop
                            invariant
                                self.wf(),
                                self.text() == old(self).text(),
                                self.buf() == buf_at_top,
                                rem_at_top.len() > 0,
                                skip_spaces(self.remaining()) == skip_spaces(rem_at_top),
                                self.remaining().len() < rem_at_top.len(),
                            ensures
                                self.wf(),
                                self.text() == old(self).text(),
                                self.buf() == buf_at_top,
                                self.remaining() == skip_spaces(rem_at_top),
                                self.remaining().len() < rem_at_top.len(),
                            decreases self.remaining().len(),
                        {
                            let q = self.peek();
                            let go = match q {
                                Some(qq) => qq.1 == ' ' || qq.1 == '\t' || qq.1 == '\r' || qq.1
                                    == '\n',
                                None => false,
                            };
                            if go {
                                self.take();
                            } else {
                                break ;
                            }
                        }
                        if !self.buffer.as_str().is_empty() {
                            let ret = self.buffer.clone();
                            self.buffer = String::new();
                            proof {
                                assert(scan(buf_at_top, rem_at_top) == Some(
                                    (buf_at_top, skip_spaces(rem_at_top)),
                                ));
                                assert(old(self).tokens() == seq![ret@] + self.tokens());
                            }
                            return Some(ret);
                        }
                    } else if c == '\\' {
                        self.escape();
                        proof {
                            if rem_at_top.len() >= 2 {
                                assert(rem_at_top.skip(1)[0] == rem_at_top[1]);
                                lemma_skip_skip(rem_at_top, 1, 1);
                            }
                        }
                    } else if c == '"' {
                        let ghost q = scan_quoted(self.buf(), self.remaining());
                        loop
                            invariant_except_break
                                scan_quoted(self.buf(), self.remaining()) == q,
                            invariant
                                self.wf(),
                                self.text() == old(self).text(),
                                rem_at_top.len() > 0,
                                self.remaining().len() < rem_at_top.len(),
                            ensures
                                self.wf(),
                                self.text() == old(self).text(),
                                self.buf() == q.0,
                                self.remaining() == q.1,
                                self.remaining().len() < rem_at_top.len(),
                            decreases self.remaining().len(),
                        {
                            let ghost rem_q = self.remaining();
                            let t2 = self.take();
                            match t2 {
                                None => {
                                    break ;
                                },
                                Some(p2) => {
                                    if p2.1 == '\\' {
                                        self.escape();
                                        proof {
                                            if rem_q.len() >= 2 {
                                                assert(rem_q.skip(1)[0] == rem_q[1]);
                                                lemma_skip_skip(rem_q, 1, 1);
                                            }
                                        }
                                    } else if p2.1 == '"' {
                                        break ;
                                    } else {
                                        self.buffer.push(p2.1);
                                    }
                                },
                            }
                        }
                        proof {
                            assert(scan(buf_at_top, rem_at_top) == scan(q.0, q.1));
                        }
                    } else {
                        self.buffer.push(c);
                    }
                },
            }
        }
        if self.buffer.as_str().is_empty() {
            None
        } else {
            let ret = self.buffer.clone();
            self.buffer = String::new();
            proof {
                assert(old(self).tokens() == seq![ret@] + self.tokens());
            }
            Some(ret)
        }
    }
}

/// The tokenizer never emits an empty token: leading, trailing and
/// repeated whitespace contribute nothing to the token sequence.
pub proof fn lemma_no_empty_tokens(w: Words)
    ensures
        forall|i: int| 0 <= i < w.tokens().len() ==> (#[trigger] w.tokens()[i]).len() > 0,
{
    crate::model::lemma_all_tokens_nonempty(w.buf(), w.remaining());
}

/// The cursor splits the backing text: the characters already consumed
/// by the scanner, followed by `rest()`, are exactly the original
/// input.
pub proof fn lemma_consumed_plus_rest(w: Words)
    requires
        w.wf(),
    ensures
        0 <= w.pos() <= w.text().len(),
        w.text() == w.text().take(w.pos()) + w.remaining(),
{
    assert(w.text() =~= w.text().take(w.pos()) + w.text().skip(w.pos()));
}

/// Tokenization is a function of the input alone: two fresh tokenizers
/// over equal text emit equal token sequences.
pub proof fn lemma_tokenize_deterministic(a: Words, b: Words)
    requires
        a.pos() == 0,
        b.pos() == 0,
        a.buf().len() == 0,
        b.buf().len() == 0,
        a.text() == b.text(),
    ensures
        a.tokens() == b.tokens(),
{
    assert(a.buf() =~= b.buf());
}

} // verus!
