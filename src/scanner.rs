//! A scanner that hands out the whitespace-separated tokens of a text one at a
//! time, parsed into the type that the caller asks for.
use vstd::prelude::*;
use vstd::string::StringExecFns;
use crate::words::{lemma_words_separated, split_tokens, views, words};

verus! {

/// Why no value came out of a request for a token.
#[derive(Clone, Copy, Debug, PartialEq, Eq, Structural)]
pub enum ScanError {
    /// No token was left in the input.
    EndOfInput,
    /// The next token was consumed, but it is not text of the requested type.
    Parse,
}

/// Relies on `str::parse`: `Some` with the value when `T`'s `FromStr`
/// accepts the text, `None` otherwise. Nothing is known of `T`'s grammar.
#[verifier::external_body]
fn parse_text<T: std::str::FromStr>(s: &str) -> (r: Option<T>) {
    s.parse::<T>().ok()
}

/// Tokens not yet handed out, in the order in which they come out.
///
/// They are stored last first, so that the next one is taken off the end.
pub struct TokenBuffer {
    pending: Vec<String>,
}

impl View for TokenBuffer {
    type V = Seq<Seq<char>>;

    closed spec fn view(&self) -> Seq<Seq<char>> {
        Seq::new(self.pending@.len(), |i: int| self.pending@[self.pending@.len() - 1 - i]@)
    }
}

impl TokenBuffer {
    /// An empty buffer.
    pub fn new() -> (r: TokenBuffer)
        ensures
            r@ == Seq::<Seq<char>>::empty(),
    {
        let r = TokenBuffer { pending: Vec::new() };
        assert(r@ =~= Seq::<Seq<char>>::empty());
        r
    }

    /// Whether no token is pending.
    pub fn is_empty(&self) -> (r: bool)
        ensures
            r == (self@.len() == 0),
    {
        self.pending.len() == 0
    }

    /// Takes the next pending token, if there is one.
    pub fn pop(&mut self) -> (r: Option<String>)
        ensures
            old(self)@.len() == 0 ==> r is None && final(self)@ == old(self)@,
            old(self)@.len() > 0 ==> r is Some && r->0@ == old(self)@[0]
                && final(self)@ == old(self)@.drop_first(),
    {
        let r = self.pending.pop();
        proof {
            if old(self).pending@.len() == 0 {
                assert(self@ =~= old(self)@);
            } else {
                assert(self@ =~= old(self)@.drop_first());
            }
        }
        r
    }

    /// Queues the tokens of `line` after those already pending.
    pub fn refill(&mut self, line: &str)
        ensures
            final(self)@ == old(self)@ + words(line@),
    {
        let toks = split_tokens(line);
        let ghost w = views(toks@);
        let mut fresh: Vec<String> = Vec::new();
        let mut k: usize = toks.len();
        while k > 0
            invariant
                k <= toks@.len(),
                w == views(toks@),
                fresh@.len() == toks@.len() - k,
                forall|j: int| 0 <= j < fresh@.len() ==> #[trigger] fresh@[j]@ == w[toks@.len() - 1 - j],
            decreases k,
        {
            k = k - 1;
            fresh.push(toks[k].clone());
        }
        let mut j: usize = 0;
        let ghost m = fresh@.len();
        while j < self.pending.len()
            invariant
                j <= old(self).pending@.len(),
                self.pending == old(self).pending,
                m == toks@.len(),
                w == views(toks@),
                fresh@.len() == m + j,
                forall|i: int| 0 <= i < m ==> #[trigger] fresh@[i]@ == w[m - 1 - i],
                forall|i: int| m <= i < m + j ==> #[trigger] fresh@[i] == self.pending@[i - m],
            decreases self.pending@.len() - j,
        {
            fresh.push(self.pending[j].clone());
            j = j + 1;
        }
        self.pending = fresh;
        assert(self@ =~= old(self)@ + words(line@));
    }

    /// Takes the next pending token and parses it as a `T`.
    ///
    /// With no token pending, nothing changes and the error is
    /// `ScanError::EndOfInput`; otherwise exactly one token is consumed,
    /// whether or not it parses.
    pub fn token<T: std::str::FromStr>(&mut self) -> (r: Result<T, ScanError>)
        ensures
            old(self)@.len() == 0 <==> r matches Err(ScanError::EndOfInput),
            old(self)@.len() == 0 ==> final(self)@ == old(self)@,
            old(self)@.len() > 0 ==> final(self)@ == old(self)@.drop_first(),
    {
        match self.pop() {
            None => Err(ScanError::EndOfInput),
            Some(t) => match parse_text::<T>(t.as_str()) {
                Some(v) => Ok(v),
                None => Err(ScanError::Parse),
            },
        }
    }
}

/// Reads the whitespace-separated tokens of a text, one line at a time.
pub struct Scanner {
    text: String,
    pos: usize,
    buffer: TokenBuffer,
}

impl View for Scanner {
    type V = Seq<Seq<char>>;

    /// The tokens still to come: those of the line last read, then those of
    /// the text not read yet.
    closed spec fn view(&self) -> Seq<Seq<char>> {
        self.buffer@ + words(self.text@.skip(self.pos as int))
    }
}

impl Scanner {
    /// The scanner's own consistency: it has not read past the end of its text.
    pub closed spec fn wf(&self) -> bool {
        self.pos <= self.text@.len()
    }

    /// A scanner over `input`, with nothing read yet.
    pub fn new(input: &str) -> (r: Scanner)
        ensures
            r.wf(),
            r@ == words(input@),
    {
        let r = Scanner { text: String::from_str(input), pos: 0, buffer: TokenBuffer::new() };
        assert(r.text@.skip(0) =~= input@);
        assert(r@ =~= words(input@));
        r
    }

    /// Takes the next token as text, reading further lines while none is pending.
    pub fn next_token(&mut self) -> (r: Option<String>)
        requires
            old(self).wf(),
        ensures
            final(self).wf(),
            old(self)@.len() == 0 ==> r is None && final(self)@ == old(self)@,
            old(self)@.len() > 0 ==> r is Some && r->0@ == old(self)@[0]
                && final(self)@ == old(self)@.drop_first(),
    {
        let n = self.text.as_str().unicode_len();
        loop
            invariant
                self.wf(),
                n == self.text@.len(),
                self@ == old(self)@,
            decreases n - self.pos,
        {
            let popped = self.buffer.pop();
            if popped.is_some() {
                return popped;
            }
            if self.pos == n {
                assert(self.text@.skip(n as int) =~= seq![]);
                assert(self@ =~= seq![]);
                return None;
            }
            let ghost s = self.text@;
            let ghost p = self.pos as int;
            let mut j: usize = self.pos;
            while j < n && self.text.as_str().get_char(j) != '\n'
                invariant
                    p <= j <= n,
                    n == s.len(),
                    s == self.text@,
                    forall|i: int| p <= i < j ==> #[trigger] s[i] != '\n',
                decreases n - j,
            {
                j = j + 1;
            }
            let line = self.text.as_str().substring_char(self.pos, j);
            self.buffer.refill(line);
            proof {
                assert(self.buffer@ =~= words(s.subrange(p, j as int)));
                if j < n {
                    assert(s.skip(p) =~= s.subrange(p, j as int) + seq!['\n'] + s.skip(j + 1));
                    lemma_words_separated(s.subrange(p, j as int), '\n', s.skip(j + 1));
                } else {
                    assert(s.skip(p) =~= s.subrange(p, j as int));
                    assert(s.skip(j as int) =~= seq![]);
                    assert(words(s.skip(j as int)) =~= seq![]);
                }
            }
            if j < n {
                self.pos = j + 1;
            } else {
                self.pos = j;
            }
            assert(self@ =~= old(self)@);
        }
    }

    /// Takes every token that is left, as text, in the order of the input:
    /// calling `next_token` until it returns `None` yields exactly the tokens
    /// still to come, left to right.
    pub fn remaining_tokens(&mut self) -> (r: Vec<String>)
        requires
            old(self).wf(),
        ensures
            final(self).wf(),
            views(r@) == old(self)@,
            final(self)@.len() == 0,
    {
        let mut r: Vec<String> = Vec::new();
        assert(views(r@) + self@ =~= old(self)@);
        loop
            invariant
                self.wf(),
                views(r@) + self@ == old(self)@,
            decreases self@.len(),
        {
            let ghost before = self@;
            let ghost got = r@;
            match self.next_token() {
                None => {
                    assert(views(r@) =~= views(r@) + before);
                    return r;
                },
                Some(t) => {
                    r.push(t);
                    assert(views(r@) =~= views(got) + seq![before[0]]);
                    assert(views(r@) + self@ =~= views(got) + before);
                },
            }
        }
    }

    /// Takes the next token and parses it as a `T`.
    ///
    /// With no token left, nothing changes and the error is
    /// `ScanError::EndOfInput`; otherwise exactly one token is consumed,
    /// whether or not it parses.
    pub fn token<T: std::str::FromStr>(&mut self) -> (r: Result<T, ScanError>)
        requires
            old(self).wf(),
        ensures
            final(self).wf(),
            old(self)@.len() == 0 <==> r matches Err(ScanError::EndOfInput),
            old(self)@.len() == 0 ==> final(self)@ == old(self)@,
            old(self)@.len() > 0 ==> final(self)@ == old(self)@.drop_first(),
    {
        match self.next_token() {
            None => Err(ScanError::EndOfInput),
            Some(t) => match parse_text::<T>(t.as_str()) {
                Some(v) => Ok(v),
                None => Err(ScanError::Parse),
            },
        }
    }
}

} // verus!
