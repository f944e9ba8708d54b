//! Token streams, and the filter that drops tokens too long to be useful,
//! such as the base-64 bodies of attachments in mail.
use vstd::prelude::*;
use vstd::string::StringSliceAdditionalSpecFns;
use vstd::utf8::encode_utf8;

verus! {

/// A token: a piece of text and where it stands in its source.
#[derive(Debug)]
pub struct Token {
    /// Offset in bytes of the first byte of the token in the source.
    pub offset_from: usize,
    /// Offset in bytes past the last byte of the token in the source.
    pub offset_to: usize,
    /// Position of the token, in tokens.
    pub position: usize,
    /// The text of the token.
    pub text: String,
    /// The number of positions the token spans.
    pub position_length: usize,
}

/// The length in bytes of the UTF-8 form of `text`.
pub open spec fn byte_len(text: Seq<char>) -> nat {
    encode_utf8(text).len()
}

/// A stream of tokens, read one at a time.
pub trait TokenStream {
    /// The tokens still to come, in order.
    spec fn rest(&self) -> Seq<Token>;

    /// The token the stream stands on.
    spec fn current(&self) -> Token;

    /// Moves to the next token. Returns whether there was one.
    fn advance(&mut self) -> (r: bool)
        ensures
            r == (old(self).rest().len() > 0),
            r ==> final(self).current() == old(self).rest()[0],
            r ==> final(self).rest() == old(self).rest().drop_first(),
            !r ==> final(self).rest() == old(self).rest(),
    ;

    /// The token the stream stands on.
    fn token(&self) -> (r: &Token)
        ensures
            *r == self.current(),
    ;
}

/// A stream over tokens that are already made.
#[derive(Debug)]
pub struct PreTokenizedStream {
    tokens: Vec<Token>,
    consumed: usize,
    blank: Token,
}

impl PreTokenizedStream {
    /// A stream that yields `tokens` in order.
    pub fn new(tokens: Vec<Token>) -> (r: PreTokenizedStream)
        ensures
            r.rest() == tokens@,
    {
        let blank = Token {
            offset_from: 0,
            offset_to: 0,
            position: 0,
            text: String::new(),
            position_length: 1,
        };
        let r = PreTokenizedStream { tokens, consumed: 0, blank };
        assert(r.tokens@.skip(0) =~= tokens@);
        r
    }
}

impl TokenStream for PreTokenizedStream {
    closed spec fn rest(&self) -> Seq<Token> {
        if self.consumed <= self.tokens@.len() {
            self.tokens@.skip(self.consumed as int)
        } else {
            Seq::empty()
        }
    }

    closed spec fn current(&self) -> Token {
        if 0 < self.consumed <= self.tokens@.len() {
            self.tokens@[self.consumed - 1]
        } else {
            self.blank
        }
    }

    fn advance(&mut self) -> (r: bool) {
        if self.consumed < self.tokens.len() {
            self.consumed = self.consumed + 1;
            assert(self.tokens@.skip(self.consumed as int) =~= old(self).tokens@.skip(old(self).consumed as int).drop_first());
            true
        } else {
            assert(old(self).rest().len() == 0);
            false
        }
    }

    fn token(&self) -> (r: &Token) {
        if 0 < self.consumed && self.consumed <= self.tokens.len() {
            &self.tokens[self.consumed - 1]
        } else {
            &self.blank
        }
    }
}

/// Whether a token is shorter than `limit` bytes.
pub open spec fn shorter_than(limit: usize) -> spec_fn(Token) -> bool {
    |t: Token| byte_len(t.text@) < limit
}

/// Drops the tokens whose UTF-8 form takes `limit` bytes or more.
#[derive(Clone, Copy, Debug)]
pub struct RemoveLongFilter {
    length_limit: usize,
}

impl RemoveLongFilter {
    /// The limit, in bytes.
    pub closed spec fn limit_spec(&self) -> usize {
        self.length_limit
    }

    /// A filter that drops the tokens of `length_limit` bytes or more.
    pub fn limit(length_limit: usize) -> (r: RemoveLongFilter)
        ensures
            r.limit_spec() == length_limit,
    {
        RemoveLongFilter { length_limit }
    }

    /// Wraps `token_stream` so that it skips the tokens that are too long.
    pub fn transform<T: TokenStream>(&self, token_stream: T) -> (r: RemoveLongFilterStream<T>)
        ensures
            r.limit_spec() == self.limit_spec(),
            r.inner() == token_stream,
            r.rest() == token_stream.rest().filter(shorter_than(self.limit_spec())),
    {
        RemoveLongFilterStream::wrap(self.length_limit, token_stream)
    }
}

/// A token stream that skips the tokens of its inner stream that are too long.
#[derive(Debug)]
pub struct RemoveLongFilterStream<T> {
    token_length_limit: usize,
    tail: T,
}

impl<T: TokenStream> RemoveLongFilterStream<T> {
    /// The limit, in bytes.
    pub closed spec fn limit_spec(&self) -> usize {
        self.token_length_limit
    }

    /// The inner stream.
    pub closed spec fn inner(&self) -> T {
        self.tail
    }

    /// The filtered stream yields the tokens of the inner stream that are
    /// shorter than the limit, and stands where the inner stream stands.
    pub proof fn lemma_filters(&self)
        ensures
            self.rest() == self.inner().rest().filter(shorter_than(self.limit_spec())),
            self.current() == self.inner().current(),
    {
    }

    fn predicate(&self, token: &Token) -> (r: bool)
        ensures
            r == (byte_len(token.text@) < self.token_length_limit),
    {
        let text = token.text.as_str();
        let n = text.as_bytes().len();
        assert(n == encode_utf8(token.text@).len());
        n < self.token_length_limit
    }

    fn wrap(token_length_limit: usize, tail: T) -> (r: RemoveLongFilterStream<T>)
        ensures
            r.token_length_limit == token_length_limit,
            r.tail == tail,
    {
        RemoveLongFilterStream { token_length_limit, tail }
    }
}

impl<T: TokenStream> TokenStream for RemoveLongFilterStream<T> {
    closed spec fn rest(&self) -> Seq<Token> {
        self.tail.rest().filter(shorter_than(self.token_length_limit))
    }

    closed spec fn current(&self) -> Token {
        self.tail.current()
    }

    fn advance(&mut self) -> (r: bool) {
        let ghost keep = shorter_than(self.token_length_limit);
        proof {
            old(self).lemma_filters();
        }
        loop
            invariant
                self.token_length_limit == old(self).token_length_limit,
                keep == shorter_than(self.token_length_limit),
                old(self).rest() == old(self).tail.rest().filter(keep),
                self.tail.rest().filter(keep) == old(self).tail.rest().filter(keep),
            decreases self.tail.rest().len(),
        {
            let ghost before = self.tail.rest();
            if !self.tail.advance() {
                assert(before.len() == 0);
                assert(before.filter(keep) =~= Seq::<Token>::empty());
                assert(old(self).rest() == before.filter(keep));
                return false;
            }
            proof {
                assert(before =~= seq![before[0]] + before.drop_first());
                before.drop_first().lemma_filter_prepend(before[0], keep);
            }
            if self.predicate(self.tail.token()) {
                proof {
                    let t = before[0];
                    assert(self.tail.current() == t);
                    assert(byte_len(t.text@) < self.token_length_limit);
                    assert(keep(t));
                    self.lemma_filters();
                    assert(before.filter(keep) == seq![t] + self.tail.rest().filter(keep));
                    assert(old(self).rest() == before.filter(keep));
                    assert(old(self).rest()[0] == t);
                    assert(self.rest() =~= old(self).rest().drop_first());
                }
                return true;
            }
        }
    }

    fn token(&self) -> (r: &Token) {
        self.tail.token()
    }
}

} // verus!
