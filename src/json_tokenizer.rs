//! Splits the bytes of one JSON text into tokens, each with its offset.
use vstd::prelude::*;
use crate::text::{ascii_chars, ascii_string};

verus! {

/// What the string decoder of `serde_json` makes of `raw`, a complete JSON
/// string literal with its quotes: the text, or `None` when it is invalid.
pub uninterp spec fn json_string_value(raw: Seq<u8>) -> Option<Seq<char>>;

/// Relies on `serde_json::from_slice::<String>`: it decodes one JSON string
/// literal (quotes, escapes, UTF-8) or fails.
#[verifier::external_body]
fn decode_string(b: &[u8], start: usize, end: usize) -> (r: Option<String>)
    requires
        start <= end <= b@.len(),
    ensures
        match r {
            Some(s) => json_string_value(b@.subrange(start as int, end as int)) == Some(s@),
            None => json_string_value(b@.subrange(start as int, end as int)).is_none(),
        },
{
    serde_json::from_slice::<String>(&b[start..end]).ok()
}

pub enum Token {
    OpenBracket,
    CloseBracket,
    Colon,
    Comma,
    String(String),
    Number(String),
    Boolean(bool),
    OpenArray,
    CloseArray,
    Null,
}

pub open spec fn is_ws(b: u8) -> bool {
    b == 32 || b == 9 || b == 10 || b == 13
}

pub open spec fn is_digit(b: u8) -> bool {
    48 <= b <= 57
}

/// First position at or after `i` that does not hold whitespace.
pub open spec fn skip_ws(s: Seq<u8>, i: int) -> int
    decreases s.len() - i,
{
    if i < 0 || i >= s.len() || !is_ws(s[i]) {
        i
    } else {
        skip_ws(s, i + 1)
    }
}

/// First position at or after `i` that does not hold a digit.
pub open spec fn digits_end(s: Seq<u8>, i: int) -> int
    decreases s.len() - i,
{
    if i < 0 || i >= s.len() || !is_digit(s[i]) {
        i
    } else {
        digits_end(s, i + 1)
    }
}

/// Position of the quote that closes a string whose contents start at `i`.
pub open spec fn string_close(s: Seq<u8>, i: int) -> Option<int>
    decreases s.len() - i,
{
    if i < 0 || i >= s.len() {
        None
    } else if s[i] == 34 {
        Some(i)
    } else if s[i] == 92 {
        if i + 1 >= s.len() {
            None
        } else {
            string_close(s, i + 2)
        }
    } else {
        string_close(s, i + 1)
    }
}

pub open spec fn at(s: Seq<u8>, i: int, b: u8) -> bool {
    0 <= i < s.len() && s[i] == b
}

/// End of the integer part of a number that starts at `a` (after any sign).
pub open spec fn int_part_end(s: Seq<u8>, a: int) -> Option<int> {
    if at(s, a, 48) {
        Some(a + 1)
    } else if 0 <= a < s.len() && 49 <= s[a] <= 57 {
        Some(digits_end(s, a))
    } else {
        None
    }
}

/// End of an optional fraction starting at `b`.
pub open spec fn frac_end(s: Seq<u8>, b: int) -> Option<int> {
    if at(s, b, 46) {
        if digits_end(s, b + 1) == b + 1 {
            None
        } else {
            Some(digits_end(s, b + 1))
        }
    } else {
        Some(b)
    }
}

/// End of an optional exponent starting at `c`.
pub open spec fn exp_end(s: Seq<u8>, c: int) -> Option<int> {
    if at(s, c, 101) || at(s, c, 69) {
        let d = if at(s, c + 1, 43) || at(s, c + 1, 45) {
            c + 2
        } else {
            c + 1
        };
        if digits_end(s, d) == d {
            None
        } else {
            Some(digits_end(s, d))
        }
    } else {
        Some(c)
    }
}

/// End of the JSON number that starts at `i`, if one does.
pub open spec fn number_end(s: Seq<u8>, i: int) -> Option<int> {
    let a = if at(s, i, 45) {
        i + 1
    } else {
        i
    };
    match int_part_end(s, a) {
        None => None,
        Some(b) => match frac_end(s, b) {
            None => None,
            Some(c) => exp_end(s, c),
        },
    }
}

/// Whether `s` holds the bytes of `lit` from position `i`.
pub open spec fn holds_at(s: Seq<u8>, i: int, lit: Seq<u8>) -> bool {
    0 <= i && i + lit.len() <= s.len() && s.subrange(i, i + lit.len()) == lit
}

pub open spec fn true_bytes() -> Seq<u8> {
    seq![116u8, 114u8, 117u8, 101u8]
}

pub open spec fn false_bytes() -> Seq<u8> {
    seq![102u8, 97u8, 108u8, 115u8, 101u8]
}

pub open spec fn null_bytes() -> Seq<u8> {
    seq![110u8, 117u8, 108u8, 108u8]
}

/// What a token read at `start`, ending at `end`, says of the input.
pub open spec fn token_spans(s: Seq<u8>, tok: Token, start: int, end: int) -> bool {
    match tok {
        Token::OpenBracket => s[start] == 123 && end == start + 1,
        Token::CloseBracket => s[start] == 125 && end == start + 1,
        Token::OpenArray => s[start] == 91 && end == start + 1,
        Token::CloseArray => s[start] == 93 && end == start + 1,
        Token::Colon => s[start] == 58 && end == start + 1,
        Token::Comma => s[start] == 44 && end == start + 1,
        Token::String(t) => s[start] == 34 && string_close(s, start + 1) == Some(end - 1)
            && json_string_value(s.subrange(start, end)) == Some(t@),
        Token::Number(t) => number_end(s, start) == Some(end) && t@ == ascii_chars(
            s.subrange(start, end),
        ),
        Token::Boolean(b) => if b {
            holds_at(s, start, true_bytes()) && end == start + 4
        } else {
            holds_at(s, start, false_bytes()) && end == start + 5
        },
        Token::Null => holds_at(s, start, null_bytes()) && end == start + 4,
    }
}

/// Whether `b` is one of the six structural characters `{ } [ ] : ,`.
pub open spec fn is_structural(b: u8) -> bool {
    b == 123 || b == 125 || b == 91 || b == 93 || b == 58 || b == 44
}

/// Whether a token of this kind stands for a whole value.
pub open spec fn is_scalar_token(tok: Token) -> bool {
    match tok {
        Token::String(_) | Token::Number(_) | Token::Boolean(_) | Token::Null => true,
        _ => false,
    }
}

/// End of the string, number, `true`, `false` or `null` that starts at `q`.
pub open spec fn scalar_end(s: Seq<u8>, q: int) -> Option<int> {
    if !(0 <= q < s.len()) {
        None
    } else if s[q] == 34 {
        match string_close(s, q + 1) {
            Some(c) => if json_string_value(s.subrange(q, c + 1)).is_some() {
                Some(c + 1)
            } else {
                None
            },
            None => None,
        }
    } else if s[q] == 116 {
        if holds_at(s, q, true_bytes()) {
            Some(q + 4)
        } else {
            None
        }
    } else if s[q] == 102 {
        if holds_at(s, q, false_bytes()) {
            Some(q + 5)
        } else {
            None
        }
    } else if s[q] == 110 {
        if holds_at(s, q, null_bytes()) {
            Some(q + 4)
        } else {
            None
        }
    } else if s[q] == 45 || is_digit(s[q]) {
        number_end(s, q)
    } else {
        None
    }
}

/// End of the JSON value that starts at `p` (after any whitespace), if one does.
pub open spec fn value_end(s: Seq<u8>, p: int) -> Option<int>
    decreases s.len() - p, 0int,
{
    let q = skip_ws(s, p);
    if p < 0 || p > s.len() || q < p || q >= s.len() {
        None
    } else if s[q] == 123 {
        members_end(s, q + 1, true)
    } else if s[q] == 91 {
        elements_end(s, q + 1, true)
    } else {
        scalar_end(s, q)
    }
}

/// End of the rest of an array from `p`, just after `[` (`first`) or after an element.
pub open spec fn elements_end(s: Seq<u8>, p: int, first: bool) -> Option<int>
    decreases s.len() - p, 1int,
{
    let q = skip_ws(s, p);
    if p < 0 || p > s.len() || q < p || q >= s.len() {
        None
    } else if s[q] == 93 {
        Some(q + 1)
    } else {
        let v = if first {
            value_end(s, q)
        } else if s[q] == 44 {
            value_end(s, q + 1)
        } else {
            None
        };
        match v {
            Some(e) => if p < e <= s.len() {
                elements_end(s, e, false)
            } else {
                None
            },
            None => None,
        }
    }
}

/// Where the key of the next member stands, given the first token `q` after
/// `{` (`first`) or after a member; `-1` when no key can follow.
pub open spec fn key_start(s: Seq<u8>, q: int, first: bool) -> int {
    if first {
        q
    } else if s[q] == 44 {
        skip_ws(s, q + 1)
    } else {
        -1
    }
}

/// End of the rest of an object from `p`, just after `{` (`first`) or after a member.
pub open spec fn members_end(s: Seq<u8>, p: int, first: bool) -> Option<int>
    decreases s.len() - p, 1int,
{
    let q = skip_ws(s, p);
    if p < 0 || p > s.len() || q < p || q >= s.len() {
        None
    } else if s[q] == 125 {
        Some(q + 1)
    } else {
        let k = key_start(s, q, first);
        if !(0 <= k < s.len()) || s[k] != 34 {
            None
        } else {
            match scalar_end(s, k) {
                Some(ke) => {
                    let c = skip_ws(s, ke);
                    if c < p || !(0 <= c < s.len()) || s[c] != 58 {
                        None
                    } else {
                        match value_end(s, c + 1) {
                            Some(e) => if p < e <= s.len() {
                                members_end(s, e, false)
                            } else {
                                None
                            },
                            None => None,
                        }
                    }
                },
                None => None,
            }
        }
    }
}

/// A cursor over the bytes of one JSON text.
pub struct JSONTokenizer {
    input: Vec<u8>,
    position: usize,
}

proof fn lemma_skip_ws_bounds(s: Seq<u8>, i: int)
    requires
        0 <= i <= s.len(),
    ensures
        i <= skip_ws(s, i) <= s.len(),
        skip_ws(s, i) < s.len() ==> !is_ws(s[skip_ws(s, i)]),
    decreases s.len() - i,
{
    if i < s.len() && is_ws(s[i]) {
        lemma_skip_ws_bounds(s, i + 1);
    }
}

pub proof fn lemma_skip_ws_at_token(s: Seq<u8>, q: int)
    requires
        0 <= q < s.len(),
        !is_ws(s[q]),
    ensures
        skip_ws(s, q) == q,
{
}

pub proof fn lemma_skip_ws_le(s: Seq<u8>, i: int)
    requires
        0 <= i <= s.len(),
    ensures
        i <= skip_ws(s, i) <= s.len(),
        skip_ws(s, i) < s.len() ==> !is_ws(s[skip_ws(s, i)]),
        skip_ws(s, skip_ws(s, i)) == skip_ws(s, i),
{
    lemma_skip_ws_bounds(s, i);
}

proof fn lemma_digits_end_bounds(s: Seq<u8>, i: int)
    requires
        0 <= i <= s.len(),
    ensures
        i <= digits_end(s, i) <= s.len(),
        forall|k: int| i <= k < digits_end(s, i) ==> is_digit(#[trigger] s[k]),
    decreases s.len() - i,
{
    if i < s.len() && is_digit(s[i]) {
        lemma_digits_end_bounds(s, i + 1);
    }
}

proof fn lemma_string_close_bounds(s: Seq<u8>, i: int)
    requires
        0 <= i,
    ensures
        string_close(s, i) matches Some(c) ==> i <= c < s.len() && s[c] == 34,
    decreases s.len() - i,
{
    if i < s.len() && s[i] != 34 {
        if s[i] == 92 {
            if i + 1 < s.len() {
                lemma_string_close_bounds(s, i + 2);
            }
        } else {
            lemma_string_close_bounds(s, i + 1);
        }
    }
}

impl JSONTokenizer {
    pub closed spec fn input_spec(&self) -> Seq<u8> {
        self.input@
    }

    pub closed spec fn position_spec(&self) -> int {
        self.position as int
    }

    /// The cursor never passes the end of the input.
    pub open spec fn wf(&self) -> bool {
        &&& 0 <= self.position_spec() <= self.input_spec().len()
        &&& self.input_spec().len() < usize::MAX
    }

    pub fn new(input: Vec<u8>) -> (r: Self)
        requires
            input@.len() < usize::MAX,
        ensures
            r.wf(),
            r.input_spec() == input@,
            r.position_spec() == 0,
    {
        Self { input, position: 0 }
    }

    pub fn position(&self) -> (r: usize)
        ensures
            r == self.position_spec(),
    {
        self.position
    }

    fn digits(&self, i: usize) -> (r: usize)
        requires
            i <= self.input@.len(),
        ensures
            r == digits_end(self.input@, i as int),
    {
        let mut k = i;
        while k < self.input.len() && self.input[k] >= 48 && self.input[k] <= 57
            invariant
                i <= k <= self.input@.len(),
                digits_end(self.input@, i as int) == digits_end(self.input@, k as int),
            decreases self.input@.len() - k,
        {
            k += 1;
        }
        k
    }

    fn byte_is(&self, i: usize, b: u8) -> (r: bool)
        ensures
            r == at(self.input@, i as int, b),
    {
        i < self.input.len() && self.input[i] == b
    }

    /// End of the number that starts at `i`, if one does.
    fn number_from(&self, i: usize) -> (r: Option<usize>)
        requires
            self.wf(),
            i < self.input@.len(),
        ensures
            match r {
                Some(e) => number_end(self.input@, i as int) == Some(e as int),
                None => number_end(self.input@, i as int).is_none(),
            },
    {
        let s = Ghost(self.input@);
        let a = if self.byte_is(i, 45) { i + 1 } else { i };
        let b = if self.byte_is(a, 48) {
            a + 1
        } else if a < self.input.len() && self.input[a] >= 49 && self.input[a] <= 57 {
            proof { lemma_digits_end_bounds(s@, a as int); }
            self.digits(a)
        } else {
            return None;
        };
        assert(int_part_end(s@, a as int) == Some(b as int));
        let c = if self.byte_is(b, 46) {
            proof { lemma_digits_end_bounds(s@, b + 1); }
            let d = self.digits(b + 1);
            if d == b + 1 {
                return None;
            }
            d
        } else {
            b
        };
        assert(frac_end(s@, b as int) == Some(c as int));
        if self.byte_is(c, 101) || self.byte_is(c, 69) {
            let d = if self.byte_is(c + 1, 43) || self.byte_is(c + 1, 45) { c + 2 } else { c + 1 };
            if d > self.input.len() {
                proof { lemma_digits_end_bounds(s@, s@.len() as int); }
                return None;
            }
            proof { lemma_digits_end_bounds(s@, d as int); }
            let e = self.digits(d);
            if e == d {
                return None;
            }
            Some(e)
        } else {
            Some(c)
        }
    }

    fn holds_literal(&self, i: usize, lit: &[u8]) -> (r: bool)
        requires
            self.wf(),
        ensures
            r == holds_at(self.input@, i as int, lit@),
    {
        if lit.len() > self.input.len() || i > self.input.len() - lit.len() {
            return false;
        }
        let mut k: usize = 0;
        while k < lit.len()
            invariant
                k <= lit@.len(),
                i + lit@.len() <= self.input@.len(),
                self.input@.len() < usize::MAX,
                forall|j: int| 0 <= j < k ==> self.input@[i + j] == lit@[j],
            decreases lit@.len() - k,
        {
            if self.input[i + k] != lit[k] {
                assert(self.input@.subrange(i as int, i + lit@.len())[k as int] != lit@[k as int]);
                return false;
            }
            k += 1;
        }
        assert(self.input@.subrange(i as int, i + lit@.len()) =~= lit@);
        true
    }

    /// Reads the next token, skipping whitespace before it, and gives its
    /// offset: that of the first byte of the string's text for a string
    /// token, else that of the token's first byte.
    ///
    /// `Ok(None)` when only whitespace is left; on `Err(p)`, `p` is the offset
    /// of the byte where no token could be read.
    pub fn next(&mut self) -> (r: Result<Option<(Token, usize)>, usize>)
        requires
            old(self).wf(),
        ensures
            final(self).wf(),
            final(self).input_spec() == old(self).input_spec(),
            old(self).position_spec() <= final(self).position_spec() <= final(self).input_spec().len(),
            match r {
                Ok(None) => skip_ws(old(self).input_spec(), old(self).position_spec())
                    >= old(self).input_spec().len(),
                Ok(Some((tok, at))) => {
                    let start = skip_ws(old(self).input_spec(), old(self).position_spec());
                    &&& at == (if tok is String {
                        start + 1
                    } else {
                        start
                    })
                    &&& old(self).position_spec() <= start < final(self).position_spec()
                    &&& !is_ws(old(self).input_spec()[start])
                    &&& token_spans(old(self).input_spec(), tok, start, final(self).position_spec())
                    &&& is_scalar_token(tok) ==> scalar_end(old(self).input_spec(), start)
                        == Some(final(self).position_spec())
                },
                Err(p) => p == skip_ws(old(self).input_spec(), old(self).position_spec())
                    && p < old(self).input_spec().len()
                    && !is_structural(old(self).input_spec()[p as int])
                    && scalar_end(old(self).input_spec(), p as int) is None,
            },
    {
        match self.next_token() {
            Ok(Some((Token::String(t), a))) => Ok(Some((Token::String(t), a + 1))),
            other => other,
        }
    }

    /// Reads the next token like `next`, but gives the offset of the token's
    /// first byte in every case (the opening quote of a string).
    pub fn next_token(&mut self) -> (r: Result<Option<(Token, usize)>, usize>)
        requires
            old(self).wf(),
        ensures
            final(self).wf(),
            final(self).input_spec() == old(self).input_spec(),
            old(self).position_spec() <= final(self).position_spec() <= final(self).input_spec().len(),
            match r {
                Ok(None) => skip_ws(old(self).input_spec(), old(self).position_spec())
                    >= old(self).input_spec().len(),
                Ok(Some((tok, start))) => {
                    &&& old(self).position_spec() <= start
                    &&& !is_ws(old(self).input_spec()[start as int])
                    &&& start == skip_ws(old(self).input_spec(), old(self).position_spec())
                    &&& start < final(self).position_spec()
                    &&& token_spans(old(self).input_spec(), tok, start as int, final(self).position_spec())
                    &&& is_scalar_token(tok) ==> scalar_end(old(self).input_spec(), start as int)
                        == Some(final(self).position_spec())
                    &&& (old(self).input_spec()[start as int] == 123) == (tok is OpenBracket)
                },
                Err(p) => p == skip_ws(old(self).input_spec(), old(self).position_spec())
                    && p < old(self).input_spec().len()
                    && !is_structural(old(self).input_spec()[p as int])
                    && scalar_end(old(self).input_spec(), p as int) is None,
            },
    {
        let ghost pos0 = self.position as int;
        let ghost s = self.input@;
        proof { lemma_skip_ws_bounds(s, pos0); }
        while self.position < self.input.len() && (self.input[self.position] == 32
            || self.input[self.position] == 9 || self.input[self.position] == 10
            || self.input[self.position] == 13)
            invariant
                pos0 <= self.position <= self.input@.len(),
                self.input@ == s,
                skip_ws(s, pos0) == skip_ws(s, self.position as int),
            decreases self.input@.len() - self.position,
        {
            self.position += 1;
        }
        let start = self.position;
        if start >= self.input.len() {
            return Ok(None);
        }
        let b = self.input[start];
        if b == 123 || b == 125 || b == 91 || b == 93 || b == 58 || b == 44 {
            self.position = start + 1;
            let tok = if b == 123 {
                Token::OpenBracket
            } else if b == 125 {
                Token::CloseBracket
            } else if b == 91 {
                Token::OpenArray
            } else if b == 93 {
                Token::CloseArray
            } else if b == 58 {
                Token::Colon
            } else {
                Token::Comma
            };
            Ok(Some((tok, start)))
        } else if b == 34 {
            self.position = start + 1;
            match self.tokenize_string() {
                Ok(Some((t, a))) => Ok(Some((t, a - 1))),
                other => other,
            }
        } else if b == 116 {
            if self.holds_literal(start, &[116u8, 114u8, 117u8, 101u8]) {
                self.position = start + 4;
                Ok(Some((Token::Boolean(true), start)))
            } else {
                Err(start)
            }
        } else if b == 102 {
            if self.holds_literal(start, &[102u8, 97u8, 108u8, 115u8, 101u8]) {
                self.position = start + 5;
                Ok(Some((Token::Boolean(false), start)))
            } else {
                Err(start)
            }
        } else if b == 110 {
            if self.holds_literal(start, &[110u8, 117u8, 108u8, 108u8]) {
                self.position = start + 4;
                Ok(Some((Token::Null, start)))
            } else {
                Err(start)
            }
        } else if b == 45 || (b >= 48 && b <= 57) {
            match self.number_from(start) {
                Some(e) => {
                    proof { self.lemma_number_ascii(start as int, e as int); }
                    let t = ascii_string(&self.input, start, e);
                    self.position = e;
                    Ok(Some((Token::Number(t), start)))
                },
                None => Err(start),
            }
        } else {
            Err(start)
        }
    }

    proof fn lemma_number_ascii(&self, i: int, e: int)
        requires
            0 <= i < self.input@.len(),
            number_end(self.input@, i) == Some(e),
        ensures
            i < e <= self.input@.len(),
            forall|k: int| i <= k < e ==> self.input@[k] < 128,
    {
        let s = self.input@;
        let a = if at(s, i, 45) { i + 1 } else { i };
        if 0 <= a < s.len() {
            lemma_digits_end_bounds(s, a);
        }
        let b = int_part_end(s, a).unwrap();
        if b + 1 <= s.len() {
            lemma_digits_end_bounds(s, b + 1);
        }
        let c = frac_end(s, b).unwrap();
        let d = if at(s, c + 1, 43) || at(s, c + 1, 45) { c + 2 } else { c + 1 };
        if d <= s.len() {
            lemma_digits_end_bounds(s, d);
        }
        assert forall|k: int| i <= k < e implies self.input@[k] < 128 by {
            if k >= a && k < b {
                if at(s, a, 48) {} else { assert(is_digit(s[k])); }
            } else if k > b && k < c {
                assert(is_digit(s[k]));
            } else if k > c + 1 && k >= d && k < e {
                assert(is_digit(s[k]));
            }
        }
    }

    /// Reads the rest of a string whose opening quote was just consumed; the
    /// token's offset is that of the first byte after the quote.
    fn tokenize_string(&mut self) -> (r: Result<Option<(Token, usize)>, usize>)
        requires
            old(self).wf(),
            1 <= old(self).position_spec(),
            old(self).input_spec()[old(self).position_spec() - 1] == 34,
        ensures
            final(self).wf(),
            final(self).input_spec() == old(self).input_spec(),
            old(self).position_spec() <= final(self).position_spec(),
            match r {
                Ok(None) => false,
                Ok(Some((tok, at))) => {
                    &&& at == old(self).position_spec()
                    &&& at < final(self).position_spec()
                    &&& tok is String
                    &&& token_spans(old(self).input_spec(), tok, at - 1, final(self).position_spec())
                    &&& scalar_end(old(self).input_spec(), at - 1) == Some(final(self).position_spec())
                },
                Err(p) => p == old(self).position_spec() - 1 && scalar_end(old(self).input_spec(), p as int) is None,
            },
    {
        let start = self.position - 1;
        let ghost s = self.input@;
        let mut k = self.position;
        while k < self.input.len() && self.input[k] != 34
            invariant
                start + 1 <= k <= s.len(),
                s.len() < usize::MAX,
                self.input@ == s,
                string_close(s, start + 1) == string_close(s, k as int),
            decreases self.input@.len() - k,
        {
            if self.input[k] == 92 {
                k = if k + 1 < self.input.len() { k + 2 } else { self.input.len() };
            } else {
                k += 1;
            }
        }
        if k >= self.input.len() {
            return Err(start);
        }
        proof { lemma_string_close_bounds(s, start + 1); }
        match decode_string(&self.input, start, k + 1) {
            Some(t) => {
                self.position = k + 1;
                Ok(Some((Token::String(t), start + 1)))
            },
            None => Err(start),
        }
    }
}

} // verus!
