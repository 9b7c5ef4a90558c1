//! The token decoder: re-parses a byte buffer into the token stream it
//! spells. It is strict: only canonically formed tokens (no leading zeros,
//! no negative zero) are accepted, so a decoded token always re-encodes to
//! exactly the bytes it was read from.

use vstd::prelude::*;

use crate::token::dec_digits;
use crate::token::digits_value;
use crate::token::is_digit;
use crate::token::lemma_dec_digits_props;
use crate::token::lemma_digits_value_of_dec;
use crate::token::token_bytes;
use crate::token::token_wf;
use crate::token::Error;
use crate::token::IntValue;
use crate::token::Token;
use crate::token::TokenModel;

verus! {

/// What one decoding step finds at a position: the end of the buffer, a
/// malformed token, or a token together with the position just after it.
pub enum DecodeStep {
    Done,
    Fail,
    Next(TokenModel, int),
}

/// The number of consecutive ASCII digits in `s` starting at `j`.
pub open spec fn digit_run_len(s: Seq<u8>, j: int) -> int
    decreases s.len() - j,
{
    if j < 0 || j >= s.len() || !is_digit(s[j]) {
        0
    } else {
        1 + digit_run_len(s, j + 1)
    }
}

/// Decoding of an integer token `i<decimal>e` starting at `i` (`s[i]` is
/// `i`). The decimal must be canonical: at least one digit, no leading zero,
/// no `-0`, and a magnitude that fits in 128 bits.
pub open spec fn decode_int_at(s: Seq<u8>, i: int) -> DecodeStep {
    let neg = i + 1 < s.len() && s[i + 1] == 45;
    let k = if neg {
        i + 2
    } else {
        i + 1
    };
    let m = digit_run_len(s, k);
    let v = digits_value(s.subrange(k, k + m));
    if m >= 1 && !(m > 1 && s[k] == 48) && !(neg && v == 0) && v <= u128::MAX && k + m < s.len()
        && s[k + m] == 101 {
        DecodeStep::Next(
            TokenModel::Int(
                if neg {
                    -(v as int)
                } else {
                    v as int
                },
            ),
            k + m + 1,
        )
    } else {
        DecodeStep::Fail
    }
}

/// Decoding of a byte-string token `<len>:<bytes>` starting at `i` (`s[i]`
/// is a digit). The length must be canonical and the buffer must hold all
/// `len` bytes.
pub open spec fn decode_bytes_at(s: Seq<u8>, i: int) -> DecodeStep {
    let m = digit_run_len(s, i);
    let len = digits_value(s.subrange(i, i + m));
    if !(m > 1 && s[i] == 48) && i + m < s.len() && s[i + m] == 58 && i + m + 1 + len <= s.len() {
        DecodeStep::Next(
            TokenModel::Bytes(s.subrange(i + m + 1, i + m + 1 + len)),
            i + m + 1 + len,
        )
    } else {
        DecodeStep::Fail
    }
}

/// One decoding step at position `i` of buffer `s`.
pub open spec fn decode_at(s: Seq<u8>, i: int) -> DecodeStep {
    if i >= s.len() {
        DecodeStep::Done
    } else if s[i] == 108 {
        DecodeStep::Next(TokenModel::List, i + 1)
    } else if s[i] == 100 {
        DecodeStep::Next(TokenModel::Dict, i + 1)
    } else if s[i] == 101 {
        DecodeStep::Next(TokenModel::End, i + 1)
    } else if s[i] == 105 {
        decode_int_at(s, i)
    } else if is_digit(s[i]) {
        decode_bytes_at(s, i)
    } else {
        DecodeStep::Fail
    }
}

/// A digit run is exactly as long as the stretch of digits before the first
/// non-digit (or the end of the buffer).
pub proof fn lemma_digit_run(s: Seq<u8>, k: int, m: int)
    requires
        0 <= k,
        0 <= m,
        k + m <= s.len(),
        forall|q: int| 0 <= q < m ==> is_digit(#[trigger] s[k + q]),
        k + m == s.len() || !is_digit(s[k + m]),
    ensures
        digit_run_len(s, k) == m,
    decreases m,
{
    if m == 0 {
    } else {
        assert(is_digit(s[k + 0]));
        assert forall|q: int| 0 <= q < m - 1 implies is_digit(#[trigger] s[(k + 1) + q]) by {
            assert(is_digit(s[k + (q + 1)]));
            assert(s[(k + 1) + q] == s[k + (q + 1)]);
        }
        lemma_digit_run(s, k + 1, m - 1);
    }
}

/// Appending more digits never shrinks the value a digit sequence denotes.
pub proof fn lemma_digits_value_prefix_le(ds: Seq<u8>, p: int)
    requires
        0 <= p <= ds.len(),
        forall|q: int| p <= q < ds.len() ==> is_digit(#[trigger] ds[q]),
    ensures
        digits_value(ds.subrange(0, p)) <= digits_value(ds),
    decreases ds.len(),
{
    if p == ds.len() {
        assert(ds.subrange(0, p) =~= ds);
    } else {
        assert(ds.drop_last() =~= ds.subrange(0, ds.len() - 1));
        assert(ds.subrange(0, p) =~= ds.drop_last().subrange(0, p));
        lemma_digits_value_prefix_le(ds.drop_last(), p);
        assert(digits_value(ds) == (digits_value(ds.drop_last()) * 10 + (ds.last() - 48)) as nat);
        assert(digits_value(ds.drop_last()) * 10 >= digits_value(ds.drop_last()));
        assert(ds.last() >= 48);
    }
}

/// Decoding starts again exactly where a well-formed token's bytes end, and
/// finds that token: the decoder parses back what the encoder printed.
pub proof fn lemma_decode_token_at(s: Seq<u8>, i: int, t: TokenModel)
    requires
        token_wf(t),
        0 <= i,
        i + token_bytes(t).len() <= s.len(),
        s.subrange(i, i + token_bytes(t).len()) == token_bytes(t),
    ensures
        decode_at(s, i) == DecodeStep::Next(t, i + token_bytes(t).len()),
{
    let tb = token_bytes(t);
    assert(forall|q: int| 0 <= q < tb.len() ==> s[i + q] == #[trigger] tb[q]) by {
        assert(forall|q: int|
            0 <= q < tb.len() ==> s.subrange(i, i + tb.len())[q] == #[trigger] tb[q]);
    }
    assert(s[i] == tb[0]) by {
        assert(s[i + 0] == tb[0]);
    }
    match t {
        TokenModel::List => {
            assert(tb[0] == 108);
        },
        TokenModel::Dict => {
            assert(tb[0] == 100);
        },
        TokenModel::End => {
            assert(tb[0] == 101);
        },
        TokenModel::Int(n) => {
            let mag = if n < 0 {
                (-n) as nat
            } else {
                n as nat
            };
            let dd = dec_digits(mag);
            lemma_dec_digits_props(mag);
            lemma_digits_value_of_dec(mag);
            let k = if n < 0 {
                i + 2
            } else {
                i + 1
            };
            assert(s[i] == tb[0]);
            assert(tb[0] == 105);
            if n < 0 {
                assert(tb[1] == 45);
                assert(s[i + 1] == 45);
            } else {
                assert(tb[1] == dd[0]);
                assert(is_digit(s[i + 1]));
                assert(s[i + 1] != 45);
            }
            let m = dd.len() as int;
            assert(forall|q: int| 0 <= q < m ==> s[k + q] == #[trigger] dd[q]) by {
                assert(forall|q: int| 0 <= q < m ==> tb[k - i + q] == #[trigger] dd[q]);
            }
            assert(tb[tb.len() - 1] == 101);
            assert(s[k + m] == 101);
            assert(!is_digit(101u8));
            assert forall|q: int| 0 <= q < m implies is_digit(#[trigger] s[k + q]) by {
                assert(is_digit(dd[q]));
                assert(s[k + q] == dd[q]);
            }
            lemma_digit_run(s, k, m);
            assert(s.subrange(k, k + m) =~= dd);
            let v = digits_value(s.subrange(k, k + m));
            assert(v == mag);
            if n < 0 {
                assert(mag > 0);
                assert(-(v as int) == n);
            }
            if m > 1 {
                assert(mag != 0);
                assert(dd[0] != 48);
                assert(s[k] != 48);
            }
            assert(decode_at(s, i) == decode_int_at(s, i));
            assert(decode_int_at(s, i) == DecodeStep::Next(t, i + tb.len()));
        },
        TokenModel::Bytes(b) => {
            let dd = dec_digits(b.len());
            lemma_dec_digits_props(b.len());
            lemma_digits_value_of_dec(b.len());
            let m = dd.len() as int;
            assert(forall|q: int| 0 <= q < m ==> s[i + q] == #[trigger] dd[q]) by {
                assert(forall|q: int| 0 <= q < m ==> tb[q] == #[trigger] dd[q]);
            }
            assert(s[i] == dd[0]);
            assert(is_digit(s[i]));
            assert(s[i] != 108 && s[i] != 100 && s[i] != 101 && s[i] != 105);
            assert(tb[m] == 58);
            assert(s[i + m] == 58);
            assert(!is_digit(58u8));
            assert forall|q: int| 0 <= q < m implies is_digit(#[trigger] s[i + q]) by {
                assert(is_digit(dd[q]));
                assert(s[i + q] == dd[q]);
            }
            lemma_digit_run(s, i, m);
            assert(s.subrange(i, i + m) =~= dd);
            let len = digits_value(s.subrange(i, i + m));
            assert(len == b.len());
            if m > 1 {
                assert(b.len() != 0);
                assert(dd[0] != 48);
                assert(s[i] != 48);
            }
            assert(s.subrange(i + m + 1, i + m + 1 + len) =~= b) by {
                assert(forall|q: int| 0 <= q < b.len() ==> s[i + m + 1 + q] == #[trigger] b[q])
                    by {
                    assert(forall|q: int|
                        0 <= q < b.len() ==> tb[m + 1 + q] == #[trigger] b[q]);
                }
            }
            assert(decode_at(s, i) == decode_bytes_at(s, i));
            assert(decode_bytes_at(s, i) == DecodeStep::Next(t, i + tb.len()));
        },
    }
}

/// Re-parses a byte buffer, one token per call.
pub struct Decoder {
    buf: Vec<u8>,
    pos: usize,
}

impl Decoder {
    /// The buffer being decoded.
    pub closed spec fn bytes(&self) -> Seq<u8> {
        self.buf@
    }

    /// The current read position.
    pub closed spec fn position(&self) -> int {
        self.pos as int
    }

    pub closed spec fn wf(&self) -> bool {
        self.pos <= self.buf.len()
    }

    /// The current read position as an index into the buffer.
    pub fn pos(&self) -> (r: usize)
        ensures
            r as int == self.position(),
    {
        self.pos
    }

    /// A decoder positioned at the start of `buf`.
    pub fn new(buf: Vec<u8>) -> (r: Decoder)
        ensures
            r.wf(),
            r.bytes() == buf@,
            r.position() == 0,
    {
        Decoder { buf, pos: 0 }
    }

    /// Reads the next token: `Ok(None)` at the end of the buffer,
    /// `Ok(Some(t))` for the token starting at the current position, and
    /// `Err(MalformedStream)` where no canonical token starts here.
    pub fn next(&mut self) -> (r: Result<Option<Token>, Error>)
        requires
            old(self).wf(),
        ensures
            final(self).wf(),
            final(self).bytes() == old(self).bytes(),
            match decode_at(old(self).bytes(), old(self).position()) {
                DecodeStep::Done => r matches Ok(o) && o is None && final(self).position()
                    == old(self).position(),
                DecodeStep::Next(t, p) => r matches Ok(o) && o matches Some(tok) && tok@ == t
                    && final(self).position() == p,
                DecodeStep::Fail => r is Err && r->Err_0 == Error::MalformedStream,
            },
    {
        let ghost s = self.buf@;
        let ghost i = self.pos as int;
        if self.pos >= self.buf.len() {
            return Ok(None);
        }
        let b = self.buf[self.pos];
        if b == 108 {
            self.pos = self.pos + 1;
            Ok(Some(Token::List))
        } else if b == 100 {
            self.pos = self.pos + 1;
            Ok(Some(Token::Dict))
        } else if b == 101 {
            self.pos = self.pos + 1;
            Ok(Some(Token::End))
        } else if b == 105 {
            let mut j = self.pos + 1;
            let neg = j < self.buf.len() && self.buf[j] == 45;
            if neg {
                j = j + 1;
            }
            let k = j;
            let (v, m) = match self.parse_digits(k) {
                Ok(pair) => pair,
                Err(e) => {
                    proof {
                        assert(decode_at(s, i) == decode_int_at(s, i));
                        assert(decode_int_at(s, i) is Fail);
                    }
                    return Err(e);
                },
            };
            j = k + m;
            if m == 0 || (m > 1 && self.buf[k] == 48) || (neg && v == 0) {
                return Err(Error::MalformedStream);
            }
            if j >= self.buf.len() || self.buf[j] != 101 {
                return Err(Error::MalformedStream);
            }
            self.pos = j + 1;
            Ok(Some(Token::Int(IntValue { neg, mag: v })))
        } else if 48 <= b && b <= 57 {
            let k = self.pos;
            let (v, m) = match self.parse_digits(k) {
                Ok(pair) => pair,
                Err(e) => {
                    proof {
                        lemma_digit_run_bounds(s, i);
                        assert(s.len() <= usize::MAX);
                        assert(decode_at(s, i) == decode_bytes_at(s, i));
                        assert(decode_bytes_at(s, i) is Fail);
                    }
                    return Err(e);
                },
            };
            let j = k + m;
            if m > 1 && self.buf[k] == 48 {
                return Err(Error::MalformedStream);
            }
            if j >= self.buf.len() || self.buf[j] != 58 {
                return Err(Error::MalformedStream);
            }
            let start = j + 1;
            let rem = self.buf.len() - start;
            if v > rem as u128 {
                return Err(Error::MalformedStream);
            }
            let n = v as usize;
            let mut payload: Vec<u8> = Vec::new();
            let mut q: usize = 0;
            while q < n
                invariant
                    q <= n,
                    start + n <= self.buf.len(),
                    payload@ == self.buf@.subrange(start as int, start as int + q as int),
                decreases n - q,
            {
                payload.push(self.buf[start + q]);
                q = q + 1;
                assert(payload@ =~= self.buf@.subrange(start as int, start as int + q as int));
            }
            self.pos = start + n;
            Ok(Some(Token::Bytes(payload)))
        } else {
            Err(Error::MalformedStream)
        }
    }

    /// Reads the digit run starting at `k` and its value. Fails only if the
    /// value of the whole run does not fit in 128 bits.
    fn parse_digits(&self, k: usize) -> (r: Result<(u128, usize), Error>)
        requires
            self.wf(),
            k as int <= self.bytes().len(),
        ensures
            ({
                let s = self.bytes();
                let m = digit_run_len(s, k as int);
                let v = digits_value(s.subrange(k as int, k as int + m));
                match r {
                    Ok(pair) => pair.1 == m && k as int + m <= s.len() && pair.0 == v && v
                        <= u128::MAX,
                    Err(e) => e == Error::MalformedStream && v > u128::MAX,
                }
            }),
    {
        let ghost s = self.buf@;
        let ghost run = digit_run_len(s, k as int);
        proof {
            lemma_digit_run_bounds(s, k as int);
        }
        let mut j = k;
        let mut v: u128 = 0;
        while j < self.buf.len() && 48 <= self.buf[j] && self.buf[j] <= 57
            invariant
                self.wf(),
                s == self.bytes(),
                k <= j <= self.buf.len(),
                run == digit_run_len(s, k as int),
                digit_run_len(s, k as int) == (j - k) + digit_run_len(s, j as int),
                forall|q: int| k <= q < j ==> is_digit(#[trigger] s[q]),
                v == digits_value(s.subrange(k as int, j as int)),
            decreases self.buf.len() - j,
        {
            let d = (self.buf[j] - 48) as u128;
            let next = match v.checked_mul(10) {
                Some(x) => match x.checked_add(d) {
                    Some(y) => y,
                    None => {
                        proof {
                            overflow_means_run_too_big(s, k as int, j as int, run);
                        }
                        return Err(Error::MalformedStream);
                    },
                },
                None => {
                    proof {
                        overflow_means_run_too_big(s, k as int, j as int, run);
                    }
                    return Err(Error::MalformedStream);
                },
            };
            proof {
                assert(s.subrange(k as int, j + 1).drop_last() =~= s.subrange(
                    k as int,
                    j as int,
                ));
                assert(s.subrange(k as int, j + 1).last() == s[j as int]);
            }
            v = next;
            j = j + 1;
        }
        proof {
            assert(digit_run_len(s, j as int) == 0);
        }
        Ok((v, j - k))
    }
}

/// The digit run starting at `k` stays inside the buffer.
proof fn lemma_digit_run_bounds(s: Seq<u8>, k: int)
    requires
        0 <= k <= s.len(),
    ensures
        0 <= digit_run_len(s, k),
        k + digit_run_len(s, k) <= s.len(),
        forall|q: int| k <= q < k + digit_run_len(s, k) ==> is_digit(#[trigger] s[q]),
        k + digit_run_len(s, k) == s.len() || !is_digit(s[k + digit_run_len(s, k)]),
    decreases s.len() - k,
{
    if k < s.len() && is_digit(s[k]) {
        lemma_digit_run_bounds(s, k + 1);
    }
}

/// If the value of a digit prefix already exceeds `u128::MAX`, so does the
/// value of the whole run.
proof fn overflow_means_run_too_big(s: Seq<u8>, k: int, j: int, run: int)
    requires
        0 <= k <= j,
        j < s.len(),
        is_digit(s[j]),
        run == digit_run_len(s, k),
        run == (j - k) + digit_run_len(s, j),
        forall|q: int| k <= q < j ==> is_digit(#[trigger] s[q]),
        digits_value(s.subrange(k, j)) * 10 + (s[j] - 48) > u128::MAX,
    ensures
        digits_value(s.subrange(k, k + run)) > u128::MAX,
{
    lemma_digit_run_bounds(s, k);
    let whole = s.subrange(k, k + run);
    let p = j + 1 - k;
    assert(j + 1 <= k + run) by {
        assert(digit_run_len(s, j) >= 1);
    }
    assert(forall|q: int| p <= q < whole.len() ==> is_digit(#[trigger] whole[q]));
    lemma_digits_value_prefix_le(whole, p);
    assert(whole.subrange(0, p) =~= s.subrange(k, j + 1));
    assert(s.subrange(k, j + 1).drop_last() =~= s.subrange(k, j));
    assert(s.subrange(k, j + 1).last() == s[j]);
    assert(digits_value(s.subrange(k, j + 1)) == (digits_value(s.subrange(k, j)) * 10 + (s[j]
        - 48)) as nat);
}

} // verus!
