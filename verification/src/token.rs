//! Tokens of the bencode wire grammar and their byte-level meaning.

use vstd::prelude::*;

verus! {

/// The serializer's errors.
///
/// `Unsupported` and `NestingTooDeep` are caller-visible data/schema
/// failures. `UnbalancedContainers` is raised when an output buffer is
/// finalized while a container is still open. `MalformedStream` reports a
/// byte buffer that does not tokenize; when it comes out of record assembly
/// it signals an internal-consistency bug, not bad user data.
#[derive(Clone, Copy, Debug, PartialEq, Eq, Structural)]
pub enum Error {
    Unsupported(crate::value::Shape),
    NestingTooDeep,
    UnbalancedContainers,
    MalformedStream,
}

/// A signed integer of up to 128 bits, kept as sign and magnitude so that
/// the full ranges of both `i128` and `u128` fit in one type.
pub struct IntValue {
    pub neg: bool,
    pub mag: u128,
}

impl View for IntValue {
    type V = int;

    open spec fn view(&self) -> int {
        if self.neg {
            -(self.mag as int)
        } else {
            self.mag as int
        }
    }
}

/// One atomic unit of the wire grammar.
pub enum Token {
    Int(IntValue),
    Bytes(Vec<u8>),
    List,
    Dict,
    End,
}

/// The mathematical model of a token.
pub enum TokenModel {
    Int(int),
    Bytes(Seq<u8>),
    List,
    Dict,
    End,
}

impl View for Token {
    type V = TokenModel;

    open spec fn view(&self) -> TokenModel {
        match self {
            Token::Int(iv) => TokenModel::Int(iv@),
            Token::Bytes(b) => TokenModel::Bytes(b@),
            Token::List => TokenModel::List,
            Token::Dict => TokenModel::Dict,
            Token::End => TokenModel::End,
        }
    }
}

/// The decimal digits of `n`, most significant first, no leading zero
/// (`0` itself is the single digit `0`).
pub open spec fn dec_digits(n: nat) -> Seq<u8>
    decreases n,
{
    if n < 10 {
        seq![(48 + n) as u8]
    } else {
        dec_digits(n / 10).push((48 + n % 10) as u8)
    }
}

/// Whether `b` is an ASCII decimal digit.
pub open spec fn is_digit(b: u8) -> bool {
    48 <= b <= 57
}

/// The value of a digit sequence read in base 10.
pub open spec fn digits_value(s: Seq<u8>) -> nat
    decreases s.len(),
{
    if s.len() == 0 {
        0
    } else {
        (digits_value(s.drop_last()) * 10 + (s.last() - 48)) as nat
    }
}

/// A token that the encoder can actually write: integer magnitudes and byte
/// lengths fit in 128 bits.
pub open spec fn token_wf(t: TokenModel) -> bool {
    match t {
        TokenModel::Int(n) => -(u128::MAX as int) <= n <= u128::MAX as int,
        TokenModel::Bytes(b) => b.len() <= u128::MAX,
        _ => true,
    }
}

/// The exact bytes of one token: `i<decimal>e` for integers, `<len>:<bytes>`
/// for byte strings, and the single bytes `l`, `d`, `e` for the container
/// delimiters.
pub open spec fn token_bytes(t: TokenModel) -> Seq<u8> {
    match t {
        TokenModel::Int(n) => seq![105u8] + (if n < 0 {
            seq![45u8] + dec_digits((-n) as nat)
        } else {
            dec_digits(n as nat)
        }) + seq![101u8],
        TokenModel::Bytes(b) => dec_digits(b.len()) + seq![58u8] + b,
        TokenModel::List => seq![108u8],
        TokenModel::Dict => seq![100u8],
        TokenModel::End => seq![101u8],
    }
}

/// The bytes of a whole token stream, in order.
pub open spec fn stream_bytes(ts: Seq<TokenModel>) -> Seq<u8>
    decreases ts.len(),
{
    if ts.len() == 0 {
        Seq::empty()
    } else {
        token_bytes(ts.first()) + stream_bytes(ts.drop_first())
    }
}

/// Replays a token stream against an encoder that currently has `depth` open
/// containers and allows at most `max`: returns the final open-container
/// count, or `None` if some step would exceed the maximum, close a container
/// that is not open, or emit a token that is not well formed.
pub open spec fn stream_run(ts: Seq<TokenModel>, depth: int, max: int) -> Option<int>
    decreases ts.len(),
{
    if ts.len() == 0 {
        Some(depth)
    } else {
        match ts.first() {
            TokenModel::List | TokenModel::Dict => if depth < max {
                stream_run(ts.drop_first(), depth + 1, max)
            } else {
                None
            },
            TokenModel::End => if depth > 0 {
                stream_run(ts.drop_first(), depth - 1, max)
            } else {
                None
            },
            _ => if token_wf(ts.first()) {
                stream_run(ts.drop_first(), depth, max)
            } else {
                None
            },
        }
    }
}

/// A self-contained stream: starting from `depth` open containers it replays
/// without error and returns to exactly `depth`, for every starting depth
/// that leaves it at least `budget` levels of headroom.
pub open spec fn replayable(ts: Seq<TokenModel>, budget: nat) -> bool {
    forall|depth: int, max: int|
        0 <= depth && depth + budget <= max ==> #[trigger] stream_run(ts, depth, max)
            == Some(depth)
}

/// Strict byte-wise lexicographic order on byte strings: the order record
/// keys are emitted in.
pub open spec fn lex_lt(a: Seq<u8>, b: Seq<u8>) -> bool
    decreases a.len(),
{
    if b.len() == 0 {
        false
    } else if a.len() == 0 {
        true
    } else if a.first() < b.first() {
        true
    } else if a.first() > b.first() {
        false
    } else {
        lex_lt(a.drop_first(), b.drop_first())
    }
}

/// `lex_lt` restarted at index `i`: the order of the suffixes from `i` on.
pub open spec fn lex_lt_from(a: Seq<u8>, b: Seq<u8>, i: int) -> bool
    decreases a.len() - i,
{
    if i >= b.len() {
        false
    } else if i >= a.len() {
        true
    } else if a[i] < b[i] {
        true
    } else if a[i] > b[i] {
        false
    } else {
        lex_lt_from(a, b, i + 1)
    }
}

pub proof fn lemma_lex_from(a: Seq<u8>, b: Seq<u8>, i: int)
    requires
        0 <= i <= a.len(),
        0 <= i <= b.len(),
    ensures
        lex_lt_from(a, b, i) == lex_lt(a.skip(i), b.skip(i)),
    decreases a.len() - i,
{
    if i >= b.len() {
        assert(b.skip(i).len() == 0);
    } else if i >= a.len() {
        assert(a.skip(i).len() == 0);
    } else {
        assert(a.skip(i).first() == a[i]);
        assert(b.skip(i).first() == b[i]);
        if a[i] == b[i] {
            lemma_lex_from(a, b, i + 1);
            assert(a.skip(i).drop_first() =~= a.skip(i + 1));
            assert(b.skip(i).drop_first() =~= b.skip(i + 1));
        }
    }
}

pub proof fn lemma_lex_from_eq_prefix(a: Seq<u8>, b: Seq<u8>, i: int)
    requires
        0 <= i <= a.len(),
        0 <= i <= b.len(),
        forall|q: int| 0 <= q < i ==> a[q] == b[q],
    ensures
        lex_lt(a, b) == lex_lt_from(a, b, i),
    decreases i,
{
    if i == 0 {
        lemma_lex_from(a, b, 0);
        assert(a.skip(0) =~= a);
        assert(b.skip(0) =~= b);
    } else {
        lemma_lex_from_eq_prefix(a, b, i - 1);
        assert(lex_lt_from(a, b, i - 1) == lex_lt_from(a, b, i));
    }
}

/// Exactly one of `a < b`, `b < a`, `a == b` holds: byte-wise order is
/// total.
pub proof fn lemma_lex_total(a: Seq<u8>, b: Seq<u8>)
    ensures
        lex_lt(a, b) || lex_lt(b, a) || a == b,
        lex_lt(a, b) ==> !lex_lt(b, a) && a != b,
        lex_lt(b, a) ==> !lex_lt(a, b) && a != b,
        a == b ==> !lex_lt(a, b) && !lex_lt(b, a),
    decreases a.len(),
{
    if a.len() == 0 || b.len() == 0 {
        if a.len() == 0 && b.len() == 0 {
            assert(a =~= b);
        }
    } else if a.first() == b.first() {
        lemma_lex_total(a.drop_first(), b.drop_first());
        if a.drop_first() == b.drop_first() {
            assert forall|q: int| 0 <= q < a.len() implies a[q] == b[q] by {
                if q > 0 {
                    assert(a[q] == a.drop_first()[q - 1]);
                    assert(b[q] == b.drop_first()[q - 1]);
                }
            }
            assert(a =~= b);
        }
        if a == b {
            assert(a.drop_first() =~= b.drop_first());
        }
    }
}

pub proof fn lemma_lex_trans(a: Seq<u8>, b: Seq<u8>, c: Seq<u8>)
    requires
        lex_lt(a, b),
        lex_lt(b, c),
    ensures
        lex_lt(a, c),
    decreases a.len(),
{
    if c.len() == 0 {
    } else if a.len() == 0 {
    } else {
        if b.len() == 0 {
        } else {
            if a.first() == b.first() && b.first() == c.first() {
                lemma_lex_trans(a.drop_first(), b.drop_first(), c.drop_first());
            }
        }
    }
}

pub proof fn lemma_dec_digits_props(n: nat)
    ensures
        dec_digits(n).len() >= 1,
        forall|i: int| 0 <= i < dec_digits(n).len() ==> is_digit(#[trigger] dec_digits(n)[i]),
        (dec_digits(n).first() == 48) <==> n == 0,
    decreases n,
{
    if n >= 10 {
        lemma_dec_digits_props(n / 10);
    }
}

pub proof fn lemma_digits_value_of_dec(n: nat)
    ensures
        digits_value(dec_digits(n)) == n,
    decreases n,
{
    if n < 10 {
        assert(dec_digits(n).drop_last() =~= Seq::<u8>::empty());
        assert(dec_digits(n).last() == (48 + n) as u8);
        assert(digits_value(Seq::<u8>::empty()) == 0);
        assert(digits_value(dec_digits(n)) == n);
    } else {
        lemma_digits_value_of_dec(n / 10);
        let d = (48 + n % 10) as u8;
        assert(dec_digits(n).drop_last() =~= dec_digits(n / 10));
        assert(dec_digits(n).last() == d);
        assert(digits_value(dec_digits(n)) == ((n / 10) * 10 + (d - 48)) as nat);
        assert(n == (n / 10) * 10 + n % 10) by {
            vstd::arithmetic::div_mod::lemma_fundamental_div_mod(n as int, 10);
        }
    }
}

pub proof fn lemma_token_bytes_nonempty(t: TokenModel)
    ensures
        token_bytes(t).len() >= 1,
{
    match t {
        TokenModel::Int(n) => {
            if n < 0 {
                lemma_dec_digits_props((-n) as nat);
            } else {
                lemma_dec_digits_props(n as nat);
            }
        },
        TokenModel::Bytes(b) => {
            lemma_dec_digits_props(b.len());
        },
        _ => {},
    }
}

pub proof fn lemma_stream_bytes_concat(a: Seq<TokenModel>, b: Seq<TokenModel>)
    ensures
        stream_bytes(a + b) == stream_bytes(a) + stream_bytes(b),
    decreases a.len(),
{
    if a.len() == 0 {
        assert(a + b == b);
        assert(stream_bytes(a) + stream_bytes(b) == stream_bytes(b));
    } else {
        assert((a + b).drop_first() == a.drop_first() + b);
        lemma_stream_bytes_concat(a.drop_first(), b);
        assert(stream_bytes(a + b) == token_bytes(a.first()) + (stream_bytes(a.drop_first())
            + stream_bytes(b)));
        assert(token_bytes(a.first()) + (stream_bytes(a.drop_first()) + stream_bytes(b))
            == (token_bytes(a.first()) + stream_bytes(a.drop_first())) + stream_bytes(b));
    }
}

pub proof fn lemma_stream_run_concat(a: Seq<TokenModel>, b: Seq<TokenModel>, depth: int, max: int)
    ensures
        stream_run(a + b, depth, max) == (match stream_run(a, depth, max) {
            Some(d) => stream_run(b, d, max),
            None => None,
        }),
    decreases a.len(),
{
    if a.len() == 0 {
        assert(a + b == b);
    } else {
        assert((a + b).first() == a.first());
        assert((a + b).drop_first() == a.drop_first() + b);
        match a.first() {
            TokenModel::List | TokenModel::Dict => {
                if depth < max {
                    lemma_stream_run_concat(a.drop_first(), b, depth + 1, max);
                }
            },
            TokenModel::End => {
                if depth > 0 {
                    lemma_stream_run_concat(a.drop_first(), b, depth - 1, max);
                }
            },
            _ => {
                if token_wf(a.first()) {
                    lemma_stream_run_concat(a.drop_first(), b, depth, max);
                }
            },
        }
    }
}

} // verus!
