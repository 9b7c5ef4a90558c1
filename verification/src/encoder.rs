//! The token encoder: appends token bytes to an output buffer while holding
//! the number of open containers to a configured maximum.

use vstd::prelude::*;

use crate::token::dec_digits;
use crate::token::token_bytes;
use crate::token::Error;
use crate::token::IntValue;
use crate::token::Token;
use crate::token::TokenModel;

verus! {

/// Nesting levels allowed when no explicit maximum is given.
pub const DEFAULT_MAX_DEPTH: usize = 2048;

/// Appends the decimal digits of `n` to `out`, most significant first.
fn push_decimal(out: &mut Vec<u8>, n: u128)
    ensures
        final(out)@ == old(out)@ + dec_digits(n as nat),
    decreases n,
{
    if n < 10 {
        out.push(48 + n as u8);
        assert(final(out)@ =~= old(out)@ + dec_digits(n as nat));
    } else {
        push_decimal(out, n / 10);
        out.push((48 + n % 10) as u8);
        assert(final(out)@ =~= old(out)@ + dec_digits(n as nat));
    }
}

/// Appends all of `src` to `out`.
fn push_all(out: &mut Vec<u8>, src: &Vec<u8>)
    ensures
        final(out)@ == old(out)@ + src@,
{
    let mut i: usize = 0;
    while i < src.len()
        invariant
            i <= src.len(),
            out@ == old(out)@ + src@.subrange(0, i as int),
        decreases src.len() - i,
    {
        out.push(src[i]);
        i = i + 1;
        assert(out@ =~= old(out)@ + src@.subrange(0, i as int));
    }
    assert(src@.subrange(0, src.len() as int) =~= src@);
}

/// Accepts primitive emit operations and appends their bytes to an output
/// buffer, tracking the number of open containers against a maximum.
pub struct Encoder {
    out: Vec<u8>,
    open: usize,
    max: usize,
}

impl Encoder {
    /// The bytes written so far.
    pub closed spec fn output(&self) -> Seq<u8> {
        self.out@
    }

    /// How many containers are currently open.
    pub closed spec fn depth(&self) -> nat {
        self.open as nat
    }

    /// The configured nesting limit.
    pub closed spec fn max_depth(&self) -> nat {
        self.max as nat
    }

    /// The remaining depth budget.
    pub open spec fn remaining(&self) -> nat {
        (self.max_depth() - self.depth()) as nat
    }

    /// Structural soundness: never more containers open than allowed.
    pub open spec fn wf(&self) -> bool {
        self.depth() <= self.max_depth()
    }

    /// A fresh encoder with the default nesting limit.
    pub fn new() -> (r: Encoder)
        ensures
            r.wf(),
            r.output() == Seq::<u8>::empty(),
            r.depth() == 0,
            r.max_depth() == DEFAULT_MAX_DEPTH as nat,
    {
        Encoder { out: Vec::new(), open: 0, max: DEFAULT_MAX_DEPTH }
    }

    /// The same encoder with the nesting limit replaced.
    pub fn with_max_depth(self, max_depth: usize) -> (r: Encoder)
        requires
            self.depth() <= max_depth,
        ensures
            r.wf(),
            r.output() == self.output(),
            r.depth() == self.depth(),
            r.max_depth() == max_depth as nat,
    {
        Encoder { out: self.out, open: self.open, max: max_depth }
    }

    /// How many more container levels may be opened.
    pub fn remaining_depth(&self) -> (r: usize)
        requires
            self.wf(),
        ensures
            r as nat == self.remaining(),
    {
        self.max - self.open
    }

    /// Emits one token. Opening a container past the nesting limit fails
    /// with `NestingTooDeep`; closing with no container open fails with
    /// `UnbalancedContainers`; either failure leaves the encoder unchanged.
    /// Scalar tokens always succeed.
    pub fn emit_token(&mut self, t: Token) -> (r: Result<(), Error>)
        requires
            old(self).wf(),
        ensures
            final(self).wf(),
            final(self).max_depth() == old(self).max_depth(),
            (t@ is List || t@ is Dict) && old(self).depth() < old(self).max_depth() ==> r is Ok
                && final(self).depth() == old(self).depth() + 1 && final(self).output() == old(
                self,
            ).output() + token_bytes(t@),
            (t@ is List || t@ is Dict) && old(self).depth() >= old(self).max_depth() ==> r
                == Err::<(), Error>(Error::NestingTooDeep) && final(self).depth() == old(
                self,
            ).depth() && final(self).output() == old(self).output(),
            t@ is End && old(self).depth() > 0 ==> r is Ok && final(self).depth() == old(
                self,
            ).depth() - 1 && final(self).output() == old(self).output() + token_bytes(t@),
            t@ is End && old(self).depth() == 0 ==> r == Err::<(), Error>(
                Error::UnbalancedContainers,
            ) && final(self).depth() == old(self).depth() && final(self).output() == old(
                self,
            ).output(),
            t@ is Int || t@ is Bytes ==> r is Ok && final(self).depth() == old(self).depth()
                && final(self).output() == old(self).output() + token_bytes(t@),
    {
        match t {
            Token::Int(iv) => {
                self.emit_int(iv);
                Ok(())
            },
            Token::Bytes(b) => {
                self.emit_bytes(&b);
                Ok(())
            },
            Token::List => {
                if self.open >= self.max {
                    return Err(Error::NestingTooDeep);
                }
                self.out.push(108);
                self.open = self.open + 1;
                assert(self.out@ =~= old(self).out@ + token_bytes(t@));
                Ok(())
            },
            Token::Dict => {
                if self.open >= self.max {
                    return Err(Error::NestingTooDeep);
                }
                self.out.push(100);
                self.open = self.open + 1;
                assert(self.out@ =~= old(self).out@ + token_bytes(t@));
                Ok(())
            },
            Token::End => {
                if self.open == 0 {
                    return Err(Error::UnbalancedContainers);
                }
                self.out.push(101);
                self.open = self.open - 1;
                assert(self.out@ =~= old(self).out@ + token_bytes(t@));
                Ok(())
            },
        }
    }

    /// Emits one integer token, `i<decimal>e`.
    pub fn emit_int(&mut self, iv: IntValue)
        requires
            old(self).wf(),
        ensures
            final(self).wf(),
            final(self).max_depth() == old(self).max_depth(),
            final(self).depth() == old(self).depth(),
            final(self).output() == old(self).output() + token_bytes(TokenModel::Int(iv@)),
    {
        self.out.push(105);
        if iv.neg && iv.mag > 0 {
            self.out.push(45);
        }
        push_decimal(&mut self.out, iv.mag);
        self.out.push(101);
        assert(self.out@ =~= old(self).out@ + token_bytes(TokenModel::Int(iv@)));
    }

    /// Emits one byte-string token, `<len>:<bytes>`.
    pub fn emit_bytes(&mut self, b: &Vec<u8>)
        requires
            old(self).wf(),
        ensures
            final(self).wf(),
            final(self).max_depth() == old(self).max_depth(),
            final(self).depth() == old(self).depth(),
            final(self).output() == old(self).output() + token_bytes(TokenModel::Bytes(b@)),
    {
        push_decimal(&mut self.out, b.len() as u128);
        self.out.push(58);
        push_all(&mut self.out, b);
        assert(self.out@ =~= old(self).out@ + token_bytes(TokenModel::Bytes(b@)));
    }

    /// Finalizes the encoder and hands out the buffer; fails if a container
    /// is still open.
    pub fn get_output(self) -> (r: Result<Vec<u8>, Error>)
        ensures
            if self.depth() == 0 {
                r matches Ok(b) && b@ == self.output()
            } else {
                r == Err::<Vec<u8>, Error>(Error::UnbalancedContainers)
            },
    {
        if self.open != 0 {
            return Err(Error::UnbalancedContainers);
        }
        Ok(self.out)
    }
}

} // verus!
