//! A cursor over the bytes of a WebAssembly binary.

use vstd::prelude::*;

use crate::text::{decimal, message_with_number};

verus! {

/// The message of a read past the end of the input.
pub open spec fn eof_message() -> Seq<char> {
    "unexpected end of file while reading raw bytes"@
}

/// The message of a slice longer than what remains.
pub open spec fn short_slice_message(n: nat) -> Seq<char> {
    "not enough bytes remaining to read "@ + decimal(n) + ""@
}

/// The message of an unsigned LEB128 encoding whose fifth byte still has the
/// continuation bit set.
pub open spec fn uleb_too_long_message() -> Seq<char> {
    "got uleb128 encoding with more than 5 bytes, which is too \n                                many for u32"@
}

/// The message of an unsigned LEB128 encoding whose fifth byte carries bits
/// that do not fit in a `u32`.
pub open spec fn uleb_high_bits_message() -> Seq<char> {
    "got high bits in locations 0b0xxx0000 of 5th byte \n                                in uleb128 encoding, which will get shifted out for u32"@
}

/// `128` to the power `k`.
pub open spec fn pow128(k: nat) -> nat
    decreases k,
{
    if k == 0 { 1 } else { 128 * pow128((k - 1) as nat) }
}

/// The number that the low seven bits of the first `n` bytes of `s` encode,
/// least significant group first.
pub open spec fn uleb_value(s: Seq<u8>, n: nat) -> nat
    decreases n,
{
    if n == 0 {
        0
    } else {
        uleb_value(s, (n - 1) as nat) + ((s[n - 1] % 128) as nat) * pow128((n - 1) as nat)
    }
}

/// How reading an unsigned LEB128 `u32` from a byte sequence ends.
pub enum UlebOutcome {
    /// A well-formed encoding of the given number of bytes.
    Read(nat),
    /// The input ended before the encoding did.
    EndOfInput,
    /// The fifth byte has its continuation bit set.
    TooLong,
    /// The fifth byte has bits set that a `u32` cannot hold.
    HighBits,
}

/// The outcome of reading an unsigned LEB128 `u32` from `s`, when the bytes
/// before index `i` are all continuation bytes.
pub open spec fn uleb_outcome_from(s: Seq<u8>, i: nat) -> UlebOutcome
    decreases 5 - i,
{
    if i >= s.len() {
        UlebOutcome::EndOfInput
    } else if i >= 4 && s[i as int] >= 128 {
        UlebOutcome::TooLong
    } else if i >= 4 && s[i as int] % 128 >= 16 {
        UlebOutcome::HighBits
    } else if s[i as int] < 128 || i >= 4 {
        UlebOutcome::Read(i + 1)
    } else {
        uleb_outcome_from(s, i + 1)
    }
}

/// The outcome of reading an unsigned LEB128 `u32` from the start of `s`.
pub open spec fn uleb_outcome(s: Seq<u8>) -> UlebOutcome {
    uleb_outcome_from(s, 0)
}

/// Reading one byte from the front of `s`: the byte and what remains.
pub open spec fn spec_read_byte(s: Seq<u8>) -> Result<(u8, Seq<u8>), Seq<char>> {
    if s.len() >= 1 {
        Ok((s[0], s.skip(1)))
    } else {
        Err(eof_message())
    }
}

/// Reading a little-endian `u32` from the front of `s`.
pub open spec fn spec_read_le_u32(s: Seq<u8>) -> Result<(u32, Seq<u8>), Seq<char>> {
    if s.len() >= 4 {
        Ok(((s[0] + 256 * s[1] + 65536 * s[2] + 16777216 * s[3]) as u32, s.skip(4)))
    } else {
        Err(eof_message())
    }
}

/// Reading `n` raw bytes from the front of `s`.
pub open spec fn spec_read_slice(s: Seq<u8>, n: nat) -> Result<(Seq<u8>, Seq<u8>), Seq<char>> {
    if n <= s.len() {
        Ok((s.take(n as int), s.skip(n as int)))
    } else {
        Err(short_slice_message(n))
    }
}

/// Reading an unsigned LEB128 `u32` from the front of `s`.
pub open spec fn spec_read_uleb(s: Seq<u8>) -> Result<(u32, Seq<u8>), Seq<char>> {
    match uleb_outcome(s) {
        UlebOutcome::Read(n) => Ok((uleb_value(s, n) as u32, s.skip(n as int))),
        UlebOutcome::EndOfInput => Err(eof_message()),
        UlebOutcome::TooLong => Err(uleb_too_long_message()),
        UlebOutcome::HighBits => Err(uleb_high_bits_message()),
    }
}

proof fn lemma_pow128_values()
    ensures
        pow128(0) == 1,
        pow128(1) == 128,
        pow128(2) == 16384,
        pow128(3) == 2097152,
        pow128(4) == 268435456,
{
    reveal_with_fuel(pow128, 5);
}

proof fn lemma_uleb_value_bound(s: Seq<u8>, n: nat)
    ensures
        uleb_value(s, n) < pow128(n),
    decreases n,
{
    if n > 0 {
        lemma_uleb_value_bound(s, (n - 1) as nat);
        let a = uleb_value(s, (n - 1) as nat);
        let d = (s[n - 1] % 128) as nat;
        let p = pow128((n - 1) as nat);
        assert(a + d * p < 128 * p) by (nonlinear_arith)
            requires
                a < p,
                d < 128,
        ;
    }
}

/// A reader that consumes a byte slice from the front.
pub struct BinaryReader<'a> {
    remaining_bytes: &'a [u8],
}

impl<'a> View for BinaryReader<'a> {
    type V = Seq<u8>;

    /// The bytes not read yet.
    closed spec fn view(&self) -> Seq<u8> {
        self.remaining_bytes@
    }
}

impl<'a> BinaryReader<'a> {
    /// A reader positioned at the start of `bytes`.
    pub fn new(bytes: &'a [u8]) -> (r: Self)
        ensures
            r@ == bytes@,
    {
        Self { remaining_bytes: bytes }
    }

    /// Whether every byte has been read.
    pub fn is_done(&self) -> (r: bool)
        ensures
            r == (self@.len() == 0),
    {
        self.remaining_bytes.len() == 0
    }

    /// Reads the next `N` bytes. When fewer remain, fails and the reader is
    /// left at the end of its input.
    pub fn read_bytes<const N: usize>(&mut self) -> (r: Result<[u8; N], String>)
        ensures
            match r {
                Ok(buf) => {
                    &&& N <= old(self)@.len()
                    &&& buf@ == old(self)@.take(N as int)
                    &&& final(self)@ == old(self)@.skip(N as int)
                },
                Err(e) => {
                    &&& old(self)@.len() < N
                    &&& e@ == eof_message()
                    &&& final(self)@ == Seq::<u8>::empty()
                },
            },
    {
        let len = self.remaining_bytes.len();
        if len < N {
            let (_, rest) = self.remaining_bytes.split_at(len);
            self.remaining_bytes = rest;
            return Err(String::from_str("unexpected end of file while reading raw bytes"));
        }
        let mut buf = [0u8; N];
        let mut i: usize = 0;
        while i < N
            invariant
                i <= N,
                N <= self.remaining_bytes@.len(),
                buf@.len() == N,
                forall|j: int| 0 <= j < i ==> buf@[j] == self.remaining_bytes@[j],
            decreases N - i,
        {
            buf[i] = self.remaining_bytes[i];
            i += 1;
        }
        let (_, rest) = self.remaining_bytes.split_at(N);
        assert(buf@ =~= old(self)@.take(N as int));
        self.remaining_bytes = rest;
        Ok(buf)
    }

    /// Reads the next `n` bytes as a slice. When fewer remain, fails and
    /// nothing is read.
    pub fn read_slice(&mut self, n: usize) -> (r: Result<&'a [u8], String>)
        ensures
            match r {
                Ok(taken) => {
                    &&& n <= old(self)@.len()
                    &&& taken@ == old(self)@.take(n as int)
                    &&& final(self)@ == old(self)@.skip(n as int)
                },
                Err(e) => {
                    &&& old(self)@.len() < n
                    &&& e@ == short_slice_message(n as nat)
                    &&& final(self)@ == old(self)@
                },
            },
            match r {
                Ok(taken) => spec_read_slice(old(self)@, n as nat) == Ok::<(Seq<u8>, Seq<u8>), Seq<char>>((taken@, final(self)@)),
                Err(e) => spec_read_slice(old(self)@, n as nat) == Err::<(Seq<u8>, Seq<u8>), Seq<char>>(e@),
            },
    {
        if self.remaining_bytes.len() < n {
            return Err(message_with_number("not enough bytes remaining to read ", n as u64, ""));
        }
        let (taken, rest) = self.remaining_bytes.split_at(n);
        self.remaining_bytes = rest;
        assert(taken@ =~= old(self)@.take(n as int));
        assert(rest@ =~= old(self)@.skip(n as int));
        Ok(taken)
    }

    /// Reads a little-endian `u32` from the next four bytes. When fewer
    /// remain, fails and the reader is left at the end of its input.
    pub fn read_le_u32(&mut self) -> (r: Result<u32, String>)
        ensures
            match r {
                Ok(v) => {
                    &&& 4 <= old(self)@.len()
                    &&& v == old(self)@[0] + 256 * old(self)@[1] + 65536 * old(self)@[2]
                        + 16777216 * old(self)@[3]
                    &&& final(self)@ == old(self)@.skip(4)
                },
                Err(e) => {
                    &&& old(self)@.len() < 4
                    &&& e@ == eof_message()
                    &&& final(self)@ == Seq::<u8>::empty()
                },
            },
            match r {
                Ok(v) => spec_read_le_u32(old(self)@) == Ok::<(u32, Seq<u8>), Seq<char>>((v, final(self)@)),
                Err(e) => spec_read_le_u32(old(self)@) == Err::<(u32, Seq<u8>), Seq<char>>(e@),
            },
    {
        let bytes = self.read_bytes::<4>()?;
        let b0 = bytes[0] as u32;
        let b1 = bytes[1] as u32;
        let b2 = bytes[2] as u32;
        let b3 = bytes[3] as u32;
        Ok(b0 + 256 * b1 + 65536 * b2 + 16777216 * b3)
    }

    /// Reads an unsigned LEB128 encoded `u32` of at most five bytes.
    pub fn read_uleb128_u32(&mut self) -> (r: Result<u32, String>)
        ensures
            match uleb_outcome(old(self)@) {
                UlebOutcome::Read(n) => {
                    &&& r is Ok
                    &&& r->Ok_0 == uleb_value(old(self)@, n)
                    &&& final(self)@ == old(self)@.skip(n as int)
                },
                UlebOutcome::EndOfInput => {
                    &&& r is Err
                    &&& r->Err_0@ == eof_message()
                    &&& final(self)@ == Seq::<u8>::empty()
                },
                UlebOutcome::TooLong => {
                    &&& r is Err
                    &&& r->Err_0@ == uleb_too_long_message()
                    &&& final(self)@ == old(self)@.skip(5)
                },
                UlebOutcome::HighBits => {
                    &&& r is Err
                    &&& r->Err_0@ == uleb_high_bits_message()
                    &&& final(self)@ == old(self)@.skip(5)
                },
            },
            match r {
                Ok(v) => spec_read_uleb(old(self)@) == Ok::<(u32, Seq<u8>), Seq<char>>((v, final(self)@)),
                Err(e) => spec_read_uleb(old(self)@) == Err::<(u32, Seq<u8>), Seq<char>>(e@),
            },
    {
        let ghost s = self@;
        let mut result: u32 = 0;
        let mut i: usize = 0;
        let mut pow: u32 = 1;
        proof {
            lemma_pow128_values();
            assert(s.skip(0) =~= s);
        }
        loop
            invariant
                s == old(self)@,
                i <= 4,
                pow == pow128(i as nat),
                result == uleb_value(s, i as nat),
                self@ == s.skip(i as int),
                i <= s.len(),
                uleb_outcome(s) == uleb_outcome_from(s, i as nat),
            decreases 4 - i,
        {
            proof {
                lemma_pow128_values();
                lemma_uleb_value_bound(s, i as nat);
            }
            let byte = match self.read_byte() {
                Ok(b) => b,
                Err(e) => {
                    return Err(e);
                },
            };
            let flag = byte >= 128;
            let data = byte % 128;
            if i >= 4 {
                if flag {
                    return Err(String::from_str("got uleb128 encoding with more than 5 bytes, which is too \n                                many for u32"));
                }
                if data >= 16 {
                    return Err(String::from_str("got high bits in locations 0b0xxx0000 of 5th byte \n                                in uleb128 encoding, which will get shifted out for u32"));
                }
            }
            proof {
                let a = result as nat;
                let d = data as nat;
                let p = pow as nat;
                if i < 4 {
                    assert(a + d * p < 128 * p) by (nonlinear_arith)
                        requires a < p, d < 128;
                    assert(128 * p <= 268435456) by {
                        assert(p <= 2097152);
                    }
                } else {
                    assert(a + d * p < 16 * p + p) by (nonlinear_arith)
                        requires a < p, d < 16;
                }
            }
            result = result + (data as u32) * pow;
            if !flag {
                proof {
                    assert(self@ =~= s.skip(i + 1));
                }
                return Ok(result);
            }
            i += 1;
            pow = pow * 128;
            proof {
                assert(self@ =~= s.skip(i as int));
            }
        }
    }

    /// Reads the next byte. When none remains, fails.
    pub fn read_byte(&mut self) -> (r: Result<u8, String>)
        ensures
            match r {
                Ok(b) => {
                    &&& 1 <= old(self)@.len()
                    &&& b == old(self)@[0]
                    &&& final(self)@ == old(self)@.skip(1)
                },
                Err(e) => {
                    &&& old(self)@.len() < 1
                    &&& e@ == eof_message()
                    &&& final(self)@ == Seq::<u8>::empty()
                },
            },
            match r {
                Ok(b) => spec_read_byte(old(self)@) == Ok::<(u8, Seq<u8>), Seq<char>>((b, final(self)@)),
                Err(e) => spec_read_byte(old(self)@) == Err::<(u8, Seq<u8>), Seq<char>>(e@),
            },
    {
        let bytes = self.read_bytes::<1>()?;
        Ok(bytes[0])
    }
}

} // verus!
