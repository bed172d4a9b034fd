//! Little-endian integers, written to a byte vector and read back from a byte slice.
use vstd::prelude::*;

verus! {

/// The `width` low-order bytes of `value`, least significant byte first.
pub open spec fn le_bytes(value: nat, width: nat) -> Seq<u8>
    decreases width,
{
    if width == 0 {
        Seq::empty()
    } else {
        seq![(value % 256) as u8] + le_bytes(value / 256, (width - 1) as nat)
    }
}

/// The number whose bytes are `bytes`, least significant byte first.
pub open spec fn le_value(bytes: Seq<u8>) -> nat
    decreases bytes.len(),
{
    if bytes.len() == 0 {
        0
    } else {
        bytes[0] as nat + 256 * le_value(bytes.skip(1))
    }
}

/// The number whose bytes are `bytes`, most significant byte first.
pub open spec fn be_value(bytes: Seq<u8>) -> nat {
    le_value(bytes.reverse())
}

pub proof fn lemma_le_bytes_len(value: nat, width: nat)
    ensures
        le_bytes(value, width).len() == width,
    decreases width,
{
    if width > 0 {
        lemma_le_bytes_len(value / 256, (width - 1) as nat);
    }
}

/// Reading back what was written gives the value modulo the width.
pub proof fn law_le_value_of_le_bytes(value: nat, width: nat)
    ensures
        le_value(le_bytes(value, width)) == value % vstd::arithmetic::power::pow(256, width) as nat,
    decreases width,
{
    broadcast use vstd::arithmetic::power::lemma_pow_positive;

    if width == 0 {
        vstd::arithmetic::power::lemma_pow0(256);
    } else {
        let rest = (width - 1) as nat;
        let power = vstd::arithmetic::power::pow(256, rest) as nat;
        vstd::arithmetic::power::lemma_pow_positive(256, rest);
        law_le_value_of_le_bytes(value / 256, rest);
        assert(le_bytes(value, width).skip(1) =~= le_bytes(value / 256, rest));
        assert(vstd::arithmetic::power::pow(256, width) == 256 * power) by {
            reveal(vstd::arithmetic::power::pow);
        }
        vstd::arithmetic::div_mod::lemma_mod_breakdown(value as int, 256, power as int);
    }
}

/// What `read_u32_le` and `read_u64_le` give back of what `write_u32_le` and `write_u64_le`
/// wrote: the same number.
pub proof fn law_fixed_width_round_trip(word: u32, long: u64)
    ensures
        le_value(le_bytes(word as nat, 4)) == word,
        le_value(le_bytes(long as nat, 8)) == long,
{
    law_le_value_of_le_bytes(word as nat, 4);
    law_le_value_of_le_bytes(long as nat, 8);
    reveal_with_fuel(vstd::arithmetic::power::pow, 9);
    assert(vstd::arithmetic::power::pow(256, 4) == 0x1_0000_0000);
    assert(vstd::arithmetic::power::pow(256, 8) == 0x1_0000_0000_0000_0000);
    vstd::arithmetic::div_mod::lemma_small_mod(word as nat, 0x1_0000_0000);
    vstd::arithmetic::div_mod::lemma_small_mod(long as nat, 0x1_0000_0000_0000_0000);
}

/// Why a read came to nothing.
#[derive(Debug, Copy, Clone, PartialEq, Eq, Structural)]
pub enum ReadError {
    /// The bytes end before the value does.
    UnexpectedEof,
}

/// A byte slice that is read from front to back.
pub struct ByteReader<'a> {
    data: &'a [u8],
    pos: usize,
}

impl<'a> View for ByteReader<'a> {
    type V = Seq<u8>;

    /// The bytes that were not read yet.
    closed spec fn view(&self) -> Seq<u8> {
        self.data@.skip(self.pos as int)
    }
}

impl<'a> ByteReader<'a> {
    #[verifier::type_invariant]
    spec fn in_bounds(self) -> bool {
        self.pos <= self.data@.len()
    }

    pub fn new(data: &'a [u8]) -> (reader: Self)
        ensures
            reader@ == data@,
    {
        let reader = ByteReader { data, pos: 0 };
        assert(reader@ =~= data@);
        reader
    }

    /// Takes the next byte off the front, if there is one.
    pub fn next_byte(&mut self) -> (byte: Option<u8>)
        ensures
            match byte {
                Some(b) => old(self)@.len() > 0 && b == old(self)@[0] && final(self)@ == old(
                    self,
                )@.skip(1),
                None => old(self)@.len() == 0 && final(self)@ == old(self)@,
            },
    {
        proof {
            use_type_invariant(&*self);
        }
        if self.pos < self.data.len() {
            let byte: u8 = self.data[self.pos];
            self.pos = self.pos + 1;
            assert(self@ =~= old(self)@.skip(1));
            Some(byte)
        } else {
            None
        }
    }

    /// How many bytes were not read yet.
    pub fn remaining(&self) -> (len: usize)
        ensures
            len == self@.len(),
    {
        proof {
            use_type_invariant(&*self);
        }
        self.data.len() - self.pos
    }

    /// Takes `width` bytes off the front as one little-endian number.
    fn read_le(&mut self, width: usize) -> (value: Result<u64, ReadError>)
        requires
            width <= 8,
        ensures
            match value {
                Ok(v) => old(self)@.len() >= width && v == le_value(old(self)@.take(width as int))
                    && final(self)@ == old(self)@.skip(width as int),
                Err(e) => old(self)@.len() < width && final(self)@ == old(self)@,
            },
    {
        proof {
            use_type_invariant(&*self);
        }
        if self.data.len() - self.pos < width {
            return Err(ReadError::UnexpectedEof);
        }
        let end: usize = self.pos + width;
        let mut value: u64 = 0;
        let mut i: usize = end;
        let ghost bytes = self.data@.subrange(self.pos as int, end as int);
        proof {
            vstd::arithmetic::power::lemma_pow0(256);
        }
        while i > self.pos
            invariant
                self.pos <= i <= end <= self.data@.len(),
                end - self.pos == width <= 8,
                bytes == self.data@.subrange(self.pos as int, end as int),
                value == le_value(bytes.skip(i - self.pos)),
                value < vstd::arithmetic::power::pow(256, (end - i) as nat),
            decreases i - self.pos,
        {
            proof {
                let low = bytes.skip(i - 1 - self.pos);
                assert(low.skip(1) =~= bytes.skip(i - self.pos));
                assert(low[0] == self.data@[i - 1]);
                let power = vstd::arithmetic::power::pow(256, (end - i) as nat);
                assert(vstd::arithmetic::power::pow(256, (end - i + 1) as nat) == 256 * power) by {
                    reveal(vstd::arithmetic::power::pow);
                }
                if end - i < 7 {
                    vstd::arithmetic::power::lemma_pow_increases(256, (end - i) as nat, 7);
                }
                assert(vstd::arithmetic::power::pow(256, 7) == 0x100_0000_0000_0000) by {
                    reveal_with_fuel(vstd::arithmetic::power::pow, 8);
                }
            }
            i = i - 1;
            value = self.data[i] as u64 + 256 * value;
        }
        proof {
            assert(bytes.skip(0) =~= bytes);
            assert(old(self)@.take(width as int) =~= bytes);
        }
        self.pos = end;
        assert(self@ =~= old(self)@.skip(width as int));
        Ok(value)
    }
}

/// Appends `width` bytes of `value`, least significant byte first.
fn write_le(w: &mut Vec<u8>, value: u64, width: usize)
    ensures
        final(w)@ == old(w)@ + le_bytes(value as nat, width as nat),
{
    let mut rest: u64 = value;
    let mut i: usize = 0;
    while i < width
        invariant
            i <= width,
            w@ + le_bytes(rest as nat, (width - i) as nat) == old(w)@ + le_bytes(
                value as nat,
                width as nat,
            ),
        decreases width - i,
    {
        let ghost before = w@;
        let byte: u8 = (rest % 256) as u8;
        w.push(byte);
        assert(w@ + le_bytes((rest / 256) as nat, (width - i - 1) as nat) =~= before + le_bytes(
            rest as nat,
            (width - i) as nat,
        ));
        rest = rest / 256;
        i = i + 1;
    }
    assert(w@ + le_bytes(rest as nat, 0) =~= w@);
}

/// Appends `value` as four bytes.
pub fn write_u32_le(w: &mut Vec<u8>, value: u32)
    ensures
        final(w)@ == old(w)@ + le_bytes(value as nat, 4),
{
    write_le(w, value as u64, 4);
}

/// Appends `value` as eight bytes.
pub fn write_u64_le(w: &mut Vec<u8>, value: u64)
    ensures
        final(w)@ == old(w)@ + le_bytes(value as nat, 8),
{
    write_le(w, value, 8);
}

/// Takes the next four bytes as a number; with fewer than four left, nothing is taken.
pub fn read_u32_le(r: &mut ByteReader) -> (value: Result<u32, ReadError>)
    ensures
        match value {
            Ok(v) => old(r)@.len() >= 4 && v == le_value(old(r)@.take(4)) && final(r)@ == old(
                r,
            )@.skip(4),
            Err(e) => old(r)@.len() < 4 && final(r)@ == old(r)@,
        },
{
    match r.read_le(4) {
        Ok(v) => {
            proof {
                lemma_le_value_bound(old(r)@.take(4));
                assert(vstd::arithmetic::power::pow(256, 4) == 0x1_0000_0000) by {
                    reveal_with_fuel(vstd::arithmetic::power::pow, 5);
                }
            }
            Ok(v as u32)
        },
        Err(e) => Err(e),
    }
}

/// Takes the next eight bytes as a number; with fewer than eight left, nothing is taken.
pub fn read_u64_le(r: &mut ByteReader) -> (value: Result<u64, ReadError>)
    ensures
        match value {
            Ok(v) => old(r)@.len() >= 8 && v == le_value(old(r)@.take(8)) && final(r)@ == old(
                r,
            )@.skip(8),
            Err(e) => old(r)@.len() < 8 && final(r)@ == old(r)@,
        },
{
    r.read_le(8)
}

pub proof fn lemma_le_value_bound(bytes: Seq<u8>)
    ensures
        le_value(bytes) < vstd::arithmetic::power::pow(256, bytes.len()),
    decreases bytes.len(),
{
    if bytes.len() == 0 {
        vstd::arithmetic::power::lemma_pow0(256);
    } else {
        lemma_le_value_bound(bytes.skip(1));
        reveal(vstd::arithmetic::power::pow);
    }
}

} // verus!
