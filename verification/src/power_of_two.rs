//! Unsigned integers that are known to be a power of two.
use vstd::arithmetic::power2::pow2;
use vstd::prelude::*;

verus! {

/// The unsigned integer types, by the number that a value stands for.
pub trait Unsigned: Sized {
    spec fn as_nat(self) -> nat;
}

impl Unsigned for u8 {
    open spec fn as_nat(self) -> nat {
        self as nat
    }
}

impl Unsigned for u16 {
    open spec fn as_nat(self) -> nat {
        self as nat
    }
}

impl Unsigned for u32 {
    open spec fn as_nat(self) -> nat {
        self as nat
    }
}

impl Unsigned for u64 {
    open spec fn as_nat(self) -> nat {
        self as nat
    }
}

impl Unsigned for usize {
    open spec fn as_nat(self) -> nat {
        self as nat
    }
}

pub open spec fn is_power_of_two(n: nat) -> bool {
    exists|exponent: nat| #[trigger] pow2(exponent) == n
}

/// A `T` whose value is a power of two.
#[derive(Debug)]
pub struct PowerOfTwo<T: Unsigned>(T);

impl<T: Unsigned> PowerOfTwo<T> {
    pub closed spec fn value(self) -> T {
        self.0
    }

    #[verifier::type_invariant]
    spec fn holds_power(self) -> bool {
        is_power_of_two(self.0.as_nat())
    }
}

impl<T: Unsigned + Copy> Clone for PowerOfTwo<T> {
    fn clone(&self) -> (copy: Self)
        ensures
            copy == *self,
    {
        *self
    }
}

impl<T: Unsigned + Copy> Copy for PowerOfTwo<T> {

}

/// The exponent of `value` as a power of two, if it is one.
fn exponent_of(value: u64) -> (exponent: Option<u32>)
    ensures
        match exponent {
            Some(e) => pow2(e as nat) == value && e < 64,
            None => !is_power_of_two(value as nat),
        },
{
    let mut power: u64 = 1;
    let mut e: u32 = 0;
    proof {
        vstd::arithmetic::power2::lemma2_to64();
        vstd::arithmetic::power2::lemma2_to64_rest();
    }
    while e < 63 && power < value
        invariant
            e <= 63,
            power == pow2(e as nat),
            pow2(63) == 0x8000_0000_0000_0000,
            forall|k: nat| k < e ==> #[trigger] pow2(k) < value,
        decreases 63 - e,
    {
        proof {
            vstd::arithmetic::power2::lemma_pow2_unfold((e + 1) as nat);
            if e < 62 {
                vstd::arithmetic::power2::lemma_pow2_strictly_increases((e + 1) as nat, 63);
            }
        }
        power = power * 2;
        e = e + 1;
    }
    if power == value {
        Some(e)
    } else {
        proof {
            assert forall|k: nat| #[trigger] pow2(k) != value by {
                if k > e {
                    vstd::arithmetic::power2::lemma_pow2_strictly_increases(e as nat, k);
                    if e == 63 {
                        if k > 64 {
                            vstd::arithmetic::power2::lemma_pow2_strictly_increases(64, k);
                        }
                    }
                }
            }
        }
        None
    }
}

impl PowerOfTwo<u8> {
    /// The exponent: two to this power is the value.
    pub fn ilog2(&self) -> (exponent: u32)
        ensures
            pow2(exponent as nat) == self.value(),
            exponent < 8,
    {
        proof {
            use_type_invariant(self);
        }
        match exponent_of(self.0 as u64) {
            Some(e) => {
                proof {
                    vstd::arithmetic::power2::lemma2_to64();
                    if e > 8 {
                        vstd::arithmetic::power2::lemma_pow2_strictly_increases(8, e as nat);
                    }
                }
                e
            },
            None => 0,
        }
    }
}

impl TryFrom<u8> for PowerOfTwo<u8> {
    type Error = ();

    fn try_from(value: u8) -> (result: Result<Self, Self::Error>)
        ensures
            match result {
                Ok(power) => power.value() == value && is_power_of_two(value as nat),
                Err(e) => !is_power_of_two(value as nat),
            },
    {
        match exponent_of(value as u64) {
            Some(e) => Ok(PowerOfTwo(value)),
            None => Err(()),
        }
    }
}

impl vstd::std_specs::convert::TryFromSpecImpl<u8> for PowerOfTwo<u8> {
    open spec fn obeys_try_from_spec() -> bool {
        true
    }

    closed spec fn try_from_spec(v: u8) -> Result<Self, Self::Error> {
        if is_power_of_two(v as nat) {
            Ok(PowerOfTwo(v))
        } else {
            Err(())
        }
    }
}

impl std::ops::Deref for PowerOfTwo<u8> {
    type Target = u8;

    fn deref(&self) -> (value: &u8)
        ensures
            *value == self.value(),
    {
        &self.0
    }
}

impl PowerOfTwo<u16> {
    /// The exponent: two to this power is the value.
    pub fn ilog2(&self) -> (exponent: u32)
        ensures
            pow2(exponent as nat) == self.value(),
            exponent < 16,
    {
        proof {
            use_type_invariant(self);
        }
        match exponent_of(self.0 as u64) {
            Some(e) => {
                proof {
                    vstd::arithmetic::power2::lemma2_to64();
                    if e > 16 {
                        vstd::arithmetic::power2::lemma_pow2_strictly_increases(16, e as nat);
                    }
                }
                e
            },
            None => 0,
        }
    }
}

impl TryFrom<u16> for PowerOfTwo<u16> {
    type Error = ();

    fn try_from(value: u16) -> (result: Result<Self, Self::Error>)
        ensures
            match result {
                Ok(power) => power.value() == value && is_power_of_two(value as nat),
                Err(e) => !is_power_of_two(value as nat),
            },
    {
        match exponent_of(value as u64) {
            Some(e) => Ok(PowerOfTwo(value)),
            None => Err(()),
        }
    }
}

impl vstd::std_specs::convert::TryFromSpecImpl<u16> for PowerOfTwo<u16> {
    open spec fn obeys_try_from_spec() -> bool {
        true
    }

    closed spec fn try_from_spec(v: u16) -> Result<Self, Self::Error> {
        if is_power_of_two(v as nat) {
            Ok(PowerOfTwo(v))
        } else {
            Err(())
        }
    }
}

impl std::ops::Deref for PowerOfTwo<u16> {
    type Target = u16;

    fn deref(&self) -> (value: &u16)
        ensures
            *value == self.value(),
    {
        &self.0
    }
}

impl PowerOfTwo<u32> {
    /// The exponent: two to this power is the value.
    pub fn ilog2(&self) -> (exponent: u32)
        ensures
            pow2(exponent as nat) == self.value(),
            exponent < 32,
    {
        proof {
            use_type_invariant(self);
        }
        match exponent_of(self.0 as u64) {
            Some(e) => {
                proof {
                    vstd::arithmetic::power2::lemma2_to64();
                    if e > 32 {
                        vstd::arithmetic::power2::lemma_pow2_strictly_increases(32, e as nat);
                    }
                }
                e
            },
            None => 0,
        }
    }
}

impl TryFrom<u32> for PowerOfTwo<u32> {
    type Error = ();

    fn try_from(value: u32) -> (result: Result<Self, Self::Error>)
        ensures
            match result {
                Ok(power) => power.value() == value && is_power_of_two(value as nat),
                Err(e) => !is_power_of_two(value as nat),
            },
    {
        match exponent_of(value as u64) {
            Some(e) => Ok(PowerOfTwo(value)),
            None => Err(()),
        }
    }
}

impl vstd::std_specs::convert::TryFromSpecImpl<u32> for PowerOfTwo<u32> {
    open spec fn obeys_try_from_spec() -> bool {
        true
    }

    closed spec fn try_from_spec(v: u32) -> Result<Self, Self::Error> {
        if is_power_of_two(v as nat) {
            Ok(PowerOfTwo(v))
        } else {
            Err(())
        }
    }
}

impl std::ops::Deref for PowerOfTwo<u32> {
    type Target = u32;

    fn deref(&self) -> (value: &u32)
        ensures
            *value == self.value(),
    {
        &self.0
    }
}

impl PowerOfTwo<u64> {
    /// The exponent: two to this power is the value.
    pub fn ilog2(&self) -> (exponent: u32)
        ensures
            pow2(exponent as nat) == self.value(),
            exponent < 64,
    {
        proof {
            use_type_invariant(self);
        }
        match exponent_of(self.0 as u64) {
            Some(e) => e,
            None => 0,
        }
    }
}

impl TryFrom<u64> for PowerOfTwo<u64> {
    type Error = ();

    fn try_from(value: u64) -> (result: Result<Self, Self::Error>)
        ensures
            match result {
                Ok(power) => power.value() == value && is_power_of_two(value as nat),
                Err(e) => !is_power_of_two(value as nat),
            },
    {
        match exponent_of(value as u64) {
            Some(e) => Ok(PowerOfTwo(value)),
            None => Err(()),
        }
    }
}

impl vstd::std_specs::convert::TryFromSpecImpl<u64> for PowerOfTwo<u64> {
    open spec fn obeys_try_from_spec() -> bool {
        true
    }

    closed spec fn try_from_spec(v: u64) -> Result<Self, Self::Error> {
        if is_power_of_two(v as nat) {
            Ok(PowerOfTwo(v))
        } else {
            Err(())
        }
    }
}

impl std::ops::Deref for PowerOfTwo<u64> {
    type Target = u64;

    fn deref(&self) -> (value: &u64)
        ensures
            *value == self.value(),
    {
        &self.0
    }
}

impl PowerOfTwo<usize> {
    /// The exponent: two to this power is the value.
    pub fn ilog2(&self) -> (exponent: u32)
        ensures
            pow2(exponent as nat) == self.value(),
            exponent < 64,
    {
        proof {
            use_type_invariant(self);
        }
        match exponent_of(self.0 as u64) {
            Some(e) => e,
            None => 0,
        }
    }
}

impl TryFrom<usize> for PowerOfTwo<usize> {
    type Error = ();

    fn try_from(value: usize) -> (result: Result<Self, Self::Error>)
        ensures
            match result {
                Ok(power) => power.value() == value && is_power_of_two(value as nat),
                Err(e) => !is_power_of_two(value as nat),
            },
    {
        match exponent_of(value as u64) {
            Some(e) => Ok(PowerOfTwo(value)),
            None => Err(()),
        }
    }
}

impl vstd::std_specs::convert::TryFromSpecImpl<usize> for PowerOfTwo<usize> {
    open spec fn obeys_try_from_spec() -> bool {
        true
    }

    closed spec fn try_from_spec(v: usize) -> Result<Self, Self::Error> {
        if is_power_of_two(v as nat) {
            Ok(PowerOfTwo(v))
        } else {
            Err(())
        }
    }
}

impl std::ops::Deref for PowerOfTwo<usize> {
    type Target = usize;

    fn deref(&self) -> (value: &usize)
        ensures
            *value == self.value(),
    {
        &self.0
    }
}

} // verus!
