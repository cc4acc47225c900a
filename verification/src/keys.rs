//! Integer keys for samples of floats.
//!
//! The library orders and finds the values of a sample as integers. A float
//! that is a number is its sign and a magnitude, and among floats of one sign
//! a greater magnitude is a greater distance from zero. So the magnitude of a
//! float that is not negative, and minus the magnitude of a negative one,
//! order as the floats do, and both zeros get the key zero.

use crate::error::Error;
use vstd::prelude::*;

verus! {

/// The bit that holds the sign of a 64-bit float.
pub const SIGN_BIT: u64 = 0x8000_0000_0000_0000;

/// The magnitude of infinity. Every greater magnitude is not a number.
pub const INFINITY_MAGNITUDE: u64 = 0x7ff0_0000_0000_0000;

/// The bits of the float without its sign.
pub open spec fn magnitude(bits: u64) -> int {
    if bits >= SIGN_BIT {
        bits - SIGN_BIT
    } else {
        bits as int
    }
}

/// The bits are those of a float that is not a number.
pub open spec fn is_nan(bits: u64) -> bool {
    magnitude(bits) > INFINITY_MAGNITUDE
}

/// The key of the float with these bits.
pub open spec fn key_value(bits: u64) -> int {
    if bits >= SIGN_BIT {
        -magnitude(bits)
    } else {
        magnitude(bits)
    }
}

/// The key of the float with the given bits. A float that is not a number is
/// refused.
pub fn key_of_float_bits(bits: u64) -> (r: Result<i64, Error>)
    ensures
        match r {
            Ok(key) => !is_nan(bits) && key == key_value(bits),
            Err(e) => is_nan(bits) && e == (Error::NotANumber { bits }),
        },
{
    let negative: bool = bits >= SIGN_BIT;
    let size: u64 = if negative {
        bits - SIGN_BIT
    } else {
        bits
    };
    if size > INFINITY_MAGNITUDE {
        return Err(Error::NotANumber { bits });
    }
    if negative {
        Ok(-(size as i64))
    } else {
        Ok(size as i64)
    }
}

/// The bits of the float with the given key: the inverse of
/// `key_of_float_bits`, which gives the positive zero for the key zero. A
/// key beyond those of the two infinities is refused.
pub fn float_bits_of_key(key: i64) -> (r: Result<u64, Error>)
    ensures
        match r {
            Ok(bits) => {
                &&& -INFINITY_MAGNITUDE <= key <= INFINITY_MAGNITUDE
                &&& !is_nan(bits)
                &&& key_value(bits) == key
                &&& bits != SIGN_BIT
            },
            Err(e) => !(-INFINITY_MAGNITUDE <= key <= INFINITY_MAGNITUDE) && e == (Error::NotAKey {
                key,
            }),
        },
{
    if key > INFINITY_MAGNITUDE as i64 || key < -(INFINITY_MAGNITUDE as i64) {
        return Err(Error::NotAKey { key });
    }
    if key < 0 {
        Ok((-key) as u64 + SIGN_BIT)
    } else {
        Ok(key as u64)
    }
}

/// Floats of one sign have keys in the order of their magnitudes, reversed
/// for the negative ones; a negative float's key is never above that of one
/// that is not negative; and only the two zeros share a key.
pub proof fn keys_order_as_floats(a: u64, b: u64)
    requires
        !is_nan(a),
        !is_nan(b),
    ensures
        a < SIGN_BIT && b < SIGN_BIT ==> (key_value(a) <= key_value(b) <==> magnitude(a)
            <= magnitude(b)),
        a >= SIGN_BIT && b >= SIGN_BIT ==> (key_value(a) <= key_value(b) <==> magnitude(a)
            >= magnitude(b)),
        a >= SIGN_BIT && b < SIGN_BIT ==> key_value(a) <= key_value(b),
        key_value(a) == key_value(b) ==> a == b || (magnitude(a) == 0 && magnitude(b) == 0),
{
}

/// A key that was made from bits gives back those bits, but for the negative
/// zero, which comes back as the positive one.
pub proof fn key_round_trip(bits: u64, back: u64)
    requires
        !is_nan(bits),
        !is_nan(back),
        key_value(back) == key_value(bits),
        back != SIGN_BIT,
    ensures
        back == if bits == SIGN_BIT {
            0
        } else {
            bits
        },
{
}

} // verus!
