//! Time buckets of a fixed width on the integer line.
//!
//! Bucket boundaries are the multiples of the width, so a bucket holds the
//! timestamps from one multiple up to, and not including, the next.

use vstd::prelude::*;

verus! {

/// The start of the bucket that holds `timestamp`: the largest multiple of
/// `width` that is not above it.
pub open spec fn bucket_floor(timestamp: int, width: int) -> int {
    timestamp - timestamp % width
}

/// The number of the bucket that holds `timestamp`, counting from zero at
/// the bucket that starts at `origin`.
pub open spec fn bucket_number(origin: int, timestamp: int, width: int) -> int {
    (timestamp - origin) / width
}

/// `bucket_floor` gives a multiple of the width, and the bucket that starts
/// there holds the timestamp.
pub proof fn lemma_bucket_floor(timestamp: int, width: int)
    requires
        width > 0,
    ensures
        bucket_floor(timestamp, width) % width == 0,
        bucket_floor(timestamp, width) <= timestamp < bucket_floor(timestamp, width) + width,
        bucket_number(bucket_floor(timestamp, width), timestamp, width) == 0,
{
    let start = bucket_floor(timestamp, width);
    vstd::arithmetic::div_mod::lemma_fundamental_div_mod(timestamp, width);
    vstd::arithmetic::div_mod::lemma_mod_multiples_basic(timestamp / width, width);
    assert(start == (timestamp / width) * width) by (nonlinear_arith)
        requires
            timestamp == width * (timestamp / width) + timestamp % width,
            start == timestamp - timestamp % width,
    ;
    vstd::arithmetic::div_mod::lemma_basic_div(timestamp - start, width);
}

/// Finds the start of the bucket that holds `timestamp`. There is none
/// where that start lies below the smallest timestamp there is.
pub fn bucket_start(timestamp: i64, width: i64) -> (r: Option<i64>)
    requires
        width > 0,
    ensures
        r is Some <==> bucket_floor(timestamp as int, width as int) >= i64::MIN,
        r is Some ==> r->0 == bucket_floor(timestamp as int, width as int),
{
    proof {
        lemma_bucket_floor(timestamp as int, width as int);
    }
    let wide: i128 = timestamp as i128;
    let step: i128 = width as i128;
    let over: i128 = if wide >= 0 {
        wide % step
    } else {
        let back: i128 = (-wide) % step;
        proof {
            lemma_mod_of_negative(wide as int, step as int);
        }
        if back == 0 {
            0
        } else {
            step - back
        }
    };
    let start: i128 = wide - over;
    if start >= i64::MIN as i128 {
        Some(start as i64)
    } else {
        None
    }
}

/// The remainder of a negative number, from the remainder of its opposite.
proof fn lemma_mod_of_negative(x: int, d: int)
    requires
        x < 0,
        d > 0,
    ensures
        x % d == if (-x) % d == 0 {
            0
        } else {
            d - (-x) % d
        },
{
    let q = (-x) / d;
    let r = (-x) % d;
    vstd::arithmetic::div_mod::lemma_fundamental_div_mod(-x, d);
    if r == 0 {
        assert(x == (-q) * d + 0) by (nonlinear_arith)
            requires
                -x == d * q + r,
                r == 0,
        ;
        vstd::arithmetic::div_mod::lemma_fundamental_div_mod_converse(x, d, -q, 0);
    } else {
        assert(x == (-q - 1) * d + (d - r)) by (nonlinear_arith)
            requires
                -x == d * q + r,
        ;
        vstd::arithmetic::div_mod::lemma_fundamental_div_mod_converse(x, d, -q - 1, d - r);
    }
}

/// Finds the number of the bucket that holds `timestamp`, counting from
/// the bucket that starts at `origin`. There is none where the number does
/// not fit the machine's word.
pub fn bucket_index(origin: i64, timestamp: i64, width: i64) -> (r: Option<usize>)
    requires
        width > 0,
        origin <= timestamp,
    ensures
        r is Some <==> bucket_number(origin as int, timestamp as int, width as int) <= usize::MAX,
        r is Some ==> r->0 == bucket_number(origin as int, timestamp as int, width as int),
{
    let span: i128 = timestamp as i128 - origin as i128;
    let number: i128 = span / (width as i128);
    proof {
        vstd::arithmetic::div_mod::lemma_div_pos_is_pos(span as int, width as int);
    }
    if number <= usize::MAX as i128 {
        Some(number as usize)
    } else {
        None
    }
}

} // verus!
