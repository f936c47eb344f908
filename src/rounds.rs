//! Round thresholds derived from the number of known peers.
//!
//! The thresholds follow the usual analysis of rumor mongering: about
//! `ln ln N` hot rounds, twice as many cold ones, and a hard limit of
//! `ln N` rounds. The logarithms are taken exactly, by comparing the peer
//! count with the least integers above powers of `e`.

use vstd::prelude::*;

verus! {

/// The least integer `n` with `ln n >= k`, that is `ceil(e^k)`, for
/// `0 <= k <= 44`; beyond 44 it stays at the value for 44. Since
/// `ceil(e^45)` is above every `u64`, `floor(ln n) <= 44` for every `u64` `n`.
pub open spec fn exp_ceil(k: int) -> int {
    if k <= 0 {
        1
    } else
    if k <= 1 {
        3
    } else
    if k <= 2 {
        8
    } else
    if k <= 3 {
        21
    } else
    if k <= 4 {
        55
    } else
    if k <= 5 {
        149
    } else
    if k <= 6 {
        404
    } else
    if k <= 7 {
        1097
    } else
    if k <= 8 {
        2981
    } else
    if k <= 9 {
        8104
    } else
    if k <= 10 {
        22027
    } else
    if k <= 11 {
        59875
    } else
    if k <= 12 {
        162755
    } else
    if k <= 13 {
        442414
    } else
    if k <= 14 {
        1202605
    } else
    if k <= 15 {
        3269018
    } else
    if k <= 16 {
        8886111
    } else
    if k <= 17 {
        24154953
    } else
    if k <= 18 {
        65659970
    } else
    if k <= 19 {
        178482301
    } else
    if k <= 20 {
        485165196
    } else
    if k <= 21 {
        1318815735
    } else
    if k <= 22 {
        3584912847
    } else
    if k <= 23 {
        9744803447
    } else
    if k <= 24 {
        26489122130
    } else
    if k <= 25 {
        72004899338
    } else
    if k <= 26 {
        195729609429
    } else
    if k <= 27 {
        532048240602
    } else
    if k <= 28 {
        1446257064292
    } else
    if k <= 29 {
        3931334297145
    } else
    if k <= 30 {
        10686474581525
    } else
    if k <= 31 {
        29048849665248
    } else
    if k <= 32 {
        78962960182681
    } else
    if k <= 33 {
        214643579785917
    } else
    if k <= 34 {
        583461742527455
    } else
    if k <= 35 {
        1586013452313431
    } else
    if k <= 36 {
        4311231547115196
    } else
    if k <= 37 {
        11719142372802612
    } else
    if k <= 38 {
        31855931757113757
    } else
    if k <= 39 {
        86593400423993747
    } else
    if k <= 40 {
        235385266837019986
    } else
    if k <= 41 {
        639843493530054950
    } else
    if k <= 42 {
        1739274941520501048
    } else
    if k <= 43 {
        4727839468229346562
    } else {
        12851600114359308276
    }
}

/// The largest `j <= k` with `exp_ceil(j) <= n`, or 0 where there is none.
pub open spec fn floor_ln_upto(n: int, k: nat) -> nat
    decreases k,
{
    if k == 0 {
        0
    } else if exp_ceil(k as int) <= n {
        k
    } else {
        floor_ln_upto(n, (k - 1) as nat)
    }
}

/// `floor(ln n)` for every `n` below `2^64`, with 0 where the logarithm is
/// negative or undefined (`n <= 2`).
pub open spec fn floor_ln(n: int) -> nat {
    floor_ln_upto(n, 44)
}

/// `floor(ln(ln n))` for every `n` below `2^64`, with 0 where the logarithm is
/// negative or undefined. It reaches 1 at `ceil(e^e) = 16`, 2 at
/// `ceil(e^(e^2)) = 1619`, 3 at `ceil(e^(e^3)) = 528491312`, and 4 only past
/// `2^64`.
pub open spec fn floor_ln_ln(n: int) -> nat {
    if n >= 528491312 {
        3
    } else if n >= 1619 {
        2
    } else if n >= 16 {
        1
    } else {
        0
    }
}

/// Number of rounds a rumor is pushed actively among `n` peers.
pub open spec fn hot_rounds_for(n: int) -> nat {
    if floor_ln_ln(n) > 1 {
        floor_ln_ln(n)
    } else {
        1
    }
}

/// Number of rounds through which a rumor is still offered on pull among `n` peers.
pub open spec fn cold_rounds_for(n: int) -> nat {
    if 2 * hot_rounds_for(n) > 2 {
        2 * hot_rounds_for(n)
    } else {
        2
    }
}

/// Number of rounds after which a rumor stops circulating among `n` peers.
pub open spec fn terminate_rounds_for(n: int) -> nat {
    if floor_ln(n) > cold_rounds_for(n) {
        floor_ln(n)
    } else {
        cold_rounds_for(n)
    }
}

/// `ceil(e^k)` for `k <= 44`.
fn exp_ceil_u64(k: u8) -> (r: u64)
    requires
        k <= 44,
    ensures
        r == exp_ceil(k as int),
{
    match k {
        0 => 1,
        1 => 3,
        2 => 8,
        3 => 21,
        4 => 55,
        5 => 149,
        6 => 404,
        7 => 1097,
        8 => 2981,
        9 => 8104,
        10 => 22027,
        11 => 59875,
        12 => 162755,
        13 => 442414,
        14 => 1202605,
        15 => 3269018,
        16 => 8886111,
        17 => 24154953,
        18 => 65659970,
        19 => 178482301,
        20 => 485165196,
        21 => 1318815735,
        22 => 3584912847,
        23 => 9744803447,
        24 => 26489122130,
        25 => 72004899338,
        26 => 195729609429,
        27 => 532048240602,
        28 => 1446257064292,
        29 => 3931334297145,
        30 => 10686474581525,
        31 => 29048849665248,
        32 => 78962960182681,
        33 => 214643579785917,
        34 => 583461742527455,
        35 => 1586013452313431,
        36 => 4311231547115196,
        37 => 11719142372802612,
        38 => 31855931757113757,
        39 => 86593400423993747,
        40 => 235385266837019986,
        41 => 639843493530054950,
        42 => 1739274941520501048,
        43 => 4727839468229346562,
        _ => 12851600114359308276,
    }
}

/// `floor(ln n)`, clamped to 0 where the logarithm is negative or undefined.
pub fn floor_ln_u64(n: u64) -> (r: u8)
    ensures
        r == floor_ln(n as int),
        r <= 44,
{
    let mut k: u8 = 44;
    while k > 0 && exp_ceil_u64(k) > n
        invariant
            k <= 44,
            floor_ln_upto(n as int, k as nat) == floor_ln(n as int),
        decreases k,
    {
        k = k - 1;
    }
    k
}

/// `floor(ln(ln n))`, clamped to 0 where the logarithm is negative or undefined.
pub fn floor_ln_ln_u64(n: u64) -> (r: u8)
    ensures
        r == floor_ln_ln(n as int),
{
    if n >= 528491312 {
        3
    } else if n >= 1619 {
        2
    } else if n >= 16 {
        1
    } else {
        0
    }
}

proof fn lemma_floor_ln_upto_monotone(n: int, m: int, k: nat)
    requires
        n <= m,
    ensures
        floor_ln_upto(n, k) <= floor_ln_upto(m, k),
        floor_ln_upto(m, k) <= k,
    decreases k,
{
    if k > 0 {
        lemma_floor_ln_upto_monotone(n, m, (k - 1) as nat);
    }
}

/// More peers never lower a threshold: each of the hot, cold and terminate
/// round counts is non-decreasing in the peer count.
pub proof fn lemma_thresholds_monotone(n: int, m: int)
    requires
        n <= m,
    ensures
        hot_rounds_for(n) <= hot_rounds_for(m),
        cold_rounds_for(n) <= cold_rounds_for(m),
        terminate_rounds_for(n) <= terminate_rounds_for(m),
{
    lemma_floor_ln_upto_monotone(n, m, 44);
}

/// The thresholds are ordered, and small enough that counters kept below them
/// fit a byte with room to spare.
pub proof fn lemma_thresholds_bounded(n: int)
    ensures
        1 <= hot_rounds_for(n) <= 3,
        hot_rounds_for(n) <= cold_rounds_for(n) <= 6,
        cold_rounds_for(n) <= terminate_rounds_for(n) <= 44,
{
    lemma_floor_ln_upto_monotone(n, n, 44);
}

} // verus!
