//! Human-readable byte sizes: repeated division by 1024 over the units
//! B, K, M, G, T, with one decimal place above the first unit.

use vstd::prelude::*;
use crate::strutil::{dec_str, digit_char, digit_str, u64_to_string};
use vstd::arithmetic::div_mod::{
    lemma_fundamental_div_mod,
    lemma_fundamental_div_mod_converse,
    lemma_div_is_ordered,
    lemma_div_is_ordered_by_denominator,
    lemma_div_nonincreasing,
    lemma_mod_multiples_vanish,
};

verus! {

/// The divisor that scales a byte count into the unit at index `i`.
pub open spec fn unit_divisor(i: nat) -> nat {
    if i == 0 {
        1
    } else if i == 1 {
        1024
    } else if i == 2 {
        1048576
    } else if i == 3 {
        1073741824
    } else {
        1099511627776
    }
}

/// The unit a byte count lands on: the scaling loop divides by 1024 while the
/// value is strictly above 1024 and a larger unit remains, so exactly 1024
/// stays at `B`, and exactly 1024 * 1024 stays at `K`.
pub open spec fn unit_index(size: nat) -> nat {
    if size <= 1024 {
        0
    } else if size <= 1048576 {
        1
    } else if size <= 1073741824 {
        2
    } else if size <= 1099511627776 {
        3
    } else {
        4
    }
}

/// The unit suffix at index `i`.
pub open spec fn unit_char(i: nat) -> char {
    if i == 0 {
        'B'
    } else if i == 1 {
        'K'
    } else if i == 2 {
        'M'
    } else if i == 3 {
        'G'
    } else {
        'T'
    }
}

/// `x / d` rounded to the nearest integer, ties to the even neighbour — how a
/// one-decimal rendering rounds its last digit.
pub open spec fn round_half_even(x: nat, d: nat) -> nat
    recommends
        d >= 1,
{
    let q = x / d;
    let r = x % d;
    if 2 * r > d {
        q + 1
    } else if 2 * r == d && q % 2 == 1 {
        q + 1
    } else {
        q
    }
}

/// The displayed number at unit index `i`, in tenths.
pub open spec fn scaled_tenths(size: nat, i: nat) -> nat {
    round_half_even(size * 10, unit_divisor(i))
}

/// The value the formatter displays, under the order the monotonicity law
/// speaks of: the raw count at index 0, the rounded tenths above it.
pub open spec fn human_value(size: nat) -> nat {
    if unit_index(size) == 0 {
        size
    } else {
        scaled_tenths(size, unit_index(size))
    }
}

/// The full human-readable rendering of a byte count.
pub open spec fn human_str(size: nat) -> Seq<char> {
    let i = unit_index(size);
    if i == 0 {
        dec_str(size).push('B')
    } else {
        let t = scaled_tenths(size, i);
        dec_str(t / 10) + seq!['.', digit_char(t % 10), unit_char(i)]
    }
}

/// A human-readable size is never the empty string.
pub proof fn lemma_human_str_nonempty(size: nat)
    ensures
        human_str(size).len() >= 2,
{
    let i = unit_index(size);
    if i == 0 {
        crate::strutil::lemma_dec_str_nonempty(size);
    } else {
        let t = scaled_tenths(size, i);
        crate::strutil::lemma_dec_str_nonempty(t / 10);
    }
}

/// Rounding to the nearest (ties to even) never reorders two values.
proof fn lemma_rhe_monotone(a: nat, b: nat, d: nat)
    requires
        a <= b,
        d >= 1,
    ensures
        round_half_even(a, d) <= round_half_even(b, d),
{
    lemma_div_is_ordered(a as int, b as int, d as int);
    let qa = a / d;
    let qb = b / d;
    if qa == qb {
        assert(a % d <= b % d) by {
            lemma_fundamental_div_mod(a as int, d as int);
            lemma_fundamental_div_mod(b as int, d as int);
        }
    }
}

/// Splitting off the whole part commutes with the rounded tenths: the parity
/// of the quotient is unchanged because ten times the whole part is even.
proof fn lemma_scaled_split(size: nat, d: nat)
    requires
        d >= 1,
    ensures
        round_half_even(size * 10, d) == (size / d) * 10 + round_half_even((size % d) * 10, d),
{
    let w = size / d;
    let r = size % d;
    lemma_fundamental_div_mod(size as int, d as int);
    let q2 = (r * 10) / d;
    let r2 = (r * 10) % d;
    lemma_fundamental_div_mod((r * 10) as int, d as int);
    assert(size * 10 == (w * 10 + q2) * d + r2) by (nonlinear_arith)
        requires
            size == d * w + r,
            r * 10 == d * q2 + r2,
    ;
    lemma_fundamental_div_mod_converse(
        (size * 10) as int,
        d as int,
        (w * 10 + q2) as int,
        r2 as int,
    );
    assert((w * 10 + q2) % 2 == q2 % 2) by {
        lemma_mod_multiples_vanish((w * 5) as int, q2 as int, 2);
        assert(w * 10 + q2 == 2 * (w * 5) + q2) by (nonlinear_arith);
    }
}

/// The human-size formatter is monotone: a smaller byte count never renders
/// as a larger value, under the lexicographic order of unit index first and
/// displayed value second.
pub proof fn lemma_human_size_monotone(size1: nat, size2: nat)
    requires
        size1 <= size2,
    ensures
        unit_index(size1) < unit_index(size2) || (unit_index(size1) == unit_index(size2)
            && human_value(size1) <= human_value(size2)),
{
    if unit_index(size1) == unit_index(size2) {
        let i = unit_index(size1);
        if i > 0 {
            lemma_rhe_monotone(size1 * 10, size2 * 10, unit_divisor(i));
        }
    }
}

/// `x / d` rounded to nearest, ties to even.
fn rhe_div(x: u64, d: u64) -> (r: u64)
    requires
        1 <= d,
        x < u64::MAX,
        d <= 0x10000000000,
    ensures
        r == round_half_even(x as nat, d as nat),
{
    let q = x / d;
    let r = x % d;
    proof {
        lemma_div_nonincreasing(x as int, d as int);
    }
    if 2 * r > d {
        q + 1
    } else if 2 * r == d && q % 2 == 1 {
        q + 1
    } else {
        q
    }
}

/// Renders `size` bytes in human-readable form, under the strict threshold:
/// `1024` stays `1024B`, `1025` becomes `1.0K`.
pub fn human_format(size: u64) -> (r: String)
    ensures
        r@ == human_str(size as nat),
{
    if size <= 1024 {
        let mut s = u64_to_string(size);
        s.append("B");
        proof {
            reveal_strlit("B");
            assert(s@ =~= human_str(size as nat));
        }
        s
    } else {
        let d: u64 = if size <= 1048576 {
            1024
        } else if size <= 1073741824 {
            1048576
        } else if size <= 1099511627776 {
            1073741824
        } else {
            1099511627776
        };
        let u: &'static str = if size <= 1048576 {
            "K"
        } else if size <= 1073741824 {
            "M"
        } else if size <= 1099511627776 {
            "G"
        } else {
            "T"
        };
        let ghost i = unit_index(size as nat);
        proof {
            reveal_strlit("K");
            reveal_strlit("M");
            reveal_strlit("G");
            reveal_strlit("T");
            assert(d == unit_divisor(i));
            assert(u@ =~= seq![unit_char(i)]);
        }
        let whole = size / d;
        let rem = size % d;
        proof {
            lemma_div_is_ordered_by_denominator(size as int, 1024, d as int);
            lemma_div_nonincreasing(size as int, 1024);
        }
        let tenth_part = rhe_div(rem * 10, d);
        let t = whole * 10 + tenth_part;
        proof {
            lemma_scaled_split(size as nat, d as nat);
            assert(t == scaled_tenths(size as nat, i));
        }
        let mut s = u64_to_string(t / 10);
        s.append(".");
        s.append(digit_str(t % 10));
        s.append(u);
        proof {
            reveal_strlit(".");
            assert(s@ =~= human_str(size as nat));
        }
        s
    }
}

} // verus!
