use crate::digits::{decimal, digit_char, push_decimal};
use vstd::prelude::*;
use vstd::string::*;

verus! {

/// `1024` to the power `k`.
pub open spec fn pow1024(k: nat) -> nat
    decreases k,
{
    if k == 0 {
        1
    } else {
        1024 * pow1024((k - 1) as nat)
    }
}

/// Index of the unit a byte count is shown in: the largest unit in which the
/// count is at least one, capped at the last unit.
pub open spec fn size_unit(n: nat) -> nat {
    if n < pow1024(1) {
        0
    } else if n < pow1024(2) {
        1
    } else if n < pow1024(3) {
        2
    } else if n < pow1024(4) {
        3
    } else {
        4
    }
}

/// The name of the unit with index `k`.
pub open spec fn unit_name(k: nat) -> Seq<char> {
    if k == 0 {
        "B"@
    } else if k == 1 {
        "KB"@
    } else if k == 2 {
        "MB"@
    } else if k == 3 {
        "GB"@
    } else {
        "TB"@
    }
}

/// `a / d` rounded to the nearest integer, ties to the even one.
pub open spec fn round_half_even(a: nat, d: nat) -> nat
    recommends
        d > 0,
{
    let q = a / d;
    let r = a % d;
    if 2 * r > d || (2 * r == d && q % 2 == 1) {
        q + 1
    } else {
        q
    }
}

/// A byte count in hundredths of its display unit.
pub open spec fn size_hundredths(n: nat) -> nat {
    round_half_even(n * 100, pow1024(size_unit(n)))
}

/// `"<whole>.<two digits> <unit>"`, for instance `"1.50 KB"` for 1536 bytes.
pub open spec fn size_text(n: nat) -> Seq<char> {
    let h = size_hundredths(n);
    decimal(h / 100) + seq!['.', digit_char((h % 100) / 10), digit_char(h % 10), ' '] + unit_name(
        size_unit(n),
    )
}

proof fn lemma_pow1024_values()
    ensures
        pow1024(0) == 1,
        pow1024(1) == 1024,
        pow1024(2) == 1048576,
        pow1024(3) == 1073741824,
        pow1024(4) == 1099511627776,
{
    reveal_with_fuel(pow1024, 5);
}

/// The unit of a formatted size is the largest one in which the scaled count
/// stays below 1024, except that the last unit takes every larger count.
pub proof fn lemma_size_unit_is_largest_fitting(n: nat)
    ensures
        size_unit(n) <= 4,
        size_unit(n) < 4 ==> n < 1024 * pow1024(size_unit(n)),
        size_unit(n) > 0 ==> n >= pow1024(size_unit(n)),
{
    lemma_pow1024_values();
    reveal_with_fuel(pow1024, 5);
}

fn unit_text(k: u128) -> (r: &'static str)
    requires
        k <= 4,
    ensures
        r@ == unit_name(k as nat),
{
    if k == 0 {
        "B"
    } else if k == 1 {
        "KB"
    } else if k == 2 {
        "MB"
    } else if k == 3 {
        "GB"
    } else {
        "TB"
    }
}

/// Formats a byte count with two decimals in the largest fitting unit.
pub fn human_readable_size(size: u64) -> (r: String)
    ensures
        r@ == size_text(size as nat),
{
    proof {
        lemma_pow1024_values();
    }
    let n: u128 = size as u128;
    let mut unit: u128 = 0;
    let mut divisor: u128 = 1;
    while n >= divisor * 1024 && unit < 4
        invariant
            unit <= 4,
            divisor == pow1024(unit as nat),
            n == size as u128,
            forall|j: nat| 1 <= j <= unit ==> n >= #[trigger] pow1024(j),
            unit > 0 ==> n >= pow1024(unit as nat),
        decreases 4 - unit,
    {
        proof {
            reveal_with_fuel(pow1024, 5);
        }
        divisor = divisor * 1024;
        unit = unit + 1;
    }
    assert(unit == size_unit(size as nat)) by {
        reveal_with_fuel(pow1024, 5);
    }
    let scaled = n * 100;
    let q = scaled / divisor;
    let rem = scaled % divisor;
    let hundredths: u128 = if 2 * rem > divisor || (2 * rem == divisor && q % 2 == 1) {
        q + 1
    } else {
        q
    };
    assert(hundredths == size_hundredths(size as nat));
    let mut out = String::new();
    push_decimal(&mut out, hundredths / 100);
    out.append(".");
    out.append(crate::digits::digit_text((hundredths % 100) / 10));
    out.append(crate::digits::digit_text(hundredths % 10));
    out.append(" ");
    out.append(unit_text(unit));
    proof {
        reveal_strlit(".");
        reveal_strlit(" ");
    }
    assert(out@ =~= size_text(size as nat));
    out
}

} // verus!
