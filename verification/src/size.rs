//! Numbers as people read them: sizes, octal modes and hexadecimal dumps.
use vstd::prelude::*;
use crate::number::{decimal, digit, push_decimal};
use crate::text::push_text;

verus! {

/// `a / b` rounded to the nearest integer, and to the even one of two that are equally near.
pub open spec fn rounded(a: nat, b: nat) -> nat {
    let q = a / b;
    let r = a % b;
    if 2 * r > b || (2 * r == b && q % 2 == 1) {
        q + 1
    } else {
        q
    }
}

/// The power of two by which a number has to be divided to leave at most 53 binary digits.
pub open spec fn excess(n: nat) -> nat
    decreases n,
{
    if n < 0x20_0000_0000_0000 {
        1
    } else {
        2 * excess(n / 2)
    }
}

/// `n` with all but its highest 53 binary digits rounded away.
pub open spec fn to_53_bits(n: nat) -> nat {
    rounded(n, excess(n)) * excess(n)
}

/// The unit in which a size is shown: the largest of which there is at least one, up to the
/// fourth power of 1024.
pub open spec fn unit_size(n: nat) -> nat {
    if n < 0x400 {
        1
    } else if n < 0x10_0000 {
        0x400
    } else if n < 0x4000_0000 {
        0x10_0000
    } else if n < 0x100_0000_0000 {
        0x4000_0000
    } else {
        0x100_0000_0000
    }
}

/// The name of a unit.
pub open spec fn unit_name(unit: nat) -> Seq<char> {
    if unit == 1 {
        " B"@
    } else if unit == 0x400 {
        " KB"@
    } else if unit == 0x10_0000 {
        " MB"@
    } else if unit == 0x4000_0000 {
        " GB"@
    } else {
        " TB"@
    }
}

/// A size in bytes, or with one decimal in a larger unit. Of very large sizes the highest 53 binary
/// digits count.
pub open spec fn size_text(size: u64) -> Seq<char> {
    let n = to_53_bits(size as nat);
    let unit = unit_size(n);
    if unit == 1 {
        decimal(n) + unit_name(unit)
    } else {
        let tenths = rounded(10 * n, unit);
        decimal(tenths / 10) + seq!['.', digit(tenths % 10)] + unit_name(unit)
    }
}

proof fn lemma_excess(n: nat)
    requires
        n <= u64::MAX,
    ensures
        1 <= excess(n) <= 0x800,
        n / excess(n) < 0x20_0000_0000_0000,
{
    reveal_with_fuel(two_to, 12);
    lemma_excess_bound(n, 11);
}

proof fn lemma_excess_bound(n: nat, k: nat)
    requires
        n < 0x20_0000_0000_0000 * two_to(k),
    ensures
        1 <= excess(n) <= two_to(k),
        n / excess(n) < 0x20_0000_0000_0000,
    decreases k,
{
    if n >= 0x20_0000_0000_0000 {
        if k == 0 {
            assert(two_to(0) == 1);
        } else {
            lemma_excess_bound(n / 2, (k - 1) as nat);
            let e = excess(n / 2);
            assert(n / (2 * e) == (n / 2) / e) by (nonlinear_arith)
                requires
                    e >= 1,
            ;
        }
    }
}

spec fn two_to(k: nat) -> nat
    decreases k,
{
    if k == 0 {
        1
    } else {
        2 * two_to((k - 1) as nat)
    }
}

/// Rounds a division to the nearest integer, and to the even one of two that are equally near.
fn divide_rounded(a: u128, b: u128) -> (r: u128)
    requires
        1 <= b <= 0x100_0000_0000,
        a <= 0x1_0000_0000_0000_0000_0000,
    ensures
        r == rounded(a as nat, b as nat),
        r <= a + 1,
{
    let q: u128 = a / b;
    let rest: u128 = a % b;
    assert(a / b <= a) by (nonlinear_arith)
        requires
            b >= 1,
    ;
    if 2 * rest > b || (2 * rest == b && q % 2 == 1) {
        q + 1
    } else {
        q
    }
}

/// A size in bytes, or with one decimal in a larger unit.
pub fn format_size(size: u64) -> (r: String)
    ensures
        r@ == size_text(size),
{
    let mut step: u128 = 1;
    let mut rest: u128 = size as u128;
    let ghost all = excess(size as nat);
    proof {
        lemma_excess(size as nat);
    }
    #[verifier::loop_isolation(false)]
    while rest >= 0x20_0000_0000_0000
        invariant
            rest <= u64::MAX,
            step >= 1,
            step * excess(rest as nat) == all,
            excess(rest as nat) >= 1,
        decreases rest,
    {
        let ghost e = excess((rest / 2) as nat);
        proof {
            lemma_excess((rest / 2) as nat);
            assert(step * (2 * e) == (step * 2) * e) by (nonlinear_arith);
            assert(step <= all) by (nonlinear_arith)
                requires
                    step * (2 * e) == all,
                    e >= 1,
                    step >= 1,
            ;
        }
        step = step * 2;
        rest = rest / 2;
    }
    assert(step == all) by {
        assert(excess(rest as nat) == 1);
        assert(step * 1 == step) by (nonlinear_arith);
    }
    let kept: u128 = divide_rounded(size as u128, step);
    proof {
        assert(size / (step as u64) <= 0x20_0000_0000_0000);
        assert(kept <= 0x20_0000_0000_0000);
        assert(kept * step <= 0x20_0000_0000_0000 * 0x800) by (nonlinear_arith)
            requires
                kept <= 0x20_0000_0000_0000,
                step <= 0x800,
        ;
    }
    let n: u128 = kept * step;
    assert(n == to_53_bits(size as nat));
    let mut out: String = String::new();
    if n < 0x400 {
        push_decimal(&mut out, n as u64);
        push_text(&mut out, " B");
        assert(out@ =~= size_text(size));
        return out;
    }
    let (unit, name): (u128, &str) = if n < 0x10_0000 {
        (0x400, " KB")
    } else if n < 0x4000_0000 {
        (0x10_0000, " MB")
    } else if n < 0x100_0000_0000 {
        (0x4000_0000, " GB")
    } else {
        (0x100_0000_0000, " TB")
    };
    let tenths: u128 = divide_rounded(10 * n, unit);
    proof {
        assert((10 * n) / (unit as int) <= 0xfff_ffff_ffff_ffff) by (nonlinear_arith)
            requires
                unit >= 0x400,
                n <= 0x20_0000_0000_0000 * 0x800,
        ;
    }
    push_decimal(&mut out, (tenths / 10) as u64);
    out.push('.');
    push_decimal(&mut out, (tenths % 10) as u64);
    push_text(&mut out, name);
    proof {
        let last = (tenths % 10) as nat;
        assert(decimal(last) =~= seq![digit(last)]);
        assert(out@ =~= size_text(size));
    }
    out
}

} // verus!
