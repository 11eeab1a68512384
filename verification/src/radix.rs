//! Positional notation: the value of a digit sequence, the canonical digits
//! of a number, and the long-division engine that converts between bases.

use vstd::prelude::*;
use vstd::arithmetic::div_mod::{
    lemma_div_decreases,
    lemma_fundamental_div_mod,
    lemma_fundamental_div_mod_converse,
    lemma_mod_bound,
};

verus! {

/// The number that the big-endian digit sequence `ds` denotes in `base`.
/// Digits are not required to be smaller than the base.
pub open spec fn value(ds: Seq<u8>, base: nat) -> nat
    decreases ds.len(),
{
    if ds.len() == 0 {
        0
    } else {
        value(ds.drop_last(), base) * base + (ds.last() as nat)
    }
}

/// The canonical big-endian digits of `n` in `base`: no leading zero, and
/// the empty sequence for zero.
pub open spec fn digits_of(n: nat, base: nat) -> Seq<u8>
    decreases n,
{
    if n == 0 || base < 2 {
        seq![]
    } else {
        proof {
            lemma_div_decreases(n as int, base as int);
        }
        digits_of(n / base, base).push((n % base) as u8)
    }
}

/// The sequence is empty or starts with a nonzero digit.
pub open spec fn no_leading_zero(ds: Seq<u8>) -> bool {
    ds.len() == 0 || ds[0] != 0
}

/// Every digit is smaller than `base`.
pub open spec fn digits_below(ds: Seq<u8>, base: nat) -> bool {
    forall|i: int| 0 <= i < ds.len() ==> #[trigger] ds[i] < base
}

/// What repeated long division makes of the digits `ds`: nothing for an empty
/// input or a lone zero digit, a single zero digit for any other input worth
/// zero, and otherwise the canonical digits of its value in the target base.
pub open spec fn rebase(ds: Seq<u8>, from: nat, to: nat) -> Seq<u8> {
    if ds.len() == 0 || ds == seq![0u8] {
        seq![]
    } else if value(ds, from) == 0 {
        seq![0u8]
    } else {
        digits_of(value(ds, from), to)
    }
}

/// A nonempty sequence without a leading zero is worth more than zero.
pub proof fn lemma_value_positive(ds: Seq<u8>, base: nat)
    requires
        ds.len() > 0,
        ds[0] != 0,
        base >= 1,
    ensures
        value(ds, base) > 0,
    decreases ds.len(),
{
    if ds.len() > 1 {
        let init = ds.drop_last();
        assert(init[0] == ds[0]);
        lemma_value_positive(init, base);
        let a = value(init, base);
        assert(a * base >= 1) by (nonlinear_arith)
            requires
                a >= 1,
                base >= 1,
        ;
    }
}

/// The canonical digits of `n` read back give `n`, have no leading zero, and
/// are all below the base.
pub proof fn lemma_digits_of(n: nat, base: nat)
    requires
        2 <= base <= 256,
    ensures
        value(digits_of(n, base), base) == n,
        no_leading_zero(digits_of(n, base)),
        digits_below(digits_of(n, base), base),
        (digits_of(n, base).len() > 0) == (n > 0),
    decreases n,
{
    if n > 0 {
        lemma_div_decreases(n as int, base as int);
        lemma_digits_of(n / base, base);
        lemma_fundamental_div_mod(n as int, base as int);
        lemma_mod_bound(n as int, base as int);
        let ds = digits_of(n, base);
        let init = digits_of(n / base, base);
        assert(ds.drop_last() =~= init);
        assert(base * (n / base) == (n / base) * base) by (nonlinear_arith);
        if init.len() == 0 {
            assert(n / base == 0) by {
                if n / base > 0 {
                    lemma_digits_of(n / base, base);
                }
            }
            assert(n % base == n);
        }
        if init.len() > 0 {
            assert(ds[0] == init[0]);
        }
    }
}

/// Canonical digits are the digits of their own value.
pub proof fn lemma_canonical_digits(ds: Seq<u8>, base: nat)
    requires
        2 <= base <= 256,
        no_leading_zero(ds),
        digits_below(ds, base),
    ensures
        digits_of(value(ds, base), base) == ds,
    decreases ds.len(),
{
    if ds.len() > 0 {
        let init = ds.drop_last();
        let n = value(ds, base);
        lemma_value_positive(ds, base);
        if init.len() > 0 {
            assert(init[0] == ds[0]);
        }
        assert(digits_below(init, base)) by {
            assert forall|i: int| 0 <= i < init.len() implies #[trigger] init[i] < base by {
                assert(init[i] == ds[i]);
            }
        }
        lemma_canonical_digits(init, base);
        assert(ds.last() < base) by {
            assert(ds[ds.len() - 1] < base);
        }
        lemma_fundamental_div_mod_converse(n as int, base as int, value(init, base) as int, ds.last() as int);
        assert(ds =~= init.push(ds.last()));
    }
}

/// A single digit is worth itself.
pub proof fn lemma_value_single(ds: Seq<u8>, base: nat)
    requires
        ds.len() == 1,
    ensures
        value(ds, base) == ds[0] as nat,
{
    assert(ds.drop_last() =~= Seq::<u8>::empty());
    assert(value(ds.drop_last(), base) == 0);
    assert(0 * base == 0) by (nonlinear_arith);
}

/// The value of a sequence extended by one digit.
proof fn lemma_value_push(ds: Seq<u8>, d: u8, base: nat)
    ensures
        value(ds.push(d), base) == value(ds, base) * base + d,
{
    assert(ds.push(d).drop_last() =~= ds);
}

/// A long-division step: from `a * to + rem` and `rem * from + byte == qt * to + r`.
proof fn lemma_division_step(a: int, rem: int, byte: int, from: int, to: int, qt: int, r: int)
    by (nonlinear_arith)
    requires
        rem * from + byte == qt * to + r,
    ensures
        (a * to + rem) * from + byte == (a * from + qt) * to + r,
{
}

/// Divide the number written by `temp` in base `from` by `to`: the quotient's
/// digits in base `from`, without leading zeros, and the remainder.
fn divide(temp: &Vec<u8>, from: u16, to: u16) -> (res: (Vec<u8>, u16))
    requires
        2 <= from <= 256,
        2 <= to <= 256,
    ensures
        value(res.0@, from as nat) * to + res.1 == value(temp@, from as nat),
        res.1 < to,
        no_leading_zero(res.0@),
        res.0@.len() <= temp@.len(),
{
    let mut remainder: u16 = 0;
    let mut q: Vec<u8> = Vec::new();
    let mut i: usize = 0;
    assert(temp@.take(0) =~= Seq::<u8>::empty());
    assert(value(q@, from as nat) == 0);
    assert(value(temp@.take(0), from as nat) == 0);
    while i < temp.len()
        invariant
            0 <= i <= temp.len(),
            2 <= from <= 256,
            2 <= to <= 256,
            remainder < to,
            value(q@, from as nat) * to + remainder == value(temp@.take(i as int), from as nat),
            no_leading_zero(q@),
            q@.len() <= i,
        decreases temp.len() - i,
    {
        let byte = temp[i];
        assert(remainder * from + byte <= 65535 && remainder * from + byte < 256 * to)
            by (nonlinear_arith)
            requires
                remainder < to,
                to <= 256,
                from <= 256,
                byte <= 255,
        ;
        let v: u16 = remainder * from + byte as u16;
        let quotient: u16 = v / to;
        let r: u16 = v % to;
        proof {
            lemma_fundamental_div_mod(v as int, to as int);
            lemma_mod_bound(v as int, to as int);
            assert(to * quotient == quotient * to) by (nonlinear_arith);
            assert(quotient < 256) by (nonlinear_arith)
                requires
                    v < 256 * to,
                    quotient == v / to,
                    to >= 2,
            ;
            let a = value(q@, from as nat) as int;
            lemma_division_step(a, remainder as int, byte as int, from as int, to as int, quotient as int, r as int);
            assert(temp@.take(i + 1).drop_last() =~= temp@.take(i as int));
        }
        let ghost old_q = q@;
        if q.len() > 0 || quotient > 0 {
            q.push(quotient as u8);
            proof {
                lemma_value_push(old_q, quotient as u8, from as nat);
                if old_q.len() > 0 {
                    assert(q@[0] == old_q[0]);
                }
            }
        } else {
            assert(value(q@, from as nat) == 0);
        }
        remainder = r;
        i += 1;
    }
    assert(temp@.take(temp@.len() as int) =~= temp@);
    (q, remainder)
}

/// The digits are empty or a lone zero, where long division stops.
fn is_zero_or_empty(ds: &Vec<u8>) -> (b: bool)
    ensures
        b == (ds@.len() == 0 || ds@ == seq![0u8]),
{
    if ds.len() == 0 {
        true
    } else if ds.len() == 1 && ds[0] == 0 {
        assert(ds@ =~= seq![0u8]);
        true
    } else {
        proof {
            if ds@ == seq![0u8] {
                assert(ds@[0] == 0);
            }
        }
        false
    }
}

/// Convert the big-endian digits `ds`, read in base `from`, to base `to` by
/// repeated long division, as the encoders and decoders of this crate do.
pub fn rebase_digits(ds: &[u8], from: u16, to: u16) -> (out: Vec<u8>)
    requires
        2 <= from <= 256,
        2 <= to <= 256,
    ensures
        out@ == rebase(ds@, from as nat, to as nat),
        digits_below(out@, to as nat),
{
    let ghost n = value(ds@, from as nat);
    let mut result: Vec<u8> = Vec::new();
    let mut temp: Vec<u8> = vstd::slice::slice_to_vec(ds);
    while !is_zero_or_empty(&temp)
        invariant
            2 <= from <= 256,
            2 <= to <= 256,
            n == value(ds@, from as nat),
            result@.len() == 0 ==> temp@ == ds@,
            result@.len() > 0 ==> no_leading_zero(temp@),
            result@.len() > 0 ==> !(ds@.len() == 0 || ds@ == seq![0u8]),
            n > 0 ==> digits_of(n, to as nat) == digits_of(value(temp@, from as nat), to as nat)
                + result@.reverse(),
            n == 0 && result@.len() > 0 ==> result@ == seq![0u8] && temp@.len() == 0,
            digits_below(result@, to as nat),
        decreases value(temp@, from as nat), temp@.len(),
    {
        let ghost big_v = value(temp@, from as nat);
        let ghost old_result = result@;
        proof {
            if result@.len() > 0 {
                assert(temp@[0] != 0) by {
                    if temp@.len() == 1 && temp@[0] == 0 {
                        assert(temp@ =~= seq![0u8]);
                    }
                }
                lemma_value_positive(temp@, from as nat);
            } else {
                assert(ds@ == temp@);
            }
        }
        let (q, r) = divide(&temp, from, to);
        proof {
            lemma_fundamental_div_mod_converse(big_v as int, to as int, value(q@, from as nat) as int, r as int);
            if big_v > 0 {
                lemma_div_decreases(big_v as int, to as int);
                let d = digits_of(big_v, to as nat);
                assert(d == digits_of(big_v / (to as nat), to as nat).push((big_v % (to as nat)) as u8));
            } else {
                if q@.len() > 0 {
                    lemma_value_positive(q@, from as nat);
                }
            }
        }
        result.push(r as u8);
        temp = q;
        proof {
            assert(result@.reverse() =~= seq![r as u8] + old_result.reverse());
            if n > 0 {
                assert(big_v > 0);
                assert(digits_of(n, to as nat) =~= digits_of(value(temp@, from as nat), to as nat)
                    + result@.reverse());
            }
            if n == 0 {
                assert(old_result.len() == 0);
                assert(big_v == 0);
                assert(result@ =~= seq![0u8]);
            }
            assert(digits_below(result@, to as nat)) by {
                assert forall|i: int| 0 <= i < result@.len() implies #[trigger] result@[i] < to by {
                    if i < old_result.len() {
                        assert(result@[i] == old_result[i]);
                    }
                }
            }
        }
    }
    proof {
        if n > 0 {
            assert(temp@.len() == 0 || temp@ == seq![0u8]);
            if result@.len() == 0 {
                assert(temp@ == ds@);
                if ds@.len() == 1 {
                    lemma_value_single(ds@, from as nat);
                }
                assert(false);
            }
            assert(no_leading_zero(temp@));
            assert(temp@.len() == 0) by {
                if temp@ == seq![0u8] {
                    assert(temp@[0] == 0);
                }
            }
            assert(digits_of(0, to as nat) =~= Seq::<u8>::empty());
            assert(digits_of(n, to as nat) =~= result@.reverse());
            assert(!(ds@.len() == 0 || ds@ == seq![0u8])) by {
                if ds@ == seq![0u8] {
                    assert(value(ds@, from as nat) == 0) by {
                        assert(ds@.drop_last() =~= Seq::<u8>::empty());
                    }
                }
            }
        } else if result@.len() == 0 {
            assert(temp@ == ds@);
        }
    }
    let mut out: Vec<u8> = Vec::new();
    let mut k: usize = result.len();
    while k > 0
        invariant
            k <= result@.len(),
            out@ =~= result@.reverse().take(result@.len() - k),
        decreases k,
    {
        k -= 1;
        out.push(result[k]);
        assert(result@.reverse().take(result@.len() - k) =~= result@.reverse().take(
            result@.len() - k - 1,
        ).push(result@[k as int]));
    }
    proof {
        assert(result@.reverse().take(result@.len() as int) =~= result@.reverse());
        assert(digits_below(out@, to as nat)) by {
            assert forall|i: int| 0 <= i < out@.len() implies #[trigger] out@[i] < to by {
                assert(out@[i] == result@[result@.len() - 1 - i]);
            }
        }
    }
    out
}

} // verus!
