use vstd::prelude::*;

verus! {

/// The part of a payment owed to the creator: `amount * percentage / 100`,
/// truncated toward zero.
pub open spec fn royalty_of(amount: int, percentage: int) -> int {
    if amount >= 0 {
        (amount * percentage) / 100
    } else {
        -(((-amount) * percentage) / 100)
    }
}

proof fn lemma_split_magnitude(m: int, r: int)
    requires
        m >= 0,
        0 <= r <= 100,
    ensures
        (m / 100) * r + ((m % 100) * r) / 100 == (m * r) / 100,
        (m * r) / 100 <= m,
        (m * r) / 100 >= 0,
{
    let q = m / 100;
    let k = m % 100;
    vstd::arithmetic::div_mod::lemma_fundamental_div_mod(m, 100);
    assert(m * r == 100 * (q * r) + k * r) by (nonlinear_arith)
        requires m == 100 * q + k;
    assert(k * r >= 0) by (nonlinear_arith)
        requires k >= 0, r >= 0;
    let y = k * r;
    vstd::arithmetic::div_mod::lemma_fundamental_div_mod(y, 100);
    assert(m * r == 100 * (q * r + y / 100) + y % 100);
    vstd::arithmetic::div_mod::lemma_div_multiples_vanish_fancy(q * r + y / 100, y % 100, 100);
    assert(m * r <= m * 100) by (nonlinear_arith)
        requires m >= 0, r <= 100;
    assert(0 <= m * r) by (nonlinear_arith)
        requires m >= 0, r >= 0;
    vstd::arithmetic::div_mod::lemma_div_is_ordered(m * r, m * 100, 100);
    vstd::arithmetic::div_mod::lemma_div_multiples_vanish(m, 100);
    vstd::arithmetic::div_mod::lemma_div_pos_is_pos(m * r, 100);
}

/// Splits `amount` into the seller's and the creator's shares. The creator
/// receives `amount * percentage / 100` truncated toward zero; the rounding
/// remainder stays with the seller.
pub fn split_payment(amount: i128, percentage: u32) -> (r: (i128, i128))
    requires
        percentage <= 100,
    ensures
        r.1 == royalty_of(amount as int, percentage as int),
        r.0 + r.1 == amount,
{
    let mag: u128 = if amount >= 0 {
        amount as u128
    } else {
        ((-(amount + 1)) as u128) + 1
    };
    let p = percentage as u128;
    proof {
        lemma_split_magnitude(mag as int, p as int);
    }
    assert((mag / 100) * p <= mag) by (nonlinear_arith)
        requires p <= 100;
    assert((mag % 100) * p <= 10000) by (nonlinear_arith)
        requires mag % 100 < 100, p <= 100;
    let roy_mag: u128 = (mag / 100) * p + ((mag % 100) * p) / 100;
    if amount >= 0 {
        let royalty = roy_mag as i128;
        (amount - royalty, royalty)
    } else if roy_mag == 0 {
        (amount, 0)
    } else {
        let royalty = -(((roy_mag - 1) as i128)) - 1;
        (amount - royalty, royalty)
    }
}

} // verus!
