use vstd::prelude::*;

verus! {

/// The character of a decimal digit `d < 10`.
pub open spec fn digit_char(d: nat) -> char {
    if d == 0 {
        '0'
    } else if d == 1 {
        '1'
    } else if d == 2 {
        '2'
    } else if d == 3 {
        '3'
    } else if d == 4 {
        '4'
    } else if d == 5 {
        '5'
    } else if d == 6 {
        '6'
    } else if d == 7 {
        '7'
    } else if d == 8 {
        '8'
    } else {
        '9'
    }
}

/// The decimal digits of `n`, most significant first, without leading zeros.
pub open spec fn decimal(n: nat) -> Seq<char>
    decreases n,
{
    if n < 10 {
        seq![digit_char(n)]
    } else {
        decimal(n / 10).push(digit_char(n % 10))
    }
}

/// The identifier of the asset minted as number `n` (counting from one).
pub open spec fn nft_id_text(n: nat) -> Seq<char> {
    seq!['N', 'F', 'T'] + decimal(n)
}

proof fn lemma_decimal_len(n: nat)
    ensures
        decimal(n).len() >= 1,
        n >= 10 ==> decimal(n).len() >= 2,
    decreases n,
{
    if n >= 10 {
        lemma_decimal_len(n / 10);
    }
}

/// Different numbers have different decimal forms.
pub proof fn lemma_decimal_injective(a: nat, b: nat)
    requires
        decimal(a) == decimal(b),
    ensures
        a == b,
    decreases a,
{
    lemma_decimal_len(a);
    lemma_decimal_len(b);
    if a >= 10 && b >= 10 {
        let da = decimal(a);
        let db = decimal(b);
        assert(da.last() == db.last());
        assert(da.last() == digit_char(a % 10));
        assert(db.last() == digit_char(b % 10));
        assert(a % 10 < 10 && b % 10 < 10);
        assert(da.drop_last() == decimal(a / 10));
        assert(db.drop_last() == decimal(b / 10));
        lemma_decimal_injective(a / 10, b / 10);
        assert(a % 10 == b % 10);
        vstd::arithmetic::div_mod::lemma_fundamental_div_mod(a as int, 10);
        vstd::arithmetic::div_mod::lemma_fundamental_div_mod(b as int, 10);
    } else if a < 10 && b < 10 {
        assert(decimal(a)[0] == digit_char(a));
        assert(decimal(b)[0] == digit_char(b));
    } else {
        assert(decimal(a).len() != decimal(b).len());
    }
}

/// Different asset numbers give different identifiers.
pub proof fn lemma_nft_id_injective(a: nat, b: nat)
    requires
        nft_id_text(a) == nft_id_text(b),
    ensures
        a == b,
{
    let p = seq!['N', 'F', 'T'];
    assert(decimal(a) == nft_id_text(a).subrange(3, nft_id_text(a).len() as int));
    assert(decimal(b) == nft_id_text(b).subrange(3, nft_id_text(b).len() as int));
    lemma_decimal_injective(a, b);
}

/// Relies on std's `ToString` for `u32` (through `Display`): the plain
/// decimal digits, no sign and no padding.
#[verifier::external_body]
fn decimal_string(n: u32) -> (r: String)
    ensures
        r@ == decimal(n as nat),
{
    n.to_string()
}

/// The identifier of the asset minted as number `n`.
pub fn nft_id(n: u32) -> (r: String)
    ensures
        r@ == nft_id_text(n as nat),
{
    let digits = decimal_string(n);
    let mut id = String::from_str("NFT");
    proof {
        reveal_strlit("NFT");
    }
    id.append(digits.as_str());
    id
}

} // verus!
