use vstd::prelude::*;
use crate::codes::{is_rank_char, rank_prime};
use crate::codes::prime_of_rank;

verus! {

/// The rank product of a sequence of rank characters: the product of the
/// primes assigned to them.
pub open spec fn prod(s: Seq<char>) -> int
    decreases s.len(),
{
    if s.len() == 0 {
        1
    } else {
        prod(s.drop_last()) * rank_prime(s.last())
    }
}

/// 41 to the n-th power: an upper bound for the product of n rank primes.
pub open spec fn pow41(n: nat) -> int
    decreases n,
{
    if n == 0 {
        1
    } else {
        41 * pow41((n - 1) as nat)
    }
}

/// The product of n rank primes lies between 1 and 41^n.
pub proof fn lemma_prod_bounds(s: Seq<char>)
    requires
        forall|i: int| 0 <= i < s.len() ==> is_rank_char(s[i]),
    ensures
        1 <= prod(s),
        prod(s) <= pow41(s.len() as nat),
    decreases s.len(),
{
    if s.len() > 0 {
        lemma_prod_bounds(s.drop_last());
        let a = prod(s.drop_last());
        let b = pow41((s.len() - 1) as nat);
        let p = rank_prime(s.last());
        assert(is_rank_char(s.last()));
        assert(2 <= p <= 41);
        assert(1 <= a * p && a * p <= b * 41) by (nonlinear_arith)
            requires
                1 <= a,
                a <= b,
                2 <= p,
                p <= 41,
        ;
    }
}

/// The product of five rank primes fits below bit 27.
pub proof fn lemma_prod5_fits(s: Seq<char>)
    requires
        s.len() == 5,
        forall|i: int| 0 <= i < s.len() ==> is_rank_char(s[i]),
    ensures
        1 <= prod(s) < 0x0800_0000,
{
    lemma_prod_bounds(s);
    lemma_pow41_five();
}

/// The fifth power of 41, written out.
proof fn lemma_pow41_five()
    ensures
        pow41(5) == 115856201,
{
    assert(pow41(0) == 1);
    assert(pow41(1) == 41);
    assert(pow41(2) == 1681);
    assert(pow41(3) == 68921);
    assert(pow41(4) == 2825761);
    assert(pow41(5) == 115856201);
}

/// The product of the primes of five rank characters. The result does not
/// depend on the order of the five characters (the product is commutative).
pub fn get_val(hand: [char; 5]) -> (v: u32)
    requires
        forall|i: int| 0 <= i < 5 ==> is_rank_char(hand@[i]),
    ensures
        v == prod(hand@),
{
    let mut val: u32 = 1;
    let mut i: usize = 0;
    while i < 5
        invariant
            0 <= i <= 5,
            forall|k: int| 0 <= k < 5 ==> is_rank_char(hand@[k]),
            val == prod(hand@.take(i as int)),
        decreases 5 - i,
    {
        proof {
            lemma_prod_bounds(hand@.take(i as int));
            lemma_prod_bounds(hand@.take(i as int + 1));
            assert(hand@.take(i as int + 1).drop_last() =~= hand@.take(i as int));
            assert(hand@.take(i as int + 1).last() == hand@[i as int]);
            lemma_pow41_five();
            assert(pow41(i as nat + 1) <= pow41(5)) by {
                lemma_pow41_increases(i as nat + 1, 5);
            }
        }
        val = val * prime_of_rank(hand[i]);
        i = i + 1;
    }
    proof {
        assert(hand@.take(5) =~= hand@);
    }
    val
}

/// pow41 is monotone in the exponent.
proof fn lemma_pow41_increases(m: nat, n: nat)
    requires
        m <= n,
    ensures
        pow41(m) <= pow41(n),
    decreases n,
{
    if m < n {
        lemma_pow41_increases(m, (n - 1) as nat);
        let b = pow41((n - 1) as nat);
        assert(1 <= b) by {
            lemma_pow41_positive((n - 1) as nat);
        }
        assert(b <= 41 * b) by (nonlinear_arith)
            requires
                1 <= b,
        ;
    }
}

/// pow41 is positive.
proof fn lemma_pow41_positive(n: nat)
    ensures
        1 <= pow41(n),
    decreases n,
{
    if n > 0 {
        lemma_pow41_positive((n - 1) as nat);
    }
}

/// True when the five characters contain a repeated symbol.
pub open spec fn has_dup(s: Seq<char>) -> bool {
    exists|i: int, j: int| 0 <= i < j < s.len() && s[i] == s[j]
}

/// Whether the hand holds the same rank twice, that is, at least a pair.
pub fn contains_pair(hand: [char; 5]) -> (r: bool)
    ensures
        r == has_dup(hand@),
{
    let mut j: usize = 1;
    while j < 5
        invariant
            1 <= j <= 5,
            forall|a: int, b: int| 0 <= a < b < j ==> hand@[a] != hand@[b],
        decreases 5 - j,
    {
        let mut i: usize = 0;
        while i < j
            invariant
                0 <= i <= j < 5,
                forall|a: int, b: int| 0 <= a < b < j ==> hand@[a] != hand@[b],
                forall|a: int| 0 <= a < i ==> hand@[a] != hand@[j as int],
            decreases j - i,
        {
            if hand[i] == hand[j] {
                proof {
                    let gi = i as int;
                    let gj = j as int;
                    assert(0 <= gi && gi < gj && gj < 5 && hand@[gi] == hand@[gj]);
                }
                return true;
            }
            i = i + 1;
        }
        j = j + 1;
    }
    false
}

/// The low 27 bits of a hand key: the rank product, with the suit flags
/// stripped off.
pub open spec fn spec_rank_key(key: u32) -> u32 {
    key & 0x07FF_FFFF
}

/// Masks a hand key down to its rank product.
pub fn rank_key(key: u32) -> (r: u32)
    ensures
        r == spec_rank_key(key),
{
    key & 0x07FF_FFFF
}

/// True when exactly one of the four suit flag bits (27 to 30) is set in
/// the key: the convention for a hand whose five cards share one suit.
pub open spec fn is_flush_key(key: u32) -> bool {
    let sb = key & 0x7800_0000u32;
    sb == (0x0800_0000u32) || sb == (0x1000_0000u32) || sb == (0x2000_0000u32) || sb == (0x4000_0000u32)
}

/// Splitting out one position: the product is the product of the rest
/// times the prime at that position.
pub proof fn lemma_prod_remove(s: Seq<char>, j: int)
    requires
        0 <= j < s.len(),
    ensures
        prod(s) == prod(s.remove(j)) * rank_prime(s[j]),
    decreases s.len(),
{
    if j == s.len() - 1 {
        assert(s.remove(j) =~= s.drop_last());
    } else {
        assert(s.remove(j).drop_last() =~= s.drop_last().remove(j));
        assert(s.remove(j).last() == s.last());
        lemma_prod_remove(s.drop_last(), j);
        let a = prod(s.drop_last().remove(j));
        let p = rank_prime(s[j]);
        let q = rank_prime(s.last());
        assert((a * p) * q == (a * q) * p) by (nonlinear_arith);
    }
}

/// The product depends only on the multiset of the characters: any
/// reordering of a hand gives the same rank product.
pub proof fn lemma_prod_permutation(s1: Seq<char>, s2: Seq<char>)
    requires
        s1.to_multiset() == s2.to_multiset(),
    ensures
        prod(s1) == prod(s2),
    decreases s1.len(),
{
    broadcast use vstd::seq_lib::group_to_multiset_ensures;

    if s1.len() == 0 {
        assert(s1.to_multiset().len() == s1.len());
        assert(s2.to_multiset().len() == s2.len());
        assert(s2.len() == 0);
    } else {
        let x = s1.last();
        assert(s1.contains(x));
        assert(s1.to_multiset().count(x) > 0);
        assert(s2.contains(x));
        let j = choose|j: int| 0 <= j < s2.len() && s2[j] == x;
        lemma_prod_remove(s2, j);
        assert(s1.drop_last() =~= s1.remove(s1.len() - 1));
        assert(s1.remove(s1.len() - 1).to_multiset() == s1.to_multiset().remove(x));
        assert(s2.remove(j).to_multiset() == s2.to_multiset().remove(x));
        lemma_prod_permutation(s1.drop_last(), s2.remove(j));
    }
}

/// The lookup key of an encoding is independent of the order of the five
/// ranks and of the suit flags OR-ed onto the product: masking the suit
/// bits off always gives back the product of the ranks alone.
pub proof fn lemma_rank_key_of_encoding(h1: Seq<char>, h2: Seq<char>, sb1: u32, sb2: u32)
    requires
        h1.len() == 5,
        forall|i: int| 0 <= i < h1.len() ==> is_rank_char(h1[i]),
        h1.to_multiset() == h2.to_multiset(),
        sb1 & 0x07FF_FFFF == 0,
        sb2 & 0x07FF_FFFF == 0,
    ensures
        spec_rank_key((prod(h1) as u32) | sb1) == spec_rank_key((prod(h2) as u32) | sb2),
        spec_rank_key((prod(h1) as u32) | sb1) == prod(h1),
{
    lemma_prod_permutation(h1, h2);
    lemma_prod5_fits(h1);
    let v = prod(h1) as u32;
    assert((v | sb1) & 0x07FF_FFFF == v) by (bit_vector)
        requires
            v < 0x0800_0000u32,
            sb1 & 0x07FF_FFFFu32 == 0u32,
    ;
    assert((v | sb2) & 0x07FF_FFFF == v) by (bit_vector)
        requires
            v < 0x0800_0000u32,
            sb2 & 0x07FF_FFFFu32 == 0u32,
    ;
}

} // verus!
