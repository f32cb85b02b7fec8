use vstd::prelude::*;

verus! {

/// The failure conditions of the evaluator: a character outside the fixed
/// rank or suit alphabets, or a query key whose rank product stands in
/// neither lookup table.
#[derive(Clone, Copy, Debug, PartialEq, Eq, Structural)]
pub enum EvalError {
    InvalidSymbol,
    LookupMiss,
}

/// The prime assigned to each of the 13 card ranks, and 0 for any other
/// character. Distinct primes make the product of five rank primes unique
/// to the unordered multiset of the five ranks.
pub open spec fn rank_prime(c: char) -> u32 {
    match c {
        '2' => 2u32,
        '3' => 3u32,
        '4' => 5u32,
        '5' => 7u32,
        '6' => 11u32,
        '7' => 13u32,
        '8' => 17u32,
        '9' => 19u32,
        'T' => 23u32,
        'J' => 29u32,
        'Q' => 31u32,
        'K' => 37u32,
        'A' => 41u32,
        _ => 0u32,
    }
}

/// True for the 13 characters that denote a card rank.
pub open spec fn is_rank_char(c: char) -> bool {
    rank_prime(c) != 0
}

/// The single-bit flag assigned to each of the 4 suits, in the high range
/// of a 32-bit key (bits 27 to 30), and 0 for any other character.
pub open spec fn suit_flag(c: char) -> u32 {
    match c {
        'c' => 0x0800_0000u32,
        'd' => 0x1000_0000u32,
        'h' => 0x2000_0000u32,
        's' => 0x4000_0000u32,
        _ => 0u32,
    }
}

/// True for the 4 characters that denote a suit.
pub open spec fn is_suit_char(c: char) -> bool {
    suit_flag(c) != 0
}

/// Looks a rank character up in the fixed rank-to-prime mapping.
pub fn rank_value(c: char) -> (r: Result<u32, EvalError>)
    ensures
        is_rank_char(c) ==> r == Ok::<u32, EvalError>(rank_prime(c)),
        !is_rank_char(c) ==> r == Err::<u32, EvalError>(EvalError::InvalidSymbol),
{
    match c {
        '2' => Ok(2u32),
        '3' => Ok(3u32),
        '4' => Ok(5u32),
        '5' => Ok(7u32),
        '6' => Ok(11u32),
        '7' => Ok(13u32),
        '8' => Ok(17u32),
        '9' => Ok(19u32),
        'T' => Ok(23u32),
        'J' => Ok(29u32),
        'Q' => Ok(31u32),
        'K' => Ok(37u32),
        'A' => Ok(41u32),
        _ => Err(EvalError::InvalidSymbol),
    }
}

/// Looks a suit character up in the fixed suit-to-flag mapping.
pub fn suit_value(c: char) -> (r: Result<u32, EvalError>)
    ensures
        is_suit_char(c) ==> r == Ok::<u32, EvalError>(suit_flag(c)),
        !is_suit_char(c) ==> r == Err::<u32, EvalError>(EvalError::InvalidSymbol),
{
    match c {
        'c' => Ok(0x0800_0000u32),
        'd' => Ok(0x1000_0000u32),
        'h' => Ok(0x2000_0000u32),
        's' => Ok(0x4000_0000u32),
        _ => Err(EvalError::InvalidSymbol),
    }
}

/// The prime of a rank character, for callers that already know the
/// character is one of the 13 ranks.
pub(crate) fn prime_of_rank(c: char) -> (p: u32)
    requires
        is_rank_char(c),
    ensures
        p == rank_prime(c),
{
    match c {
        '2' => 2u32,
        '3' => 3u32,
        '4' => 5u32,
        '5' => 7u32,
        '6' => 11u32,
        '7' => 13u32,
        '8' => 17u32,
        '9' => 19u32,
        'T' => 23u32,
        'J' => 29u32,
        'Q' => 31u32,
        'K' => 37u32,
        'A' => 41u32,
        _ => 0u32,
    }
}

} // verus!
