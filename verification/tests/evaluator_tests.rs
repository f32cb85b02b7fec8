use poker_eval::codes::{rank_value, suit_value, EvalError};
use poker_eval::evaluator::Evaluator;
use poker_eval::keys::{contains_pair, get_val, rank_key};
use poker_eval::patterns::make_sets;

fn suit(c: char) -> u32 {
    suit_value(c).unwrap()
}

#[test]
fn is_flush_test() {
    assert_eq!(false, Evaluator::is_flush(0b1010 << 27));
    assert_eq!(false, Evaluator::is_flush(0b0101 << 27));
    assert_eq!(false, Evaluator::is_flush(0b1111 << 27));
    assert_eq!(false, Evaluator::is_flush(0b1011 << 27));
    assert_eq!(false, Evaluator::is_flush(0b1101 << 27));
    assert_eq!(false, Evaluator::is_flush(0b1001 << 27));
    assert_eq!(false, Evaluator::is_flush(0b0110 << 27));

    assert!(Evaluator::is_flush(0b0001 << 27));
    assert!(Evaluator::is_flush(suit('c')));
    assert!(Evaluator::is_flush(0b0010 << 27));
    assert!(Evaluator::is_flush(suit('d')));
    assert!(Evaluator::is_flush(0b0100 << 27));
    assert!(Evaluator::is_flush(suit('s')));
    assert!(Evaluator::is_flush(0b1000 << 27));
    assert!(Evaluator::is_flush(suit('h')));

    assert!(Evaluator::is_flush(suit('c') | get_val(['9', 'K', 'Q', 'J', 'T'])));
    assert_eq!(false, Evaluator::is_flush(0b1111 << 27 | (41_u32.pow(4) * 37)));
    assert!(Evaluator::is_flush(0b1000 << 27 | (41_u32.pow(4) * 37)));
    assert!(Evaluator::is_flush(0b0001 << 27 | (41_u32.pow(4) * 37)));
}

#[test]
fn get_val_test() {
    assert_eq!(104_553_157, get_val(['A', 'A', 'A', 'A', 'K']));
    assert_eq!(31_367_009, get_val(['A', 'K', 'Q', 'J', 'T']));
    assert_eq!(630, get_val(['2', '3', '3', '4', '5']));
    assert_eq!(457_653, get_val(['5', 'Q', '3', 'K', '9']));
    assert_eq!(14_535_931, get_val(['9', 'K', 'Q', 'J', 'T']));
}

#[test]
fn contains_pair_test() {
    assert!(contains_pair(['A', 'A', 'A', 'A', 'K']));
    assert!(contains_pair(['2', '3', '3', '4', '5']));
    assert_eq!(false, contains_pair(['5', 'Q', '3', 'K', '9']));
}

#[test]
fn get_rank_test() {
    let e = Evaluator::new();
    // 4 aces and a K
    assert_eq!(
        11,
        e.get_hand_rank(0b1111 << 27 | (rank_value('A').unwrap().pow(4) * rank_value('K').unwrap()))
            .unwrap()
    );
    // Best Hand
    assert_eq!(
        1,
        e.get_hand_rank(0b1000 << 27 | get_val(['A', 'K', 'Q', 'J', 'T'])).unwrap()
    );
}

#[test]
fn flush_agnostic_test() {
    let e = Evaluator::new();
    assert_eq!(
        e.get_hand_rank(0b0100 << 27 | get_val(['A', 'K', 'Q', 'J', 'T'])),
        e.get_hand_rank(0b1000 << 27 | get_val(['A', 'K', 'Q', 'J', 'T']))
    );
    assert_eq!(
        e.get_hand_rank(0b0010 << 27 | get_val(['A', 'K', 'Q', 'J', 'T'])),
        e.get_hand_rank(0b0001 << 27 | get_val(['A', 'K', 'Q', 'J', 'T']))
    );
}

#[test]
fn inter_hands_compare_test() {
    let e = Evaluator::new();
    let rank_royal_flush = e.get_hand_rank(suit('h') | get_val(['A', 'K', 'Q', 'J', 'T'])).unwrap(); // 1
    let rank_straight_flush =
        e.get_hand_rank(suit('c') | get_val(['9', 'K', 'Q', 'J', 'T'])).unwrap(); // 2
    let rank_quads_aces_king =
        e.get_hand_rank(0b1111 << 27 | get_val(['A', 'A', 'A', 'A', 'K'])).unwrap(); // 11
    let ranks_quads_kings_ace =
        e.get_hand_rank(0b1111 << 27 | get_val(['K', 'K', 'K', 'K', 'A'])).unwrap(); // 12
    let rank_full_ak = e.get_hand_rank(0b1111 << 27 | get_val(['A', 'A', 'A', 'K', 'K'])).unwrap();
    let rank_flush = e.get_hand_rank(suit('c') | get_val(['A', 'Q', 'T', '2', '7'])).unwrap();
    let rank_straight = e.get_hand_rank(0b1011 << 27 | get_val(['A', 'K', 'Q', 'J', 'T'])).unwrap();
    let rank_high_ace = e.get_hand_rank(0b0111 << 27 | get_val(['A', '3', '4', 'J', 'T'])).unwrap();
    let rank_trips = e.get_hand_rank(0b0111 << 27 | get_val(['A', 'A', 'A', 'J', 'T'])).unwrap();
    let rank_dub_pairs = e.get_hand_rank(0b1011 << 27 | get_val(['A', 'A', 'J', 'J', 'T'])).unwrap();
    let rank_pairs = e.get_hand_rank(0b0111 << 27 | get_val(['A', 'A', '4', 'J', 'T'])).unwrap();

    assert!(
        rank_royal_flush < rank_straight_flush,
        "{rank_royal_flush} > {rank_straight_flush}"
    );
    assert!(
        rank_straight_flush < rank_quads_aces_king,
        "{rank_straight_flush} > {rank_quads_aces_king}"
    );
    assert!(
        rank_quads_aces_king < ranks_quads_kings_ace,
        "{rank_quads_aces_king} > {ranks_quads_kings_ace}"
    );
    assert!(
        ranks_quads_kings_ace < rank_full_ak,
        "{ranks_quads_kings_ace} > {rank_full_ak}"
    );
    assert!(rank_full_ak < rank_flush, "{rank_full_ak} > {rank_flush}");
    assert!(rank_flush < rank_straight, "{rank_flush} > {rank_straight}");
    assert!(rank_straight < rank_trips, "{rank_straight} > {rank_trips}");
    assert!(
        rank_trips < rank_dub_pairs,
        "{rank_trips} > {rank_dub_pairs}"
    );

    assert!(
        rank_dub_pairs < rank_pairs,
        "{rank_dub_pairs} > {rank_pairs}"
    );

    assert!(rank_pairs < rank_high_ace, "{rank_pairs} > {rank_high_ace}");
}

#[test]
fn rank_key_permutation_and_suit_independent_test() {
    // The product ignores the order of the five ranks.
    assert_eq!(
        get_val(['A', 'K', 'Q', 'J', 'T']),
        get_val(['T', 'J', 'Q', 'K', 'A'])
    );
    assert_eq!(
        get_val(['2', '9', '5', '9', '2']),
        get_val(['9', '9', '5', '2', '2'])
    );
    // Masking the suit flags off gives back the product, whichever flags
    // were OR-ed in.
    let v = get_val(['A', 'K', 'Q', 'J', 'T']);
    assert_eq!(v, rank_key(v | suit('h')));
    assert_eq!(v, rank_key(v | suit('d')));
    assert_eq!(v, rank_key(v | 0b1111 << 27));
    assert_eq!(v, rank_key(v));
    assert_eq!(
        rank_key(get_val(['A', 'K', 'Q', 'J', 'T']) | suit('h')),
        rank_key(get_val(['T', 'J', 'Q', 'K', 'A']) | suit('d'))
    );
}

#[test]
fn build_idempotent_test() {
    let e1 = Evaluator::new();
    let e2 = Evaluator::new();
    let keys = [
        suit('h') | get_val(['A', 'K', 'Q', 'J', 'T']),
        0b1111 << 27 | get_val(['A', 'A', 'A', 'A', 'K']),
        0b0111 << 27 | get_val(['A', 'A', '4', 'J', 'T']),
        suit('c') | get_val(['A', 'Q', 'T', '2', '7']),
        0b1011 << 27 | get_val(['5', '4', '3', '2', 'A']),
    ];
    for k in keys {
        assert_eq!(e1.get_hand_rank(k), e2.get_hand_rank(k));
    }
}

#[test]
fn wheel_boundary_test() {
    let e = Evaluator::new();
    // In the flush table: the wheel straight flush is strictly worse
    // than the 6-high straight flush and strictly better than the
    // weakest flush (7,5,4,3,2 suited).
    let wheel_sf = e.get_hand_rank(suit('s') | get_val(['5', '4', '3', '2', 'A'])).unwrap();
    let six_high_sf = e.get_hand_rank(suit('s') | get_val(['6', '5', '4', '3', '2'])).unwrap();
    let worst_flush = e.get_hand_rank(suit('s') | get_val(['7', '5', '4', '3', '2'])).unwrap();
    assert!(six_high_sf < wheel_sf, "{six_high_sf} < {wheel_sf}");
    assert!(wheel_sf < worst_flush, "{wheel_sf} < {worst_flush}");

    // In the non-flush table: the plain wheel is strictly worse than the
    // 6-high straight and strictly better than the weakest high card.
    let wheel = e.get_hand_rank(0b1011 << 27 | get_val(['5', '4', '3', '2', 'A'])).unwrap();
    let six_high = e.get_hand_rank(0b1011 << 27 | get_val(['6', '5', '4', '3', '2'])).unwrap();
    let worst_high = e.get_hand_rank(0b1011 << 27 | get_val(['7', '5', '4', '3', '2'])).unwrap();
    assert!(six_high < wheel, "{six_high} < {wheel}");
    assert!(wheel < worst_high, "{wheel} < {worst_high}");
}

#[test]
fn category_boundary_ranks_test() {
    let e = Evaluator::new();
    // Straight flushes close at rank 10 with the wheel.
    assert_eq!(
        9,
        e.get_hand_rank(suit('s') | get_val(['6', '5', '4', '3', '2'])).unwrap()
    );
    assert_eq!(
        10,
        e.get_hand_rank(suit('s') | get_val(['5', '4', '3', '2', 'A'])).unwrap()
    );
    // The strongest plain flush follows straights, quads and full houses.
    assert_eq!(
        323,
        e.get_hand_rank(suit('h') | get_val(['A', 'K', 'Q', 'J', '9'])).unwrap()
    );
    // The weakest flush closes the flush stretch of 1277 non-pair sets.
    assert_eq!(
        1599,
        e.get_hand_rank(suit('s') | get_val(['7', '5', '4', '3', '2'])).unwrap()
    );
    // Plain straights follow at once, the wheel again the weakest.
    assert_eq!(
        1600,
        e.get_hand_rank(0b1011 << 27 | get_val(['A', 'K', 'Q', 'J', 'T'])).unwrap()
    );
    assert_eq!(
        1609,
        e.get_hand_rank(0b1011 << 27 | get_val(['5', '4', '3', '2', 'A'])).unwrap()
    );
    // The weakest high card closes the whole ordering.
    assert_eq!(
        23478,
        e.get_hand_rank(0b1011 << 27 | get_val(['7', '5', '4', '3', '2'])).unwrap()
    );
}

#[test]
fn error_conditions_test() {
    assert_eq!(Err(EvalError::InvalidSymbol), rank_value('x'));
    assert_eq!(Err(EvalError::InvalidSymbol), rank_value('a'));
    assert_eq!(Ok(41), rank_value('A'));
    assert_eq!(Err(EvalError::InvalidSymbol), suit_value('q'));
    assert_eq!(Ok(1 << 29), suit_value('h'));

    let e = Evaluator::new();
    // A rank product that no real hand produces misses in both tables.
    assert_eq!(Err(EvalError::LookupMiss), e.get_hand_rank(suit('h') | 1));
    assert_eq!(Err(EvalError::LookupMiss), e.get_hand_rank(0b1111 << 27 | 1));
}

#[test]
fn make_sets_test() {
    let ranks = vec![
        '2', '3', '4', '5', '6', '7', '8', '9', 'T', 'J', 'Q', 'K', 'A',
    ];
    let sets = make_sets(ranks, 5);
    // C(13, 5) five-rank subsets.
    assert_eq!(1287, sets.len());
    // The lowest mask with five bits picks the five lowest ranks,
    // highest index first.
    assert_eq!(['6', '5', '4', '3', '2'], sets[0]);
    // The highest mask picks the five highest ranks.
    assert_eq!(['A', 'K', 'Q', 'J', 'T'], sets[1286]);
}

#[test]
fn distinct_hands_distinct_ranks_test() {
    let e = Evaluator::new();
    // Two different products filed in the same table never share a rank.
    let a = e.get_hand_rank(suit('h') | get_val(['A', 'K', 'Q', 'J', '9'])).unwrap();
    let b = e.get_hand_rank(suit('h') | get_val(['A', 'K', 'Q', 'J', '8'])).unwrap();
    assert_ne!(a, b);
    let c = e.get_hand_rank(0b0111 << 27 | get_val(['A', 'A', 'K', 'K', 'Q'])).unwrap();
    let d = e.get_hand_rank(0b0111 << 27 | get_val(['A', 'A', 'K', 'K', 'J'])).unwrap();
    assert_ne!(c, d);
}
