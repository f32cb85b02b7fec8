use vstd::prelude::*;
use std::collections::HashMap;
use std::hash::BuildHasherDefault;
use crate::codes::EvalError;
use crate::keys::{
    contains_pair, get_val, has_dup, is_flush_key, lemma_prod5_fits, lemma_prod_permutation,
    prod, rank_key, spec_rank_key,
};
use crate::patterns::{
    all_hands, all_hands_model, all_wf, desc_index_of, full_pattern, fulls_model,
    kicker2_index_of, kicker3_index_of, kicker_index_of, lemma_all_hands_len_bound,
    lemma_desc_index_of, lemma_fulls_upto_index, lemma_fulls_upto_len, lemma_kicker2_index_of,
    lemma_kicker3_index_of, lemma_kicker_index_of, lemma_pairs_upto_index, lemma_pairs_upto_len,
    lemma_non_pairs_complete, lemma_quads_upto_index, lemma_quads_upto_len,
    lemma_ranks_desc_distinct, straight_sets_model,
    lemma_trips_upto_index, lemma_trips_upto_len, lemma_two_pairs_upto_index,
    lemma_two_pairs_upto_len, non_pairs_model, pair_pattern, pairs_model, pattern_views,
    quad_pattern, quads_model, ranks_desc, straight_pattern, straights_model, trip_pattern,
    trips_model, two_pair_pattern, two_pairs_model, wf_pattern,
};

verus! {

/// fnv's hasher, declared so the fnv-backed hash maps can stand in the
/// evaluator's fields.
#[verifier::external_type_specification]
#[verifier::external_body]
pub struct ExFnvHasher(fnv::FnvHasher);

/// std's BuildHasherDefault, the hasher builder behind fnv's map alias.
#[verifier::external_type_specification]
#[verifier::external_body]
#[verifier::reject_recursive_types(H)]
pub struct ExBuildHasherDefault<H>(BuildHasherDefault<H>);

/// A lookup table from rank product to strength rank, backed by a
/// HashMap with fnv's fast FNV hasher: the keys are small integers, the
/// case that hasher is made for.
pub(crate) type FnvTable = HashMap<u32, u32, BuildHasherDefault<fnv::FnvHasher>>;

/// Relies on fnv's FnvHashMap::default (HashMap::default with the FNV
/// hasher): a freshly built map is empty.
#[verifier::external_body]
fn fnv_map_new() -> (out: FnvTable)
    ensures
        out@ =~= Map::empty(),
{
    fnv::FnvHashMap::default()
}

/// Relies on HashMap::insert; the FNV hasher is a fixed, deterministic
/// Hasher implementation, so the map behaves as a map from key to value.
#[verifier::external_body]
fn fnv_map_insert(m: &mut FnvTable, key: u32, value: u32)
    ensures
        final(m)@ == old(m)@.insert(key, value),
{
    m.insert(key, value);
}

/// Relies on HashMap::get with the FNV hasher: Some exactly for a key
/// the map holds, with the value stored under it.
#[verifier::external_body]
fn fnv_map_get(m: &FnvTable, key: u32) -> (r: Option<u32>)
    ensures
        r matches Some(v) ==> m@.contains_key(key) && m@[key] == v,
        r is None ==> !m@.contains_key(key),
{
    m.get(&key).copied()
}

/// Whether the pattern at position n of the build sequence is routed to
/// the non-flush table: it holds a repeated rank, or it lies past the
/// flush stretch (the first 1599 positions: straights as straight
/// flushes, quads, full houses, and the non-pair sets as flushes).
pub open spec fn goes_non_flush(n: int) -> bool {
    n > 1598 || has_dup(all_hands_model()[n])
}

/// The key under which the pattern at position n is filed: its rank
/// product.
pub open spec fn entry_key(n: int) -> u32 {
    prod(all_hands_model()[n]) as u32
}

/// The flush table after the first n patterns of the build sequence:
/// position m got strength rank m + 1.
pub open spec fn flush_upto(n: nat) -> Map<u32, u32>
    decreases n,
{
    if n == 0 {
        Map::empty()
    } else {
        let prev = flush_upto((n - 1) as nat);
        if goes_non_flush(n - 1) {
            prev
        } else {
            prev.insert(entry_key(n - 1), n as u32)
        }
    }
}

/// The non-flush table after the first n patterns of the build sequence.
pub open spec fn non_flush_upto(n: nat) -> Map<u32, u32>
    decreases n,
{
    if n == 0 {
        Map::empty()
    } else {
        let prev = non_flush_upto((n - 1) as nat);
        if goes_non_flush(n - 1) {
            prev.insert(entry_key(n - 1), n as u32)
        } else {
            prev
        }
    }
}

/// The completed flush table.
pub open spec fn flush_model() -> Map<u32, u32> {
    flush_upto(all_hands_model().len())
}

/// The completed non-flush table.
pub open spec fn non_flush_model() -> Map<u32, u32> {
    non_flush_upto(all_hands_model().len())
}

/// One evaluated pattern of the build: whether it holds a repeated rank,
/// its rank product, and its assigned strength rank.
#[derive(Debug)]
pub struct Hand {
    has_pair: bool,
    val: u32,
    rank: u32,
}

/// The evaluator: two lookup tables from rank product to strength rank,
/// one for flushes, one for everything else, immutable once built.
pub struct Evaluator {
    flushes: FnvTable,
    non_flushes: FnvTable,
}

impl Evaluator {
    pub closed spec fn flushes_map(&self) -> Map<u32, u32> {
        self.flushes@
    }

    pub closed spec fn non_flushes_map(&self) -> Map<u32, u32> {
        self.non_flushes@
    }

    /// The tables hold exactly what the one-time build puts in them.
    pub open spec fn is_built(&self) -> bool {
        self.flushes_map() == flush_model() && self.non_flushes_map() == non_flush_model()
    }

    /// The answer a built evaluator owes for a key: the strength rank
    /// filed under the key's rank product in the table its suit bits
    /// select, or a lookup miss when the product is absent there.
    pub open spec fn spec_hand_rank(&self, handkey: u32) -> Result<u32, EvalError> {
        let t = if is_flush_key(handkey) {
            self.flushes_map()
        } else {
            self.non_flushes_map()
        };
        if t.contains_key(spec_rank_key(handkey)) {
            Ok(t[spec_rank_key(handkey)])
        } else {
            Err(EvalError::LookupMiss)
        }
    }

    /// Builds the two lookup tables once and returns the evaluator that
    /// owns them.
    pub fn new() -> (e: Evaluator)
        ensures
            e.is_built(),
    {
        let mut e = Evaluator { flushes: fnv_map_new(), non_flushes: fnv_map_new() };
        e.init();
        e
    }

    /// Checks if the hand only contains one suit: exactly one of the
    /// four suit flag bits is set in the key.
    pub fn is_flush(handkey: u32) -> (r: bool)
        ensures
            r == is_flush_key(handkey),
    {
        let c = handkey & 0x0800_0000u32 > 0;
        let d = handkey & 0x1000_0000u32 > 0;
        let h = handkey & 0x2000_0000u32 > 0;
        let s = handkey & 0x4000_0000u32 > 0;
        let r = !c && !d && (h ^ s) || !h && !s && (c ^ d);
        proof {
            let k = handkey;
            assert(((!(k & 0x0800_0000u32 > 0) && !(k & 0x1000_0000u32 > 0) && ((k
                & 0x2000_0000u32 > 0) != (k & 0x4000_0000u32 > 0))) || (!(k & 0x2000_0000u32 > 0)
                && !(k & 0x4000_0000u32 > 0) && ((k & 0x0800_0000u32 > 0) != (k & 0x1000_0000u32
                > 0)))) == ((k & 0x7800_0000u32) == 0x0800_0000u32 || (k & 0x7800_0000u32)
                == 0x1000_0000u32 || (k & 0x7800_0000u32) == 0x2000_0000u32 || (k
                & 0x7800_0000u32) == 0x4000_0000u32)) by (bit_vector);
        }
        r
    }

    /// Get the rank of the hand, lower is better; a key whose rank
    /// product is absent from the selected table is a lookup miss.
    pub fn get_hand_rank(&self, handkey: u32) -> (r: Result<u32, EvalError>)
        ensures
            r == self.spec_hand_rank(handkey),
    {
        let rk = rank_key(handkey);
        if Evaluator::is_flush(handkey) {
            match fnv_map_get(&self.flushes, rk) {
                Some(v) => Ok(v),
                None => Err(EvalError::LookupMiss),
            }
        } else {
            match fnv_map_get(&self.non_flushes, rk) {
                Some(v) => Ok(v),
                None => Err(EvalError::LookupMiss),
            }
        }
    }

    /// Walks the concatenated categories once, assigns strength ranks
    /// 1, 2, 3, ... in order, and routes each pattern into the flush or
    /// the non-flush table.
    fn init(&mut self)
        requires
            old(self).flushes_map() == Map::<u32, u32>::empty(),
            old(self).non_flushes_map() == Map::<u32, u32>::empty(),
        ensures
            final(self).is_built(),
    {
        let all = all_hands();
        let mut evaluated: Vec<Hand> = Vec::new();
        let mut i: usize = 0;
        while i < all.len()
            invariant
                i <= all@.len(),
                pattern_views(all@) == all_hands_model(),
                all_wf(all@),
                evaluated@.len() == i,
                forall|m: int|
                    0 <= m < i ==> {
                        &&& (#[trigger] evaluated@[m]).has_pair == has_dup(all_hands_model()[m])
                        &&& evaluated@[m].val == entry_key(m)
                        &&& evaluated@[m].rank == m + 1
                    },
                self.flushes@ == old(self).flushes@,
                self.non_flushes@ == old(self).non_flushes@,
            decreases all@.len() - i,
        {
            proof {
                lemma_all_hands_len_bound();
                assert(all@[i as int]@ == all_hands_model()[i as int]);
                assert(wf_pattern(all@[i as int]@));
            }
            let hand = all[i];
            let hp = contains_pair(hand);
            let v = get_val(hand);
            let rank: u32 = (i as u32) + 1;
            evaluated.push(Hand { has_pair: hp, val: v, rank: rank });
            i = i + 1;
        }
        let mut n: usize = 0;
        while n < evaluated.len()
            invariant
                n <= evaluated@.len(),
                evaluated@.len() == all_hands_model().len(),
                forall|m: int|
                    0 <= m < evaluated@.len() ==> {
                        &&& (#[trigger] evaluated@[m]).has_pair == has_dup(all_hands_model()[m])
                        &&& evaluated@[m].val == entry_key(m)
                        &&& evaluated@[m].rank == m + 1
                    },
                self.flushes@ == flush_upto(n as nat),
                self.non_flushes@ == non_flush_upto(n as nat),
            decreases evaluated@.len() - n,
        {
            let hp = evaluated[n].has_pair;
            let hv = evaluated[n].val;
            let hr = evaluated[n].rank;
            if n > 1598 || hp {
                fnv_map_insert(&mut self.non_flushes, hv, hr);
            } else {
                fnv_map_insert(&mut self.flushes, hv, hr);
            }
            proof {
                lemma_all_hands_len_bound();
                assert(self.flushes@ == flush_upto(n as nat + 1));
                assert(self.non_flushes@ == non_flush_upto(n as nat + 1));
            }
            n = n + 1;
        }
    }
}

/// Distinct keys of a table always carry distinct strength ranks.
pub open spec fn table_injective(t: Map<u32, u32>) -> bool {
    forall|k1: u32, k2: u32|
        t.contains_key(k1) && t.contains_key(k2) && k1 != k2 ==> t[k1] != t[k2]
}

/// Every strength rank in the table lies in [1, n].
pub open spec fn table_bounded(t: Map<u32, u32>, n: int) -> bool {
    forall|k: u32| t.contains_key(k) ==> 1 <= #[trigger] t[k] <= n
}

proof fn lemma_tables_upto_unique(n: nat)
    requires
        n <= 0xFFFF_FFFF,
    ensures
        table_injective(flush_upto(n)),
        table_bounded(flush_upto(n), n as int),
        table_injective(non_flush_upto(n)),
        table_bounded(non_flush_upto(n), n as int),
    decreases n,
{
    if n > 0 {
        let m = (n - 1) as nat;
        lemma_tables_upto_unique(m);
        let key = entry_key(n - 1);
        let rank = n as u32;
        assert(rank == n);
        if goes_non_flush(n - 1) {
            let prev = non_flush_upto(m);
            let cur = non_flush_upto(n);
            assert(cur == prev.insert(key, rank));
            assert forall|k1: u32, k2: u32|
                cur.contains_key(k1) && cur.contains_key(k2) && k1 != k2 implies cur[k1]
                != cur[k2] by {
                if k1 != key && k2 != key {
                    assert(prev[k1] != prev[k2]);
                }
            }
        } else {
            let prev = flush_upto(m);
            let cur = flush_upto(n);
            assert(cur == prev.insert(key, rank));
            assert forall|k1: u32, k2: u32|
                cur.contains_key(k1) && cur.contains_key(k2) && k1 != k2 implies cur[k1]
                != cur[k2] by {
                if k1 != key && k2 != key {
                    assert(prev[k1] != prev[k2]);
                }
            }
        }
    }
}

/// Every strength rank that the build files is unique within its table:
/// no two rank products of the flush table share a rank, and none of the
/// non-flush table do; and every filed rank lies between 1 and the
/// number of enumerated patterns.
pub proof fn lemma_ranks_unique_within_tables()
    ensures
        table_injective(flush_model()),
        table_injective(non_flush_model()),
        table_bounded(flush_model(), all_hands_model().len() as int),
        table_bounded(non_flush_model(), all_hands_model().len() as int),
{
    lemma_all_hands_len_bound();
    lemma_tables_upto_unique(all_hands_model().len());
}

proof fn lemma_upto_keys_monotonic(n1: nat, n2: nat)
    requires
        n1 <= n2,
    ensures
        forall|k: u32|
            flush_upto(n1).contains_key(k) ==> #[trigger] flush_upto(n2).contains_key(k),
        forall|k: u32|
            non_flush_upto(n1).contains_key(k) ==> #[trigger] non_flush_upto(n2).contains_key(
                k,
            ),
    decreases n2,
{
    if n1 < n2 {
        let m = (n2 - 1) as nat;
        lemma_upto_keys_monotonic(n1, m);
        assert forall|k: u32| flush_upto(n1).contains_key(k) implies #[trigger] flush_upto(
            n2,
        ).contains_key(k) by {
            assert(flush_upto(m).contains_key(k));
        }
        assert forall|k: u32| non_flush_upto(n1).contains_key(k) implies #[trigger] non_flush_upto(
            n2,
        ).contains_key(k) by {
            assert(non_flush_upto(m).contains_key(k));
        }
    }
}

/// No pattern is lost: the rank product of every pattern of the build
/// sequence is a key of the table the build routed it to, once the
/// build is complete.
pub proof fn lemma_every_pattern_filed(n: int)
    requires
        0 <= n < all_hands_model().len(),
    ensures
        goes_non_flush(n) ==> non_flush_model().contains_key(entry_key(n)),
        !goes_non_flush(n) ==> flush_model().contains_key(entry_key(n)),
{
    let m = (n + 1) as nat;
    if goes_non_flush(n) {
        assert(non_flush_upto(m) == non_flush_upto(n as nat).insert(entry_key(n), m as u32));
    } else {
        assert(flush_upto(m) == flush_upto(n as nat).insert(entry_key(n), m as u32));
    }
    lemma_upto_keys_monotonic(m, all_hands_model().len());
}

/// Building two independent evaluators yields identical rank assignments:
/// a built evaluator's tables are exactly the build model's tables, so
/// any two built evaluators answer every key alike.
pub proof fn lemma_build_deterministic(e1: &Evaluator, e2: &Evaluator, handkey: u32)
    requires
        e1.is_built(),
        e2.is_built(),
    ensures
        e1.spec_hand_rank(handkey) == e2.spec_hand_rank(handkey),
{
}


/// A straight holds no repeated rank.
proof fn lemma_straight_no_dup(i: int)
    requires
        0 <= i < 10,
    ensures
        !has_dup(straight_pattern(i)),
{
    lemma_ranks_desc_distinct();
    if i < 9 {
        assert forall|a: int, b: int|
            0 <= a < b < 5 implies straight_pattern(i)[a] != straight_pattern(i)[b] by {
            assert(straight_pattern(i)[a] == ranks_desc()[i + a]);
            assert(straight_pattern(i)[b] == ranks_desc()[i + b]);
        }
    } else {
        let w = straight_pattern(9);
        assert(w[0] == '5' && w[1] == '4' && w[2] == '3' && w[3] == '2' && w[4] == 'A');
        assert forall|a: int, b: int| 0 <= a < b < 5 implies w[a] != w[b] by {
        }
    }
}

/// Every straight, read as a straight flush, is filed in the flush
/// table: the first ten positions of the build hold no repeated rank
/// and lie inside the flush stretch, so their products are flush keys.
pub proof fn lemma_straight_flushes_filed(i: int)
    requires
        0 <= i < 10,
    ensures
        all_hands_model()[i] == straight_pattern(i),
        flush_model().contains_key(entry_key(i)),
{
    assert(straights_model().len() == 10);
    assert(all_hands_model()[i] == straights_model()[i]);
    assert(straights_model()[i] == straight_pattern(i));
    lemma_straight_no_dup(i);
    assert(!goes_non_flush(i));
    lemma_every_pattern_filed(i);
}


/// Any four of a kind is filed: for two different ranks, the product of
/// four of the first with the second as kicker is a key of the non-flush
/// table, whatever order the five characters came in.
pub proof fn lemma_quad_hand_filed(hand: Seq<char>, a: char, b: char)
    requires
        crate::codes::is_rank_char(a),
        crate::codes::is_rank_char(b),
        a != b,
        hand.to_multiset() == seq![a, a, a, a, b].to_multiset(),
    ensures
        non_flush_model().contains_key(prod(hand) as u32),
{
    let i = desc_index_of(a);
    let j = kicker_index_of(i, b);
    lemma_desc_index_of(a);
    lemma_kicker_index_of(a, b);
    assert(quad_pattern(i, j) =~= seq![a, a, a, a, b]);
    lemma_quads_upto_index(13, i, j);
    lemma_quads_upto_len(13);
    let n = 10 + 12 * i + j;
    assert((straights_model() + quads_model())[n] == quads_model()[n - 10]);
    assert(all_hands_model()[n] == quad_pattern(i, j));
    assert(all_hands_model()[n][0] == a && all_hands_model()[n][1] == a);
    assert(has_dup(all_hands_model()[n]));
    lemma_every_pattern_filed(n);
    lemma_prod_permutation(hand, quad_pattern(i, j));
}

/// Any full house is filed: for two different ranks, the product of
/// three of the first and two of the second is a key of the non-flush
/// table, whatever order the five characters came in.
pub proof fn lemma_full_house_filed(hand: Seq<char>, a: char, b: char)
    requires
        crate::codes::is_rank_char(a),
        crate::codes::is_rank_char(b),
        a != b,
        hand.to_multiset() == seq![a, a, a, b, b].to_multiset(),
    ensures
        non_flush_model().contains_key(prod(hand) as u32),
{
    let i = desc_index_of(a);
    let j = kicker_index_of(i, b);
    lemma_desc_index_of(a);
    lemma_kicker_index_of(a, b);
    assert(full_pattern(i, j) =~= seq![a, a, a, b, b]);
    lemma_fulls_upto_index(13, i, j);
    lemma_quads_upto_len(13);
    lemma_fulls_upto_len(13);
    let n = 166 + 12 * i + j;
    assert(((straights_model() + quads_model()) + fulls_model())[n] == fulls_model()[n - 166]);
    assert(all_hands_model()[n] == full_pattern(i, j));
    assert(all_hands_model()[n][0] == a && all_hands_model()[n][1] == a);
    assert(has_dup(all_hands_model()[n]));
    lemma_every_pattern_filed(n);
    lemma_prod_permutation(hand, full_pattern(i, j));
}


/// Any three of a kind is filed: for three different ranks, the product
/// of three of the first with the other two as kickers is a key of the
/// non-flush table, whatever order the five characters came in.
pub proof fn lemma_trips_hand_filed(hand: Seq<char>, a: char, b: char, c: char)
    requires
        crate::codes::is_rank_char(a),
        crate::codes::is_rank_char(b),
        crate::codes::is_rank_char(c),
        a != b,
        a != c,
        b != c,
        hand.to_multiset() == seq![a, a, a, b, c].to_multiset(),
    ensures
        non_flush_model().contains_key(prod(hand) as u32),
{
    let i = desc_index_of(a);
    let j = kicker_index_of(i, b);
    let k = kicker2_index_of(i, j, c);
    lemma_desc_index_of(a);
    lemma_kicker_index_of(a, b);
    lemma_kicker2_index_of(a, b, c);
    assert(trip_pattern(i, j, k) =~= seq![a, a, a, b, c]);
    lemma_trips_upto_index(13, i, j, k);
    lemma_trips_upto_len(13);
    let t = 132 * i + 11 * j + k;
    let prefix = (((straights_model() + quads_model()) + fulls_model()) + non_pairs_model())
        + straights_model();
    let n = prefix.len() as int + t;
    assert((prefix + trips_model())[n] == trips_model()[t]);
    assert(all_hands_model()[n] == trip_pattern(i, j, k));
    assert(all_hands_model()[n][0] == a && all_hands_model()[n][1] == a);
    assert(has_dup(all_hands_model()[n]));
    lemma_every_pattern_filed(n);
    lemma_prod_permutation(hand, trip_pattern(i, j, k));
}

/// Any two pair is filed: for three different ranks, the product of two
/// each of the first two with the third as kicker is a key of the
/// non-flush table, whatever order the five characters came in.
pub proof fn lemma_two_pair_hand_filed(hand: Seq<char>, a: char, b: char, c: char)
    requires
        crate::codes::is_rank_char(a),
        crate::codes::is_rank_char(b),
        crate::codes::is_rank_char(c),
        a != b,
        a != c,
        b != c,
        hand.to_multiset() == seq![a, a, b, b, c].to_multiset(),
    ensures
        non_flush_model().contains_key(prod(hand) as u32),
{
    let i = desc_index_of(a);
    let j = kicker_index_of(i, b);
    let k = kicker2_index_of(i, j, c);
    lemma_desc_index_of(a);
    lemma_kicker_index_of(a, b);
    lemma_kicker2_index_of(a, b, c);
    assert(two_pair_pattern(i, j, k) =~= seq![a, a, b, b, c]);
    lemma_two_pairs_upto_index(13, i, j, k);
    lemma_two_pairs_upto_len(13);
    lemma_trips_upto_len(13);
    let t = 132 * i + 11 * j + k;
    let prefix = ((((straights_model() + quads_model()) + fulls_model()) + non_pairs_model())
        + straights_model()) + trips_model();
    let n = prefix.len() as int + t;
    assert((prefix + two_pairs_model())[n] == two_pairs_model()[t]);
    assert(all_hands_model()[n] == two_pair_pattern(i, j, k));
    assert(all_hands_model()[n][0] == a && all_hands_model()[n][1] == a);
    assert(has_dup(all_hands_model()[n]));
    lemma_every_pattern_filed(n);
    lemma_prod_permutation(hand, two_pair_pattern(i, j, k));
}

/// Any one pair is filed: for four different ranks, the product of two
/// of the first with the other three as kickers is a key of the
/// non-flush table, whatever order the five characters came in.
pub proof fn lemma_pair_hand_filed(hand: Seq<char>, a: char, b: char, c: char, d: char)
    requires
        crate::codes::is_rank_char(a),
        crate::codes::is_rank_char(b),
        crate::codes::is_rank_char(c),
        crate::codes::is_rank_char(d),
        a != b,
        a != c,
        a != d,
        b != c,
        b != d,
        c != d,
        hand.to_multiset() == seq![a, a, b, c, d].to_multiset(),
    ensures
        non_flush_model().contains_key(prod(hand) as u32),
{
    let i = desc_index_of(a);
    let j = kicker_index_of(i, b);
    let k = kicker2_index_of(i, j, c);
    let l = kicker3_index_of(i, j, k, d);
    lemma_desc_index_of(a);
    lemma_kicker_index_of(a, b);
    lemma_kicker2_index_of(a, b, c);
    lemma_kicker3_index_of(a, b, c, d);
    assert(pair_pattern(i, j, k, l) =~= seq![a, a, b, c, d]);
    lemma_pairs_upto_index(13, i, j, k, l);
    lemma_pairs_upto_len(13);
    lemma_trips_upto_len(13);
    lemma_two_pairs_upto_len(13);
    let t = 1320 * i + 110 * j + 10 * k + l;
    let prefix = (((((straights_model() + quads_model()) + fulls_model()) + non_pairs_model())
        + straights_model()) + trips_model()) + two_pairs_model();
    let n = prefix.len() as int + t;
    assert((prefix + pairs_model())[n] == pairs_model()[t]);
    assert(all_hands_model()[n] == pair_pattern(i, j, k, l));
    assert(all_hands_model()[n][0] == a && all_hands_model()[n][1] == a);
    assert(has_dup(all_hands_model()[n]));
    lemma_every_pattern_filed(n);
    lemma_prod_permutation(hand, pair_pattern(i, j, k, l));
}


/// A built evaluator owes a rank: the query answers Ok for exactly the
/// keys whose rank product is filed in the table their suit bits select,
/// and a lookup miss for every other key.
pub proof fn lemma_query_hit(e: &Evaluator, handkey: u32)
    requires
        e.is_built(),
    ensures
        is_flush_key(handkey) ==> (e.spec_hand_rank(handkey) is Ok <==> flush_model()
            .contains_key(spec_rank_key(handkey))),
        !is_flush_key(handkey) ==> (e.spec_hand_rank(handkey) is Ok <==> non_flush_model()
            .contains_key(spec_rank_key(handkey))),
{
}


/// Any hand of five different ranks that does not read as a straight is
/// filed as a high card: its product is a key of the non-flush table,
/// whatever order the five characters came in.
pub proof fn lemma_high_card_hand_filed(hand: Seq<char>)
    requires
        hand.len() == 5,
        forall|t: int| 0 <= t < 5 ==> crate::codes::is_rank_char(#[trigger] hand[t]),
        forall|s: int, t: int| 0 <= s < t < 5 ==> hand[s] != hand[t],
        forall|i: int|
            0 <= i < 10 ==> hand.to_multiset() != straight_sets_model()[i].to_multiset(),
    ensures
        non_flush_model().contains_key(prod(hand) as u32),
{
    lemma_non_pairs_complete(hand);
    let t = choose|t: int|
        0 <= t < non_pairs_model().len() && (#[trigger] non_pairs_model()[t]).to_multiset()
            == hand.to_multiset();
    lemma_quads_upto_len(13);
    lemma_fulls_upto_len(13);
    lemma_trips_upto_len(13);
    lemma_two_pairs_upto_len(13);
    lemma_pairs_upto_len(13);
    let prefix = ((((((straights_model() + quads_model()) + fulls_model()) + non_pairs_model())
        + straights_model()) + trips_model()) + two_pairs_model()) + pairs_model();
    let n = prefix.len() as int + t;
    assert((prefix + non_pairs_model())[n] == non_pairs_model()[t]);
    assert(all_hands_model()[n] == non_pairs_model()[t]);
    assert(prefix.len() >= 20924);
    assert(goes_non_flush(n));
    lemma_every_pattern_filed(n);
    lemma_prod_permutation(hand, non_pairs_model()[t]);
}


/// End to end: a built evaluator owes a rank for every key made of a
/// five-rank product whose product is filed in the table that the
/// chosen suit bits select.
pub proof fn lemma_encoded_query_succeeds(e: &Evaluator, hand: Seq<char>, sb: u32)
    requires
        e.is_built(),
        hand.len() == 5,
        forall|t: int| 0 <= t < 5 ==> crate::codes::is_rank_char(#[trigger] hand[t]),
        sb & 0x07FF_FFFF == 0,
        is_flush_key((prod(hand) as u32) | sb) ==> flush_model().contains_key(
            prod(hand) as u32,
        ),
        !is_flush_key((prod(hand) as u32) | sb) ==> non_flush_model().contains_key(
            prod(hand) as u32,
        ),
    ensures
        e.spec_hand_rank((prod(hand) as u32) | sb) is Ok,
{
    lemma_prod5_fits(hand);
    let v = prod(hand) as u32;
    assert((v | sb) & 0x07FF_FFFF == v) by (bit_vector)
        requires
            v < 0x0800_0000u32,
            sb & 0x07FF_FFFFu32 == 0u32,
    ;
    assert(spec_rank_key(v | sb) == v);
}

} // verus!
