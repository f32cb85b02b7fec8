use vstd::prelude::*;
use vstd::multiset::Multiset;
use crate::codes::is_rank_char;

verus! {

/// The 13 rank characters from strongest to weakest.
pub open spec fn ranks_desc() -> Seq<char> {
    seq!['A', 'K', 'Q', 'J', 'T', '9', '8', '7', '6', '5', '4', '3', '2']
}

/// The 13 rank characters from weakest to strongest.
pub open spec fn ranks_asc() -> Seq<char> {
    seq!['2', '3', '4', '5', '6', '7', '8', '9', 'T', 'J', 'Q', 'K', 'A']
}

/// Every character of the sequence is a rank character.
pub open spec fn all_ranks(s: Seq<char>) -> bool {
    forall|t: int| 0 <= t < s.len() ==> is_rank_char(#[trigger] s[t])
}

/// A well-formed category pattern: five rank characters.
pub open spec fn wf_pattern(s: Seq<char>) -> bool {
    s.len() == 5 && all_ranks(s)
}

/// Every entry of the vector is a well-formed pattern.
pub open spec fn all_wf(v: Seq<[char; 5]>) -> bool {
    forall|n: int| 0 <= n < v.len() ==> wf_pattern(#[trigger] v[n]@)
}

/// The sequences of the five characters of each pattern, in order.
pub open spec fn pattern_views(v: Seq<[char; 5]>) -> Seq<Seq<char>> {
    Seq::new(v.len(), |k: int| v[k]@)
}

pub proof fn lemma_ranks_desc_valid()
    ensures
        ranks_desc().len() == 13,
        all_ranks(ranks_desc()),
{
    assert forall|t: int| 0 <= t < ranks_desc().len() implies is_rank_char(
        #[trigger] ranks_desc()[t],
    ) by {
        if t == 0 {
            assert(ranks_desc()[0] == 'A');
        } else if t == 1 {
            assert(ranks_desc()[1] == 'K');
        } else if t == 2 {
            assert(ranks_desc()[2] == 'Q');
        } else if t == 3 {
            assert(ranks_desc()[3] == 'J');
        } else if t == 4 {
            assert(ranks_desc()[4] == 'T');
        } else if t == 5 {
            assert(ranks_desc()[5] == '9');
        } else if t == 6 {
            assert(ranks_desc()[6] == '8');
        } else if t == 7 {
            assert(ranks_desc()[7] == '7');
        } else if t == 8 {
            assert(ranks_desc()[8] == '6');
        } else if t == 9 {
            assert(ranks_desc()[9] == '5');
        } else if t == 10 {
            assert(ranks_desc()[10] == '4');
        } else if t == 11 {
            assert(ranks_desc()[11] == '3');
        } else {
            assert(ranks_desc()[12] == '2');
        }
    }
}

pub proof fn lemma_ranks_asc_valid()
    ensures
        ranks_asc().len() == 13,
        all_ranks(ranks_asc()),
{
    assert forall|t: int| 0 <= t < ranks_asc().len() implies is_rank_char(
        #[trigger] ranks_asc()[t],
    ) by {
        assert(ranks_asc()[t] == ranks_desc()[12 - t]);
        lemma_ranks_desc_valid();
    }
}

/// The character at each position of the descending ranks.
pub open spec fn desc_char(t: int) -> char {
    if t == 0 {
        'A'
    } else if t == 1 {
        'K'
    } else if t == 2 {
        'Q'
    } else if t == 3 {
        'J'
    } else if t == 4 {
        'T'
    } else if t == 5 {
        '9'
    } else if t == 6 {
        '8'
    } else if t == 7 {
        '7'
    } else if t == 8 {
        '6'
    } else if t == 9 {
        '5'
    } else if t == 10 {
        '4'
    } else if t == 11 {
        '3'
    } else {
        '2'
    }
}

/// The 13 rank characters are pairwise distinct.
pub proof fn lemma_ranks_desc_distinct()
    ensures
        forall|a: int, b: int|
            0 <= a < b < 13 ==> #[trigger] ranks_desc()[a] != #[trigger] ranks_desc()[b],
{
    assert forall|t: int| 0 <= t < 13 implies #[trigger] ranks_desc()[t] == desc_char(t) by {
        if t == 0 {
            assert(ranks_desc()[0] == 'A');
        } else if t == 1 {
            assert(ranks_desc()[1] == 'K');
        } else if t == 2 {
            assert(ranks_desc()[2] == 'Q');
        } else if t == 3 {
            assert(ranks_desc()[3] == 'J');
        } else if t == 4 {
            assert(ranks_desc()[4] == 'T');
        } else if t == 5 {
            assert(ranks_desc()[5] == '9');
        } else if t == 6 {
            assert(ranks_desc()[6] == '8');
        } else if t == 7 {
            assert(ranks_desc()[7] == '7');
        } else if t == 8 {
            assert(ranks_desc()[8] == '6');
        } else if t == 9 {
            assert(ranks_desc()[9] == '5');
        } else if t == 10 {
            assert(ranks_desc()[10] == '4');
        } else if t == 11 {
            assert(ranks_desc()[11] == '3');
        } else {
            assert(ranks_desc()[12] == '2');
        }
    }
    assert forall|a: int, b: int| 0 <= a < b < 13 implies #[trigger] ranks_desc()[a]
        != #[trigger] ranks_desc()[b] by {
        assert(desc_char(a) != desc_char(b));
    }
}

/// Removing one position keeps every remaining character a rank character.
pub proof fn lemma_remove_all_ranks(s: Seq<char>, i: int)
    requires
        all_ranks(s),
        0 <= i < s.len(),
    ensures
        all_ranks(s.remove(i)),
{
    assert forall|t: int| 0 <= t < s.remove(i).len() implies is_rank_char(
        #[trigger] s.remove(i)[t],
    ) by {
        if t < i {
            assert(s.remove(i)[t] == s[t]);
        } else {
            assert(s.remove(i)[t] == s[t + 1]);
        }
    }
}

/// The descending rank characters as a vector.
fn ranks_desc_vec() -> (v: Vec<char>)
    ensures
        v@ == ranks_desc(),
{
    let mut v: Vec<char> = Vec::new();
    v.push('A');
    v.push('K');
    v.push('Q');
    v.push('J');
    v.push('T');
    v.push('9');
    v.push('8');
    v.push('7');
    v.push('6');
    v.push('5');
    v.push('4');
    v.push('3');
    v.push('2');
    proof {
        assert(v@ =~= ranks_desc());
    }
    v
}

/// The ascending rank characters as a vector.
fn ranks_asc_vec() -> (v: Vec<char>)
    ensures
        v@ == ranks_asc(),
{
    let mut v: Vec<char> = Vec::new();
    v.push('2');
    v.push('3');
    v.push('4');
    v.push('5');
    v.push('6');
    v.push('7');
    v.push('8');
    v.push('9');
    v.push('T');
    v.push('J');
    v.push('Q');
    v.push('K');
    v.push('A');
    proof {
        assert(v@ =~= ranks_asc());
    }
    v
}

/// A copy of the vector with the character at one position left out,
/// order kept: the filtering step of the category enumeration.
fn remove_at(v: &Vec<char>, idx: usize) -> (out: Vec<char>)
    requires
        idx < v@.len(),
    ensures
        out@ == v@.remove(idx as int),
{
    let mut out: Vec<char> = Vec::new();
    let mut k: usize = 0;
    while k < v.len()
        invariant
            k <= v@.len(),
            idx < v@.len(),
            out@ == if k <= idx {
                v@.subrange(0, k as int)
            } else {
                v@.subrange(0, idx as int) + v@.subrange(idx as int + 1, k as int)
            },
        decreases v@.len() - k,
    {
        if k != idx {
            out.push(v[k]);
        }
        proof {
            let ki = k as int;
            let ii = idx as int;
            if ki < ii {
                assert(v@.subrange(0, ki + 1) =~= v@.subrange(0, ki).push(v@[ki]));
            } else if ki == ii {
                assert(v@.subrange(0, ii) + v@.subrange(ii + 1, ii + 1) =~= v@.subrange(0, ii));
            } else {
                let merged = v@.subrange(0, ii) + v@.subrange(ii + 1, ki);
                assert(v@.subrange(0, ii) + v@.subrange(ii + 1, ki + 1) =~= merged.push(v@[ki]));
            }
        }
        k = k + 1;
    }
    proof {
        assert(out@ =~= v@.remove(idx as int));
    }
    out
}

/// The straight with the given strength position: the nine runs of five
/// consecutive ranks from ace-high down, then the wheel as the weakest.
pub open spec fn straight_pattern(i: int) -> Seq<char> {
    if i < 9 {
        ranks_desc().subrange(i, i + 5)
    } else {
        seq!['5', '4', '3', '2', 'A']
    }
}

/// The ten straights, strongest first.
pub open spec fn straights_model() -> Seq<Seq<char>> {
    Seq::new(10, |i: int| straight_pattern(i))
}

/// Generates the ten straights, strongest first, the wheel last.
fn straights_list() -> (v: Vec<[char; 5]>)
    ensures
        pattern_views(v@) == straights_model(),
        all_wf(v@),
{
    let rd = ranks_desc_vec();
    let mut v: Vec<[char; 5]> = Vec::new();
    let mut i: usize = 0;
    while i < 9
        invariant
            i <= 9,
            rd@ == ranks_desc(),
            pattern_views(v@) == straights_model().take(i as int),
            all_wf(v@),
        decreases 9 - i,
    {
        let p: [char; 5] = [rd[i], rd[i + 1], rd[i + 2], rd[i + 3], rd[i + 4]];
        v.push(p);
        proof {
            let ii = i as int;
            lemma_ranks_desc_valid();
            assert(p@ =~= straight_pattern(ii));
            assert(straights_model().take(ii + 1) =~= straights_model().take(ii).push(
                straight_pattern(ii),
            ));
            assert(pattern_views(v@) =~= straights_model().take(ii + 1));
        }
        i = i + 1;
    }
    let wheel: [char; 5] = ['5', '4', '3', '2', 'A'];
    v.push(wheel);
    proof {
        assert(wheel@ =~= straight_pattern(9));
        assert(straights_model() =~= straights_model().take(9).push(straight_pattern(9)));
        assert(pattern_views(v@) =~= straights_model());
        assert(wf_pattern(wheel@));
    }
    v
}

/// The wheel as a rank set in the subset enumeration's order: the ace
/// carries the highest index, so it comes first.
pub open spec fn wheel_set() -> Seq<char> {
    seq!['A', '5', '4', '3', '2']
}

/// The ten straights written as canonically ordered rank sets, the form
/// in which the subset enumeration produces them: the nine runs keep
/// their order, the wheel holds its ace first.
pub open spec fn straight_sets_model() -> Seq<Seq<char>> {
    Seq::new(10, |i: int| if i < 9 { straight_pattern(i) } else { wheel_set() })
}

/// Generates the ten straights as canonically ordered rank sets, for the
/// filter that removes them from the plain 5-rank subsets.
fn straight_sets_list() -> (v: Vec<[char; 5]>)
    ensures
        pattern_views(v@) == straight_sets_model(),
{
    let rd = ranks_desc_vec();
    let mut v: Vec<[char; 5]> = Vec::new();
    let mut i: usize = 0;
    while i < 9
        invariant
            i <= 9,
            rd@ == ranks_desc(),
            pattern_views(v@) == straight_sets_model().take(i as int),
        decreases 9 - i,
    {
        let p: [char; 5] = [rd[i], rd[i + 1], rd[i + 2], rd[i + 3], rd[i + 4]];
        v.push(p);
        proof {
            let ii = i as int;
            assert(p@ =~= straight_pattern(ii));
            assert(straight_sets_model().take(ii + 1) =~= straight_sets_model().take(ii).push(
                straight_pattern(ii),
            ));
            assert(pattern_views(v@) =~= straight_sets_model().take(ii + 1));
        }
        i = i + 1;
    }
    let wheel: [char; 5] = ['A', '5', '4', '3', '2'];
    v.push(wheel);
    proof {
        assert(wheel@ =~= wheel_set());
        assert(straight_sets_model() =~= straight_sets_model().take(9).push(wheel_set()));
        assert(pattern_views(v@) =~= straight_sets_model());
    }
    v
}

/// The kickers available beside the rank at position i: the other twelve
/// ranks, still in descending order.
pub open spec fn kickers(i: int) -> Seq<char> {
    ranks_desc().remove(i)
}

/// Four of a kind: the quad rank at position i with the kicker at
/// position j of the remaining ranks.
pub open spec fn quad_pattern(i: int, j: int) -> Seq<char> {
    seq![
        ranks_desc()[i],
        ranks_desc()[i],
        ranks_desc()[i],
        ranks_desc()[i],
        kickers(i)[j],
    ]
}

pub open spec fn quad_row(i: int) -> Seq<Seq<char>> {
    Seq::new(12, |j: int| quad_pattern(i, j))
}

pub open spec fn quads_upto(i: nat) -> Seq<Seq<char>>
    decreases i,
{
    if i == 0 {
        Seq::empty()
    } else {
        quads_upto((i - 1) as nat) + quad_row(i as int - 1)
    }
}

/// The 156 four-of-a-kind patterns: quad rank high to low, kicker high to
/// low within each quad rank.
pub open spec fn quads_model() -> Seq<Seq<char>> {
    quads_upto(13)
}

/// Full house: the trip rank at position i with the pair rank at position
/// j of the remaining ranks.
pub open spec fn full_pattern(i: int, j: int) -> Seq<char> {
    seq![
        ranks_desc()[i],
        ranks_desc()[i],
        ranks_desc()[i],
        kickers(i)[j],
        kickers(i)[j],
    ]
}

pub open spec fn full_row(i: int) -> Seq<Seq<char>> {
    Seq::new(12, |j: int| full_pattern(i, j))
}

pub open spec fn fulls_upto(i: nat) -> Seq<Seq<char>>
    decreases i,
{
    if i == 0 {
        Seq::empty()
    } else {
        fulls_upto((i - 1) as nat) + full_row(i as int - 1)
    }
}

/// The 156 full-house patterns: trip rank high to low, pair rank high to
/// low within each trip rank.
pub open spec fn fulls_model() -> Seq<Seq<char>> {
    fulls_upto(13)
}

/// Generates the four-of-a-kind patterns in their strength order.
fn quads_list() -> (v: Vec<[char; 5]>)
    ensures
        pattern_views(v@) == quads_model(),
        all_wf(v@),
{
    let rd = ranks_desc_vec();
    let mut v: Vec<[char; 5]> = Vec::new();
    let mut i: usize = 0;
    while i < 13
        invariant
            i <= 13,
            rd@ == ranks_desc(),
            pattern_views(v@) == quads_upto(i as nat),
            all_wf(v@),
        decreases 13 - i,
    {
        let ks = remove_at(&rd, i);
        let mut j: usize = 0;
        while j < 12
            invariant
                j <= 12,
                i < 13,
                rd@ == ranks_desc(),
                ks@ == kickers(i as int),
                pattern_views(v@) == quads_upto(i as nat) + quad_row(i as int).take(j as int),
                all_wf(v@),
            decreases 12 - j,
        {
            let p: [char; 5] = [rd[i], rd[i], rd[i], rd[i], ks[j]];
            let ghost pv = pattern_views(v@);
            v.push(p);
            proof {
                let ii = i as int;
                let jj = j as int;
                lemma_ranks_desc_valid();
                lemma_remove_all_ranks(ranks_desc(), ii);
                assert(p@ =~= quad_pattern(ii, jj));
                assert(pattern_views(v@) =~= pv.push(p@));
                assert(pv.push(p@) =~= quads_upto(i as nat) + quad_row(ii).take(jj + 1));
            }
            j = j + 1;
        }
        proof {
            assert(quad_row(i as int).take(12) =~= quad_row(i as int));
            assert(quads_upto(i as nat + 1) == quads_upto(i as nat) + quad_row(i as int));
        }
        i = i + 1;
    }
    v
}

/// Generates the full-house patterns in their strength order.
fn fulls_list() -> (v: Vec<[char; 5]>)
    ensures
        pattern_views(v@) == fulls_model(),
        all_wf(v@),
{
    let rd = ranks_desc_vec();
    let mut v: Vec<[char; 5]> = Vec::new();
    let mut i: usize = 0;
    while i < 13
        invariant
            i <= 13,
            rd@ == ranks_desc(),
            pattern_views(v@) == fulls_upto(i as nat),
            all_wf(v@),
        decreases 13 - i,
    {
        let ks = remove_at(&rd, i);
        let mut j: usize = 0;
        while j < 12
            invariant
                j <= 12,
                i < 13,
                rd@ == ranks_desc(),
                ks@ == kickers(i as int),
                pattern_views(v@) == fulls_upto(i as nat) + full_row(i as int).take(j as int),
                all_wf(v@),
            decreases 12 - j,
        {
            let p: [char; 5] = [rd[i], rd[i], rd[i], ks[j], ks[j]];
            let ghost pv = pattern_views(v@);
            v.push(p);
            proof {
                let ii = i as int;
                let jj = j as int;
                lemma_ranks_desc_valid();
                lemma_remove_all_ranks(ranks_desc(), ii);
                assert(p@ =~= full_pattern(ii, jj));
                assert(pattern_views(v@) =~= pv.push(p@));
                assert(pv.push(p@) =~= fulls_upto(i as nat) + full_row(ii).take(jj + 1));
            }
            j = j + 1;
        }
        proof {
            assert(full_row(i as int).take(12) =~= full_row(i as int));
            assert(fulls_upto(i as nat + 1) == fulls_upto(i as nat) + full_row(i as int));
        }
        i = i + 1;
    }
    v
}

/// The kickers available once the ranks at positions i and then j are
/// spoken for.
pub open spec fn kickers2(i: int, j: int) -> Seq<char> {
    kickers(i).remove(j)
}

/// The kickers available once three positions are spoken for.
pub open spec fn kickers3(i: int, j: int, k: int) -> Seq<char> {
    kickers2(i, j).remove(k)
}

/// Three of a kind with two distinct kickers, by selection position.
pub open spec fn trip_pattern(i: int, j: int, k: int) -> Seq<char> {
    seq![
        ranks_desc()[i],
        ranks_desc()[i],
        ranks_desc()[i],
        kickers(i)[j],
        kickers2(i, j)[k],
    ]
}

pub open spec fn trip_row(i: int, j: int) -> Seq<Seq<char>> {
    Seq::new(11, |k: int| trip_pattern(i, j, k))
}

pub open spec fn trip_rows_upto(i: int, j: nat) -> Seq<Seq<char>>
    decreases j,
{
    if j == 0 {
        Seq::empty()
    } else {
        trip_rows_upto(i, (j - 1) as nat) + trip_row(i, j as int - 1)
    }
}

pub open spec fn trips_upto(i: nat) -> Seq<Seq<char>>
    decreases i,
{
    if i == 0 {
        Seq::empty()
    } else {
        trips_upto((i - 1) as nat) + trip_rows_upto(i as int - 1, 12)
    }
}

/// The 1716 three-of-a-kind patterns, in the enumeration order of the
/// build: trip rank high to low, then each ordered pair of kickers.
pub open spec fn trips_model() -> Seq<Seq<char>> {
    trips_upto(13)
}

/// Two pair with one kicker, by selection position.
pub open spec fn two_pair_pattern(i: int, j: int, k: int) -> Seq<char> {
    seq![
        ranks_desc()[i],
        ranks_desc()[i],
        kickers(i)[j],
        kickers(i)[j],
        kickers2(i, j)[k],
    ]
}

pub open spec fn two_pair_row(i: int, j: int) -> Seq<Seq<char>> {
    Seq::new(11, |k: int| two_pair_pattern(i, j, k))
}

pub open spec fn two_pair_rows_upto(i: int, j: nat) -> Seq<Seq<char>>
    decreases j,
{
    if j == 0 {
        Seq::empty()
    } else {
        two_pair_rows_upto(i, (j - 1) as nat) + two_pair_row(i, j as int - 1)
    }
}

pub open spec fn two_pairs_upto(i: nat) -> Seq<Seq<char>>
    decreases i,
{
    if i == 0 {
        Seq::empty()
    } else {
        two_pairs_upto((i - 1) as nat) + two_pair_rows_upto(i as int - 1, 12)
    }
}

/// The 1716 two-pair patterns, in the enumeration order of the build.
pub open spec fn two_pairs_model() -> Seq<Seq<char>> {
    two_pairs_upto(13)
}

/// One pair with three distinct kickers, by selection position.
pub open spec fn pair_pattern(i: int, j: int, k: int, l: int) -> Seq<char> {
    seq![
        ranks_desc()[i],
        ranks_desc()[i],
        kickers(i)[j],
        kickers2(i, j)[k],
        kickers3(i, j, k)[l],
    ]
}

pub open spec fn pair_row(i: int, j: int, k: int) -> Seq<Seq<char>> {
    Seq::new(10, |l: int| pair_pattern(i, j, k, l))
}

pub open spec fn pair_rows_upto(i: int, j: int, k: nat) -> Seq<Seq<char>>
    decreases k,
{
    if k == 0 {
        Seq::empty()
    } else {
        pair_rows_upto(i, j, (k - 1) as nat) + pair_row(i, j, k as int - 1)
    }
}

pub open spec fn pair_blocks_upto(i: int, j: nat) -> Seq<Seq<char>>
    decreases j,
{
    if j == 0 {
        Seq::empty()
    } else {
        pair_blocks_upto(i, (j - 1) as nat) + pair_rows_upto(i, j as int - 1, 11)
    }
}

pub open spec fn pairs_upto(i: nat) -> Seq<Seq<char>>
    decreases i,
{
    if i == 0 {
        Seq::empty()
    } else {
        pairs_upto((i - 1) as nat) + pair_blocks_upto(i as int - 1, 12)
    }
}

/// The 17160 one-pair patterns, in the enumeration order of the build.
pub open spec fn pairs_model() -> Seq<Seq<char>> {
    pairs_upto(13)
}

/// Generates the three-of-a-kind patterns in their enumeration order.
fn trips_list() -> (v: Vec<[char; 5]>)
    ensures
        pattern_views(v@) == trips_model(),
        all_wf(v@),
{
    let rd = ranks_desc_vec();
    let mut v: Vec<[char; 5]> = Vec::new();
    let mut i: usize = 0;
    while i < 13
        invariant
            i <= 13,
            rd@ == ranks_desc(),
            pattern_views(v@) == trips_upto(i as nat),
            all_wf(v@),
        decreases 13 - i,
    {
        let ks1 = remove_at(&rd, i);
        proof {
            assert(trips_upto(i as nat) + trip_rows_upto(i as int, 0) =~= trips_upto(i as nat));
        }
        let mut j: usize = 0;
        while j < 12
            invariant
                j <= 12,
                i < 13,
                rd@ == ranks_desc(),
                ks1@ == kickers(i as int),
                pattern_views(v@) == trips_upto(i as nat) + trip_rows_upto(i as int, j as nat),
                all_wf(v@),
            decreases 12 - j,
        {
            let ks2 = remove_at(&ks1, j);
            proof {
                let base = trips_upto(i as nat) + trip_rows_upto(i as int, j as nat);
                assert(base + trip_row(i as int, j as int).take(0) =~= base);
            }
            let mut k: usize = 0;
            while k < 11
                invariant
                    k <= 11,
                    j < 12,
                    i < 13,
                    rd@ == ranks_desc(),
                    ks1@ == kickers(i as int),
                    ks2@ == kickers2(i as int, j as int),
                    pattern_views(v@) == (trips_upto(i as nat) + trip_rows_upto(
                        i as int,
                        j as nat,
                    )) + trip_row(i as int, j as int).take(k as int),
                    all_wf(v@),
                decreases 11 - k,
            {
                let p: [char; 5] = [rd[i], rd[i], rd[i], ks1[j], ks2[k]];
                let ghost pv = pattern_views(v@);
                v.push(p);
                proof {
                    let ii = i as int;
                    let jj = j as int;
                    let kk = k as int;
                    lemma_ranks_desc_valid();
                    lemma_remove_all_ranks(ranks_desc(), ii);
                    lemma_remove_all_ranks(kickers(ii), jj);
                    assert(p@ =~= trip_pattern(ii, jj, kk));
                    assert(pattern_views(v@) =~= pv.push(p@));
                    assert(pv.push(p@) =~= (trips_upto(i as nat) + trip_rows_upto(ii, j as nat))
                        + trip_row(ii, jj).take(kk + 1));
                }
                k = k + 1;
            }
            proof {
                let ii = i as int;
                let jj = j as int;
                assert(trip_row(ii, jj).take(11) =~= trip_row(ii, jj));
                assert(trip_rows_upto(ii, j as nat + 1) == trip_rows_upto(ii, j as nat)
                    + trip_row(ii, jj));
                assert((trips_upto(i as nat) + trip_rows_upto(ii, j as nat)) + trip_row(ii, jj)
                    =~= trips_upto(i as nat) + trip_rows_upto(ii, j as nat + 1));
            }
            j = j + 1;
        }
        proof {
            assert(trips_upto(i as nat + 1) == trips_upto(i as nat) + trip_rows_upto(
                i as int,
                12,
            ));
        }
        i = i + 1;
    }
    v
}

/// Generates the two-pair patterns in their enumeration order.
fn two_pairs_list() -> (v: Vec<[char; 5]>)
    ensures
        pattern_views(v@) == two_pairs_model(),
        all_wf(v@),
{
    let rd = ranks_desc_vec();
    let mut v: Vec<[char; 5]> = Vec::new();
    let mut i: usize = 0;
    while i < 13
        invariant
            i <= 13,
            rd@ == ranks_desc(),
            pattern_views(v@) == two_pairs_upto(i as nat),
            all_wf(v@),
        decreases 13 - i,
    {
        let ks1 = remove_at(&rd, i);
        proof {
            assert(two_pairs_upto(i as nat) + two_pair_rows_upto(i as int, 0) =~= two_pairs_upto(
                i as nat,
            ));
        }
        let mut j: usize = 0;
        while j < 12
            invariant
                j <= 12,
                i < 13,
                rd@ == ranks_desc(),
                ks1@ == kickers(i as int),
                pattern_views(v@) == two_pairs_upto(i as nat) + two_pair_rows_upto(
                    i as int,
                    j as nat,
                ),
                all_wf(v@),
            decreases 12 - j,
        {
            let ks2 = remove_at(&ks1, j);
            proof {
                let base = two_pairs_upto(i as nat) + two_pair_rows_upto(i as int, j as nat);
                assert(base + two_pair_row(i as int, j as int).take(0) =~= base);
            }
            let mut k: usize = 0;
            while k < 11
                invariant
                    k <= 11,
                    j < 12,
                    i < 13,
                    rd@ == ranks_desc(),
                    ks1@ == kickers(i as int),
                    ks2@ == kickers2(i as int, j as int),
                    pattern_views(v@) == (two_pairs_upto(i as nat) + two_pair_rows_upto(
                        i as int,
                        j as nat,
                    )) + two_pair_row(i as int, j as int).take(k as int),
                    all_wf(v@),
                decreases 11 - k,
            {
                let p: [char; 5] = [rd[i], rd[i], ks1[j], ks1[j], ks2[k]];
                let ghost pv = pattern_views(v@);
                v.push(p);
                proof {
                    let ii = i as int;
                    let jj = j as int;
                    let kk = k as int;
                    lemma_ranks_desc_valid();
                    lemma_remove_all_ranks(ranks_desc(), ii);
                    lemma_remove_all_ranks(kickers(ii), jj);
                    assert(p@ =~= two_pair_pattern(ii, jj, kk));
                    assert(pattern_views(v@) =~= pv.push(p@));
                    assert(pv.push(p@) =~= (two_pairs_upto(i as nat) + two_pair_rows_upto(
                        ii,
                        j as nat,
                    )) + two_pair_row(ii, jj).take(kk + 1));
                }
                k = k + 1;
            }
            proof {
                let ii = i as int;
                let jj = j as int;
                assert(two_pair_row(ii, jj).take(11) =~= two_pair_row(ii, jj));
                assert(two_pair_rows_upto(ii, j as nat + 1) == two_pair_rows_upto(ii, j as nat)
                    + two_pair_row(ii, jj));
                assert((two_pairs_upto(i as nat) + two_pair_rows_upto(ii, j as nat))
                    + two_pair_row(ii, jj) =~= two_pairs_upto(i as nat) + two_pair_rows_upto(
                    ii,
                    j as nat + 1,
                ));
            }
            j = j + 1;
        }
        proof {
            assert(two_pairs_upto(i as nat + 1) == two_pairs_upto(i as nat) + two_pair_rows_upto(
                i as int,
                12,
            ));
        }
        i = i + 1;
    }
    v
}

/// Generates the one-pair patterns in their enumeration order.
fn pairs_list() -> (v: Vec<[char; 5]>)
    ensures
        pattern_views(v@) == pairs_model(),
        all_wf(v@),
{
    let rd = ranks_desc_vec();
    let mut v: Vec<[char; 5]> = Vec::new();
    let mut i: usize = 0;
    while i < 13
        invariant
            i <= 13,
            rd@ == ranks_desc(),
            pattern_views(v@) == pairs_upto(i as nat),
            all_wf(v@),
        decreases 13 - i,
    {
        let ks1 = remove_at(&rd, i);
        proof {
            assert(pairs_upto(i as nat) + pair_blocks_upto(i as int, 0) =~= pairs_upto(i as nat));
        }
        let mut j: usize = 0;
        while j < 12
            invariant
                j <= 12,
                i < 13,
                rd@ == ranks_desc(),
                ks1@ == kickers(i as int),
                pattern_views(v@) == pairs_upto(i as nat) + pair_blocks_upto(i as int, j as nat),
                all_wf(v@),
            decreases 12 - j,
        {
            let ks2 = remove_at(&ks1, j);
            proof {
                let base = pairs_upto(i as nat) + pair_blocks_upto(i as int, j as nat);
                assert(base + pair_rows_upto(i as int, j as int, 0) =~= base);
            }
            let mut k: usize = 0;
            while k < 11
                invariant
                    k <= 11,
                    j < 12,
                    i < 13,
                    rd@ == ranks_desc(),
                    ks1@ == kickers(i as int),
                    ks2@ == kickers2(i as int, j as int),
                    pattern_views(v@) == (pairs_upto(i as nat) + pair_blocks_upto(
                        i as int,
                        j as nat,
                    )) + pair_rows_upto(i as int, j as int, k as nat),
                    all_wf(v@),
                decreases 11 - k,
            {
                let ks3 = remove_at(&ks2, k);
                proof {
                    let base = (pairs_upto(i as nat) + pair_blocks_upto(i as int, j as nat))
                        + pair_rows_upto(i as int, j as int, k as nat);
                    assert(base + pair_row(i as int, j as int, k as int).take(0) =~= base);
                }
                let mut l: usize = 0;
                while l < 10
                    invariant
                        l <= 10,
                        k < 11,
                        j < 12,
                        i < 13,
                        rd@ == ranks_desc(),
                        ks1@ == kickers(i as int),
                        ks2@ == kickers2(i as int, j as int),
                        ks3@ == kickers3(i as int, j as int, k as int),
                        pattern_views(v@) == ((pairs_upto(i as nat) + pair_blocks_upto(
                            i as int,
                            j as nat,
                        )) + pair_rows_upto(i as int, j as int, k as nat)) + pair_row(
                            i as int,
                            j as int,
                            k as int,
                        ).take(l as int),
                        all_wf(v@),
                    decreases 10 - l,
                {
                    let p: [char; 5] = [rd[i], rd[i], ks1[j], ks2[k], ks3[l]];
                    let ghost pv = pattern_views(v@);
                    v.push(p);
                    proof {
                        let ii = i as int;
                        let jj = j as int;
                        let kk = k as int;
                        let ll = l as int;
                        lemma_ranks_desc_valid();
                        lemma_remove_all_ranks(ranks_desc(), ii);
                        lemma_remove_all_ranks(kickers(ii), jj);
                        lemma_remove_all_ranks(kickers2(ii, jj), kk);
                        assert(p@ =~= pair_pattern(ii, jj, kk, ll));
                        assert(pattern_views(v@) =~= pv.push(p@));
                        assert(pv.push(p@) =~= ((pairs_upto(i as nat) + pair_blocks_upto(
                            ii,
                            j as nat,
                        )) + pair_rows_upto(ii, jj, k as nat)) + pair_row(ii, jj, kk).take(
                            ll + 1,
                        ));
                    }
                    l = l + 1;
                }
                proof {
                    let ii = i as int;
                    let jj = j as int;
                    let kk = k as int;
                    assert(pair_row(ii, jj, kk).take(10) =~= pair_row(ii, jj, kk));
                    assert(pair_rows_upto(ii, jj, k as nat + 1) == pair_rows_upto(ii, jj, k as nat)
                        + pair_row(ii, jj, kk));
                    assert(((pairs_upto(i as nat) + pair_blocks_upto(ii, j as nat))
                        + pair_rows_upto(ii, jj, k as nat)) + pair_row(ii, jj, kk) =~= (pairs_upto(
                        i as nat,
                    ) + pair_blocks_upto(ii, j as nat)) + pair_rows_upto(ii, jj, k as nat + 1));
                }
                k = k + 1;
            }
            proof {
                let ii = i as int;
                let jj = j as int;
                assert(pair_blocks_upto(ii, j as nat + 1) == pair_blocks_upto(ii, j as nat)
                    + pair_rows_upto(ii, jj, 11));
                assert((pairs_upto(i as nat) + pair_blocks_upto(ii, j as nat)) + pair_rows_upto(
                    ii,
                    jj,
                    11,
                ) =~= pairs_upto(i as nat) + pair_blocks_upto(ii, j as nat + 1));
            }
            j = j + 1;
        }
        proof {
            assert(pairs_upto(i as nat + 1) == pairs_upto(i as nat) + pair_blocks_upto(
                i as int,
                12,
            ));
        }
        i = i + 1;
    }
    v
}

/// The characters whose index bit is set in the mask, highest index
/// first, over the low i indices.
pub open spec fn sel(ranks: Seq<char>, mask: u32, i: nat) -> Seq<char>
    decreases i,
{
    if i == 0 {
        Seq::empty()
    } else {
        let rest = sel(ranks, mask, (i - 1) as nat);
        if mask & (1u32 << ((i - 1) as u32)) != 0 {
            seq![ranks[i - 1]] + rest
        } else {
            rest
        }
    }
}

/// The selections of the masks from size up to (excluding) m that pick
/// exactly size characters, ordered by ascending mask.
pub open spec fn sets_upto(ranks: Seq<char>, size: nat, m: nat) -> Seq<Seq<char>>
    decreases m,
{
    if m <= size {
        Seq::empty()
    } else {
        let prev = sets_upto(ranks, size, (m - 1) as nat);
        let s = sel(ranks, (m - 1) as u32, ranks.len());
        if s.len() == size {
            prev.push(s)
        } else {
            prev
        }
    }
}

/// Every size-element subset of the ranks, each subset holding the later
/// indices first, the subsets ordered by ascending bitmask.
pub open spec fn make_sets_model(ranks: Seq<char>, size: nat) -> Seq<Seq<char>> {
    sets_upto(ranks, size, (1u32 << (ranks.len() as u32)) as nat)
}

/// Enumerates every 5-element subset of the given ranks by walking all
/// bitmasks in ascending order; within a subset the characters keep the
/// reverse of their order in the input.
pub fn make_sets(ranks: Vec<char>, size: usize) -> (results: Vec<[char; 5]>)
    requires
        size == 5,
        ranks@.len() < 32,
    ensures
        pattern_views(results@) == make_sets_model(ranks@, size as nat),
        all_ranks(ranks@) ==> all_wf(results@),
{
    let mut results: Vec<[char; 5]> = Vec::new();
    let mut mask: u32 = size as u32;
    let total: u32 = 1u32 << (ranks.len() as u32);
    while mask < total
        invariant
            size == 5,
            ranks@.len() < 32,
            size as u32 <= mask,
            (size as u32) < total ==> mask <= total,
            total <= size as u32 ==> mask == size as u32,
            total == 1u32 << (ranks@.len() as u32),
            pattern_views(results@) == sets_upto(ranks@, size as nat, mask as nat),
            all_ranks(ranks@) ==> all_wf(results@),
        decreases total - mask,
    {
        let mut result: Vec<char> = Vec::new();
        let mut i: usize = ranks.len();
        while i > 0
            invariant
                i <= ranks@.len(),
                ranks@.len() < 32,
                result@ + sel(ranks@, mask, i as nat) == sel(ranks@, mask, ranks@.len()),
                all_ranks(ranks@) ==> all_ranks(result@),
            decreases i,
        {
            i = i - 1;
            if mask & (1u32 << (i as u32)) != 0 {
                let ghost r_old = result@;
                result.push(ranks[i]);
                proof {
                    assert(sel(ranks@, mask, i as nat + 1) == seq![ranks@[i as int]] + sel(
                        ranks@,
                        mask,
                        i as nat,
                    ));
                    assert(result@ + sel(ranks@, mask, i as nat) =~= r_old + sel(
                        ranks@,
                        mask,
                        i as nat + 1,
                    ));
                    assert(all_ranks(ranks@) ==> all_ranks(result@));
                }
            }
        }
        proof {
            assert(result@ + sel(ranks@, mask, 0) =~= result@);
            assert(result@ == sel(ranks@, mask, ranks@.len()));
        }
        if result.len() == size {
            let p: [char; 5] = [result[0], result[1], result[2], result[3], result[4]];
            let ghost pv = pattern_views(results@);
            results.push(p);
            proof {
                assert(p@ =~= result@);
                assert(pattern_views(results@) =~= pv.push(p@));
                assert(((mask as nat + 1) - 1) as u32 == mask);
                assert(sets_upto(ranks@, size as nat, mask as nat + 1) == sets_upto(
                    ranks@,
                    size as nat,
                    mask as nat,
                ).push(sel(ranks@, mask, ranks@.len())));
            }
        } else {
            proof {
                assert(((mask as nat + 1) - 1) as u32 == mask);
                assert(sets_upto(ranks@, size as nat, mask as nat + 1) == sets_upto(
                    ranks@,
                    size as nat,
                    mask as nat,
                ));
            }
        }
        mask = mask + 1;
    }
    proof {
        if (1u32 << (ranks@.len() as u32)) as nat <= size as nat {
            assert(sets_upto(ranks@, size as nat, (1u32 << (ranks@.len() as u32)) as nat)
                == Seq::<Seq<char>>::empty());
            assert(sets_upto(ranks@, size as nat, mask as nat) == Seq::<Seq<char>>::empty());
        }
    }
    results
}

/// The non-pair rank sets with the straights taken out, in the order the
/// subset enumeration produced them.
pub open spec fn non_pairs_filtered(s: Seq<Seq<char>>) -> Seq<Seq<char>> {
    s.filter(|p: Seq<char>| !straight_sets_model().contains(p))
}

/// The 1277 five-rank sets with no repeated rank and no straight among
/// them, reversed into descending high-card order.
pub open spec fn non_pairs_model() -> Seq<Seq<char>> {
    non_pairs_filtered(make_sets_model(ranks_asc(), 5)).reverse()
}

/// Whether two patterns hold the same five characters in the same order.
fn eq5(a: &[char; 5], b: &[char; 5]) -> (r: bool)
    ensures
        r == (a@ == b@),
{
    let r = a[0] == b[0] && a[1] == b[1] && a[2] == b[2] && a[3] == b[3] && a[4] == b[4];
    proof {
        if r {
            assert(a@ =~= b@);
        }
    }
    r
}

/// Whether the pattern is one of the ten straights read as a rank set.
fn is_straight_set(p: &[char; 5], straights: &Vec<[char; 5]>) -> (r: bool)
    requires
        pattern_views(straights@) == straight_sets_model(),
    ensures
        r == straight_sets_model().contains(p@),
{
    let mut t: usize = 0;
    while t < straights.len()
        invariant
            t <= straights@.len(),
            pattern_views(straights@) == straight_sets_model(),
            forall|u: int| 0 <= u < t ==> straight_sets_model()[u] != p@,
        decreases straights@.len() - t,
    {
        if eq5(&straights[t], p) {
            proof {
                assert(straight_sets_model()[t as int] == p@);
            }
            return true;
        }
        t = t + 1;
    }
    proof {
        assert(!straight_sets_model().contains(p@));
    }
    false
}

/// Reverses the order of the patterns.
fn reversed(v: &Vec<[char; 5]>) -> (out: Vec<[char; 5]>)
    ensures
        pattern_views(out@) == pattern_views(v@).reverse(),
        all_wf(v@) ==> all_wf(out@),
{
    let mut out: Vec<[char; 5]> = Vec::new();
    let mut k: usize = 0;
    while k < v.len()
        invariant
            k <= v@.len(),
            out@.len() == k,
            forall|u: int| 0 <= u < k ==> out@[u] == v@[v@.len() - 1 - u],
        decreases v@.len() - k,
    {
        out.push(v[v.len() - 1 - k]);
        k = k + 1;
    }
    proof {
        assert(pattern_views(out@) =~= pattern_views(v@).reverse());
        if all_wf(v@) {
            assert forall|n: int| 0 <= n < out@.len() implies wf_pattern(#[trigger] out@[n]@) by {
                assert(out@[n] == v@[v@.len() - 1 - n]);
            }
        }
    }
    out
}

/// Generates the 1277 non-pair rank sets, strongest first: every 5-rank
/// subset except the straights, in descending high-card order.
fn non_pairs_list() -> (v: Vec<[char; 5]>)
    ensures
        pattern_views(v@) == non_pairs_model(),
        all_wf(v@),
{
    let straights = straight_sets_list();
    let ra = ranks_asc_vec();
    proof {
        lemma_ranks_asc_valid();
    }
    let sets = make_sets(ra, 5);
    let mut kept: Vec<[char; 5]> = Vec::new();
    let mut k: usize = 0;
    proof {
        reveal(Seq::filter);
        assert(pattern_views(sets@).take(0) =~= Seq::<Seq<char>>::empty());
        assert(non_pairs_filtered(Seq::<Seq<char>>::empty()) == Seq::<Seq<char>>::empty());
    }
    while k < sets.len()
        invariant
            k <= sets@.len(),
            pattern_views(straights@) == straight_sets_model(),
            pattern_views(sets@) == make_sets_model(ranks_asc(), 5),
            all_wf(sets@),
            pattern_views(kept@) == non_pairs_filtered(pattern_views(sets@).take(k as int)),
            all_wf(kept@),
        decreases sets@.len() - k,
    {
        let ghost pview = pattern_views(sets@);
        let ghost kk = k as int;
        proof {
            assert(pview.take(kk + 1).drop_last() =~= pview.take(kk));
            assert(pview.take(kk + 1).last() == sets@[kk]@);
        }
        if !is_straight_set(&sets[k], &straights) {
            let ghost pvk = pattern_views(kept@);
            kept.push(sets[k]);
            proof {
                reveal(Seq::filter);
                assert(pattern_views(kept@) =~= pvk.push(sets@[kk]@));
                assert(non_pairs_filtered(pview.take(kk + 1)) == non_pairs_filtered(
                    pview.take(kk),
                ).push(sets@[kk]@));
            }
        } else {
            proof {
                reveal(Seq::filter);
                assert(non_pairs_filtered(pview.take(kk + 1)) == non_pairs_filtered(
                    pview.take(kk),
                ));
            }
        }
        k = k + 1;
    }
    proof {
        assert(pattern_views(sets@).take(sets@.len() as int) =~= pattern_views(sets@));
    }
    let out = reversed(&kept);
    out
}

/// The full pattern sequence of the build, the nine category stretches in
/// their fixed strength order.
pub open spec fn all_hands_model() -> Seq<Seq<char>> {
    ((((((((straights_model() + quads_model()) + fulls_model()) + non_pairs_model())
        + straights_model()) + trips_model()) + two_pairs_model()) + pairs_model())
        + non_pairs_model())
}

pub proof fn lemma_pattern_views_add(a: Seq<[char; 5]>, b: Seq<[char; 5]>)
    ensures
        pattern_views(a + b) == pattern_views(a) + pattern_views(b),
{
    assert(pattern_views(a + b) =~= pattern_views(a) + pattern_views(b));
}

pub proof fn lemma_all_wf_add(a: Seq<[char; 5]>, b: Seq<[char; 5]>)
    requires
        all_wf(a),
        all_wf(b),
    ensures
        all_wf(a + b),
{
    assert forall|n: int| 0 <= n < (a + b).len() implies wf_pattern(#[trigger] (a + b)[n]@) by {
        if n < a.len() {
            assert((a + b)[n] == a[n]);
        } else {
            assert((a + b)[n] == b[n - a.len()]);
        }
    }
}

/// Appends a copy of every pattern of src to dst, in order.
fn append_all(dst: &mut Vec<[char; 5]>, src: &Vec<[char; 5]>)
    ensures
        final(dst)@ == old(dst)@ + src@,
{
    let mut k: usize = 0;
    proof {
        assert(old(dst)@ + src@.take(0) =~= old(dst)@);
    }
    while k < src.len()
        invariant
            k <= src@.len(),
            dst@ == old(dst)@ + src@.take(k as int),
        decreases src@.len() - k,
    {
        let ghost d_old = dst@;
        dst.push(src[k]);
        proof {
            assert(dst@ =~= old(dst)@ + src@.take(k as int + 1));
        }
        k = k + 1;
    }
    proof {
        assert(src@.take(src@.len() as int) =~= src@);
    }
}

/// Generates the whole build sequence: straights, quads, full houses,
/// non-pair sets, straights again, trips, two pair, one pair, non-pair
/// sets again.
pub(crate) fn all_hands() -> (v: Vec<[char; 5]>)
    ensures
        pattern_views(v@) == all_hands_model(),
        all_wf(v@),
{
    let straights = straights_list();
    let quads = quads_list();
    let fulls = fulls_list();
    let non_pairs = non_pairs_list();
    let trips = trips_list();
    let two_pairs = two_pairs_list();
    let pairs = pairs_list();
    let mut v: Vec<[char; 5]> = Vec::new();
    append_all(&mut v, &straights);
    proof {
        assert(v@ =~= straights@);
    }
    append_all(&mut v, &quads);
    proof {
        lemma_pattern_views_add(straights@, quads@);
        lemma_all_wf_add(straights@, quads@);
    }
    let ghost v1 = v@;
    append_all(&mut v, &fulls);
    proof {
        lemma_pattern_views_add(v1, fulls@);
        lemma_all_wf_add(v1, fulls@);
    }
    let ghost v2 = v@;
    append_all(&mut v, &non_pairs);
    proof {
        lemma_pattern_views_add(v2, non_pairs@);
        lemma_all_wf_add(v2, non_pairs@);
    }
    let ghost v3 = v@;
    append_all(&mut v, &straights);
    proof {
        lemma_pattern_views_add(v3, straights@);
        lemma_all_wf_add(v3, straights@);
    }
    let ghost v4 = v@;
    append_all(&mut v, &trips);
    proof {
        lemma_pattern_views_add(v4, trips@);
        lemma_all_wf_add(v4, trips@);
    }
    let ghost v5 = v@;
    append_all(&mut v, &two_pairs);
    proof {
        lemma_pattern_views_add(v5, two_pairs@);
        lemma_all_wf_add(v5, two_pairs@);
    }
    let ghost v6 = v@;
    append_all(&mut v, &pairs);
    proof {
        lemma_pattern_views_add(v6, pairs@);
        lemma_all_wf_add(v6, pairs@);
    }
    let ghost v7 = v@;
    append_all(&mut v, &non_pairs);
    proof {
        lemma_pattern_views_add(v7, non_pairs@);
        lemma_all_wf_add(v7, non_pairs@);
    }
    v
}

pub proof fn lemma_quads_upto_len(i: nat)
    ensures
        quads_upto(i).len() == 12 * i,
    decreases i,
{
    if i > 0 {
        lemma_quads_upto_len((i - 1) as nat);
    }
}

pub proof fn lemma_fulls_upto_len(i: nat)
    ensures
        fulls_upto(i).len() == 12 * i,
    decreases i,
{
    if i > 0 {
        lemma_fulls_upto_len((i - 1) as nat);
    }
}

pub proof fn lemma_trip_rows_upto_len(i: int, j: nat)
    ensures
        trip_rows_upto(i, j).len() == 11 * j,
    decreases j,
{
    if j > 0 {
        lemma_trip_rows_upto_len(i, (j - 1) as nat);
    }
}

pub proof fn lemma_trips_upto_len(i: nat)
    ensures
        trips_upto(i).len() == 132 * i,
    decreases i,
{
    if i > 0 {
        lemma_trips_upto_len((i - 1) as nat);
        lemma_trip_rows_upto_len(i as int - 1, 12);
    }
}

pub proof fn lemma_two_pair_rows_upto_len(i: int, j: nat)
    ensures
        two_pair_rows_upto(i, j).len() == 11 * j,
    decreases j,
{
    if j > 0 {
        lemma_two_pair_rows_upto_len(i, (j - 1) as nat);
    }
}

pub proof fn lemma_two_pairs_upto_len(i: nat)
    ensures
        two_pairs_upto(i).len() == 132 * i,
    decreases i,
{
    if i > 0 {
        lemma_two_pairs_upto_len((i - 1) as nat);
        lemma_two_pair_rows_upto_len(i as int - 1, 12);
    }
}

pub proof fn lemma_pair_rows_upto_len(i: int, j: int, k: nat)
    ensures
        pair_rows_upto(i, j, k).len() == 10 * k,
    decreases k,
{
    if k > 0 {
        lemma_pair_rows_upto_len(i, j, (k - 1) as nat);
    }
}

pub proof fn lemma_pair_blocks_upto_len(i: int, j: nat)
    ensures
        pair_blocks_upto(i, j).len() == 110 * j,
    decreases j,
{
    if j > 0 {
        lemma_pair_blocks_upto_len(i, (j - 1) as nat);
        lemma_pair_rows_upto_len(i, j as int - 1, 11);
    }
}

pub proof fn lemma_pairs_upto_len(i: nat)
    ensures
        pairs_upto(i).len() == 1320 * i,
    decreases i,
{
    if i > 0 {
        lemma_pairs_upto_len((i - 1) as nat);
        lemma_pair_blocks_upto_len(i as int - 1, 12);
    }
}

pub proof fn lemma_sets_upto_len(ranks: Seq<char>, size: nat, m: nat)
    ensures
        sets_upto(ranks, size, m).len() <= m,
    decreases m,
{
    if m > size {
        lemma_sets_upto_len(ranks, size, (m - 1) as nat);
    }
}

pub proof fn lemma_non_pairs_filtered_len(s: Seq<Seq<char>>)
    ensures
        non_pairs_filtered(s).len() <= s.len(),
    decreases s.len(),
{
    reveal(Seq::filter);
    if s.len() > 0 {
        lemma_non_pairs_filtered_len(s.drop_last());
    }
}

pub proof fn lemma_non_pairs_len_bound()
    ensures
        non_pairs_model().len() <= 8192,
{
    lemma_ranks_asc_valid();
    assert(1u32 << 13u32 == 8192u32) by (bit_vector);
    assert((ranks_asc().len() as u32) == 13u32);
    lemma_sets_upto_len(ranks_asc(), 5, (1u32 << (ranks_asc().len() as u32)) as nat);
    lemma_non_pairs_filtered_len(make_sets_model(ranks_asc(), 5));
}

/// The build sequence is bounded: its length fits easily in 32 bits.
pub proof fn lemma_all_hands_len_bound()
    ensures
        all_hands_model().len() <= 100000,
{
    lemma_quads_upto_len(13);
    lemma_fulls_upto_len(13);
    lemma_trips_upto_len(13);
    lemma_two_pairs_upto_len(13);
    lemma_pairs_upto_len(13);
    lemma_non_pairs_len_bound();
}


/// The position of a rank character among the descending ranks.
pub open spec fn desc_index_of(c: char) -> int {
    match c {
        'A' => 0,
        'K' => 1,
        'Q' => 2,
        'J' => 3,
        'T' => 4,
        '9' => 5,
        '8' => 6,
        '7' => 7,
        '6' => 8,
        '5' => 9,
        '4' => 10,
        '3' => 11,
        _ => 12,
    }
}

/// Each rank character stands at its position of the descending ranks.
pub proof fn lemma_desc_index_of(c: char)
    requires
        is_rank_char(c),
    ensures
        0 <= desc_index_of(c) < 13,
        ranks_desc()[desc_index_of(c)] == c,
{
    if c == 'A' {
        assert(ranks_desc()[0] == 'A');
    } else if c == 'K' {
        assert(ranks_desc()[1] == 'K');
    } else if c == 'Q' {
        assert(ranks_desc()[2] == 'Q');
    } else if c == 'J' {
        assert(ranks_desc()[3] == 'J');
    } else if c == 'T' {
        assert(ranks_desc()[4] == 'T');
    } else if c == '9' {
        assert(ranks_desc()[5] == '9');
    } else if c == '8' {
        assert(ranks_desc()[6] == '8');
    } else if c == '7' {
        assert(ranks_desc()[7] == '7');
    } else if c == '6' {
        assert(ranks_desc()[8] == '6');
    } else if c == '5' {
        assert(ranks_desc()[9] == '5');
    } else if c == '4' {
        assert(ranks_desc()[10] == '4');
    } else if c == '3' {
        assert(ranks_desc()[11] == '3');
    } else {
        assert(c == '2');
        assert(ranks_desc()[12] == '2');
    }
}

/// The kicker position of a second rank beside a first: where the second
/// character stands once the first one's position is removed.
pub open spec fn kicker_index_of(i: int, c: char) -> int {
    if desc_index_of(c) < i {
        desc_index_of(c)
    } else {
        desc_index_of(c) - 1
    }
}

/// The second character keeps its identity at its kicker position.
pub proof fn lemma_kicker_index_of(a: char, b: char)
    requires
        is_rank_char(a),
        is_rank_char(b),
        a != b,
    ensures
        0 <= kicker_index_of(desc_index_of(a), b) < 12,
        kickers(desc_index_of(a))[kicker_index_of(desc_index_of(a), b)] == b,
{
    lemma_desc_index_of(a);
    lemma_desc_index_of(b);
    let i = desc_index_of(a);
    let bi = desc_index_of(b);
    assert(bi != i) by {
        lemma_ranks_desc_distinct();
    }
    let j = kicker_index_of(i, b);
    if bi < i {
        assert(kickers(i)[j] == ranks_desc()[bi]);
    } else {
        assert(kickers(i)[j] == ranks_desc()[j + 1]);
    }
}

/// The four-of-a-kind block places each (quad rank, kicker) pattern at
/// its fixed position.
pub proof fn lemma_quads_upto_index(n: nat, i: int, j: int)
    requires
        0 <= i < n,
        0 <= j < 12,
    ensures
        quads_upto(n)[12 * i + j] == quad_pattern(i, j),
    decreases n,
{
    lemma_quads_upto_len((n - 1) as nat);
    if i == n - 1 {
        assert(quads_upto(n)[12 * i + j] == quad_row(i)[j]);
    } else {
        lemma_quads_upto_index((n - 1) as nat, i, j);
    }
}

/// The full-house block places each (trip rank, pair rank) pattern at
/// its fixed position.
pub proof fn lemma_fulls_upto_index(n: nat, i: int, j: int)
    requires
        0 <= i < n,
        0 <= j < 12,
    ensures
        fulls_upto(n)[12 * i + j] == full_pattern(i, j),
    decreases n,
{
    lemma_fulls_upto_len((n - 1) as nat);
    if i == n - 1 {
        assert(fulls_upto(n)[12 * i + j] == full_row(i)[j]);
    } else {
        lemma_fulls_upto_index((n - 1) as nat, i, j);
    }
}


/// The kicker position of a third rank once two positions are removed.
pub open spec fn kicker2_index_of(i: int, j: int, c: char) -> int {
    if kicker_index_of(i, c) < j {
        kicker_index_of(i, c)
    } else {
        kicker_index_of(i, c) - 1
    }
}

/// The kicker position of a fourth rank once three positions are removed.
pub open spec fn kicker3_index_of(i: int, j: int, k: int, c: char) -> int {
    if kicker2_index_of(i, j, c) < k {
        kicker2_index_of(i, j, c)
    } else {
        kicker2_index_of(i, j, c) - 1
    }
}

/// The third character keeps its identity at its doubly adjusted
/// position.
pub proof fn lemma_kicker2_index_of(a: char, b: char, c: char)
    requires
        is_rank_char(a),
        is_rank_char(b),
        is_rank_char(c),
        a != b,
        a != c,
        b != c,
    ensures
        0 <= kicker2_index_of(desc_index_of(a), kicker_index_of(desc_index_of(a), b), c) < 11,
        kickers2(desc_index_of(a), kicker_index_of(desc_index_of(a), b))[kicker2_index_of(
            desc_index_of(a),
            kicker_index_of(desc_index_of(a), b),
            c,
        )] == c,
{
    let i = desc_index_of(a);
    let j = kicker_index_of(i, b);
    let w = kicker_index_of(i, c);
    lemma_kicker_index_of(a, b);
    lemma_kicker_index_of(a, c);
    assert(w != j);
    if w < j {
        assert(kickers2(i, j)[w] == kickers(i)[w]);
    } else {
        assert(kickers2(i, j)[w - 1] == kickers(i)[w]);
    }
}

/// Removing one position moves, but keeps, the character at another.
proof fn lemma_remove_keeps_at(s: Seq<char>, r: int, w: int)
    requires
        0 <= r < s.len(),
        0 <= w < s.len(),
        w != r,
    ensures
        s.remove(r)[if w < r {
            w
        } else {
            w - 1
        }] == s[w],
{
}

/// The fourth character keeps its identity at its triply adjusted
/// position.
pub proof fn lemma_kicker3_index_of(a: char, b: char, c: char, d: char)
    requires
        is_rank_char(a),
        is_rank_char(b),
        is_rank_char(c),
        is_rank_char(d),
        a != b,
        a != c,
        a != d,
        b != c,
        b != d,
        c != d,
    ensures
        ({
            let i = desc_index_of(a);
            let j = kicker_index_of(i, b);
            let k = kicker2_index_of(i, j, c);
            let l = kicker3_index_of(i, j, k, d);
            0 <= l < 10 && kickers3(i, j, k)[l] == d
        }),
{
    let i = desc_index_of(a);
    let j = kicker_index_of(i, b);
    let k = kicker2_index_of(i, j, c);
    let w = kicker2_index_of(i, j, d);
    lemma_kicker2_index_of(a, b, c);
    lemma_kicker2_index_of(a, b, d);
    assert(kickers2(i, j)[k] == c);
    assert(kickers2(i, j)[w] == d);
    assert(w != k);
    lemma_remove_keeps_at(kickers2(i, j), k, w);
}

/// The three-of-a-kind block places each pattern at its fixed position.
pub proof fn lemma_trip_rows_upto_index(i: int, jmax: nat, j: int, k: int)
    requires
        0 <= j < jmax,
        jmax <= 12,
        0 <= k < 11,
    ensures
        trip_rows_upto(i, jmax)[11 * j + k] == trip_pattern(i, j, k),
    decreases jmax,
{
    lemma_trip_rows_upto_len(i, (jmax - 1) as nat);
    if j == jmax - 1 {
        assert(trip_rows_upto(i, jmax)[11 * j + k] == trip_row(i, j)[k]);
    } else {
        lemma_trip_rows_upto_index(i, (jmax - 1) as nat, j, k);
    }
}

pub proof fn lemma_trips_upto_index(n: nat, i: int, j: int, k: int)
    requires
        0 <= i < n,
        0 <= j < 12,
        0 <= k < 11,
    ensures
        trips_upto(n)[132 * i + 11 * j + k] == trip_pattern(i, j, k),
    decreases n,
{
    lemma_trips_upto_len((n - 1) as nat);
    if i == n - 1 {
        lemma_trip_rows_upto_len(i, 12);
        lemma_trip_rows_upto_index(i, 12, j, k);
        assert(trips_upto(n)[132 * i + 11 * j + k] == trip_rows_upto(i, 12)[11 * j + k]);
    } else {
        lemma_trips_upto_index((n - 1) as nat, i, j, k);
    }
}

/// The two-pair block places each pattern at its fixed position.
pub proof fn lemma_two_pair_rows_upto_index(i: int, jmax: nat, j: int, k: int)
    requires
        0 <= j < jmax,
        jmax <= 12,
        0 <= k < 11,
    ensures
        two_pair_rows_upto(i, jmax)[11 * j + k] == two_pair_pattern(i, j, k),
    decreases jmax,
{
    lemma_two_pair_rows_upto_len(i, (jmax - 1) as nat);
    if j == jmax - 1 {
        assert(two_pair_rows_upto(i, jmax)[11 * j + k] == two_pair_row(i, j)[k]);
    } else {
        lemma_two_pair_rows_upto_index(i, (jmax - 1) as nat, j, k);
    }
}

pub proof fn lemma_two_pairs_upto_index(n: nat, i: int, j: int, k: int)
    requires
        0 <= i < n,
        0 <= j < 12,
        0 <= k < 11,
    ensures
        two_pairs_upto(n)[132 * i + 11 * j + k] == two_pair_pattern(i, j, k),
    decreases n,
{
    lemma_two_pairs_upto_len((n - 1) as nat);
    if i == n - 1 {
        lemma_two_pair_rows_upto_len(i, 12);
        lemma_two_pair_rows_upto_index(i, 12, j, k);
        assert(two_pairs_upto(n)[132 * i + 11 * j + k] == two_pair_rows_upto(i, 12)[11 * j
            + k]);
    } else {
        lemma_two_pairs_upto_index((n - 1) as nat, i, j, k);
    }
}

/// The one-pair block places each pattern at its fixed position.
pub proof fn lemma_pair_rows_upto_index(i: int, j: int, kmax: nat, k: int, l: int)
    requires
        0 <= k < kmax,
        kmax <= 11,
        0 <= l < 10,
    ensures
        pair_rows_upto(i, j, kmax)[10 * k + l] == pair_pattern(i, j, k, l),
    decreases kmax,
{
    lemma_pair_rows_upto_len(i, j, (kmax - 1) as nat);
    if k == kmax - 1 {
        assert(pair_rows_upto(i, j, kmax)[10 * k + l] == pair_row(i, j, k)[l]);
    } else {
        lemma_pair_rows_upto_index(i, j, (kmax - 1) as nat, k, l);
    }
}

pub proof fn lemma_pair_blocks_upto_index(i: int, jmax: nat, j: int, k: int, l: int)
    requires
        0 <= j < jmax,
        jmax <= 12,
        0 <= k < 11,
        0 <= l < 10,
    ensures
        pair_blocks_upto(i, jmax)[110 * j + 10 * k + l] == pair_pattern(i, j, k, l),
    decreases jmax,
{
    lemma_pair_blocks_upto_len(i, (jmax - 1) as nat);
    if j == jmax - 1 {
        lemma_pair_rows_upto_len(i, j, 11);
        lemma_pair_rows_upto_index(i, j, 11, k, l);
        assert(pair_blocks_upto(i, jmax)[110 * j + 10 * k + l] == pair_rows_upto(i, j, 11)[10
            * k + l]);
    } else {
        lemma_pair_blocks_upto_index(i, (jmax - 1) as nat, j, k, l);
    }
}

pub proof fn lemma_pairs_upto_index(n: nat, i: int, j: int, k: int, l: int)
    requires
        0 <= i < n,
        0 <= j < 12,
        0 <= k < 11,
        0 <= l < 10,
    ensures
        pairs_upto(n)[1320 * i + 110 * j + 10 * k + l] == pair_pattern(i, j, k, l),
    decreases n,
{
    lemma_pairs_upto_len((n - 1) as nat);
    if i == n - 1 {
        lemma_pair_blocks_upto_len(i, 12);
        lemma_pair_blocks_upto_index(i, 12, j, k, l);
        assert(pairs_upto(n)[1320 * i + 110 * j + 10 * k + l] == pair_blocks_upto(i, 12)[110
            * j + 10 * k + l]);
    } else {
        lemma_pairs_upto_index((n - 1) as nat, i, j, k, l);
    }
}


/// The position of a rank character among the ascending ranks.
pub open spec fn asc_index_of(c: char) -> int {
    12 - desc_index_of(c)
}

/// Each rank character stands at its position of the ascending ranks.
pub proof fn lemma_asc_index_of(c: char)
    requires
        is_rank_char(c),
    ensures
        0 <= asc_index_of(c) < 13,
        ranks_asc()[asc_index_of(c)] == c,
{
    lemma_desc_index_of(c);
    assert(ranks_asc()[12 - desc_index_of(c)] == ranks_desc()[desc_index_of(c)]);
}

/// Prepending one character inserts it into the multiset.
proof fn lemma_prepend_to_multiset(x: char, s: Seq<char>)
    ensures
        (seq![x] + s).to_multiset() == s.to_multiset().insert(x),
    decreases s.len(),
{
    broadcast use vstd::seq_lib::group_to_multiset_ensures;

    if s.len() == 0 {
        assert(seq![x] + s =~= Seq::empty().push(x));
        assert(s.to_multiset() =~= Multiset::empty());
    } else {
        lemma_prepend_to_multiset(x, s.drop_last());
        assert(seq![x] + s =~= (seq![x] + s.drop_last()).push(s.last()));
        assert(s =~= s.drop_last().push(s.last()));
        assert(s.drop_last().to_multiset().insert(x).insert(s.last()) =~= s.drop_last()
            .to_multiset().insert(s.last()).insert(x));
    }
}

/// A zero mask selects nothing.
proof fn lemma_sel_zero(ranks: Seq<char>, i: nat)
    requires
        i <= ranks.len(),
        ranks.len() <= 32,
    ensures
        sel(ranks, 0u32, i) == Seq::<char>::empty(),
    decreases i,
{
    if i > 0 {
        lemma_sel_zero(ranks, (i - 1) as nat);
        let t = (i - 1) as u32;
        assert(0u32 & (1u32 << t) == 0) by (bit_vector);
    }
}

/// Setting one more bit of the mask inserts that bit's character into
/// the selection, as long as the bit lies below the window.
proof fn lemma_sel_or_bit(ranks: Seq<char>, m: u32, b: u32, i: nat)
    requires
        ranks.len() <= 32,
        i <= ranks.len(),
        b < 32,
        m & (1u32 << b) == 0,
    ensures
        b < i ==> sel(ranks, m | (1u32 << b), i).to_multiset() == sel(ranks, m, i)
            .to_multiset().insert(ranks[b as int]),
        b >= i ==> sel(ranks, m | (1u32 << b), i) == sel(ranks, m, i),
    decreases i,
{
    broadcast use vstd::seq_lib::group_to_multiset_ensures;

    if i > 0 {
        lemma_sel_or_bit(ranks, m, b, (i - 1) as nat);
        let t = (i - 1) as u32;
        let m2 = m | (1u32 << b);
        assert(((m | (1u32 << b)) & (1u32 << t) != 0) == (t == b || m & (1u32 << t) != 0))
            by (bit_vector)
            requires
                t < 32u32,
                b < 32u32,
                m & (1u32 << b) == 0u32,
        ;
        let rest2 = sel(ranks, m2, (i - 1) as nat);
        let rest = sel(ranks, m, (i - 1) as nat);
        if t == b {
            assert(sel(ranks, m2, i) == seq![ranks[t as int]] + rest2);
            assert(sel(ranks, m, i) == rest);
            assert(rest2 == rest);
            lemma_prepend_to_multiset(ranks[t as int], rest2);
        } else if m & (1u32 << t) != 0 {
            assert(sel(ranks, m2, i) == seq![ranks[t as int]] + rest2);
            assert(sel(ranks, m, i) == seq![ranks[t as int]] + rest);
            lemma_prepend_to_multiset(ranks[t as int], rest2);
            lemma_prepend_to_multiset(ranks[t as int], rest);
            if b < i - 1 {
                assert(rest.to_multiset().insert(ranks[b as int]).insert(ranks[t as int])
                    =~= rest.to_multiset().insert(ranks[t as int]).insert(ranks[b as int]));
            }
        } else {
            assert(sel(ranks, m2, i) == rest2);
            assert(sel(ranks, m, i) == rest);
        }
    }
}

/// The selections of each stage keep their members through later stages.
proof fn lemma_sets_upto_contains(ranks: Seq<char>, size: nat, mlo: u32, m: nat)
    requires
        size <= mlo as nat,
        (mlo as nat) < m,
        sel(ranks, mlo, ranks.len()).len() == size,
    ensures
        sets_upto(ranks, size, m).contains(sel(ranks, mlo, ranks.len())),
    decreases m,
{
    let s = sel(ranks, mlo, ranks.len());
    if m - 1 == mlo as nat {
        assert(((m - 1) as nat) as u32 == mlo);
        let prev = sets_upto(ranks, size, (m - 1) as nat);
        assert(sets_upto(ranks, size, m) == prev.push(s));
        assert(prev.push(s)[prev.len() as int] == s);
    } else {
        lemma_sets_upto_contains(ranks, size, mlo, (m - 1) as nat);
        let prev = sets_upto(ranks, size, (m - 1) as nat);
        let idx = choose|idx: int| 0 <= idx < prev.len() && prev[idx] == s;
        assert(sets_upto(ranks, size, m)[idx] == s);
    }
}

/// The filter keeps every selection that is not a straight set.
proof fn lemma_non_pairs_filtered_contains(s: Seq<Seq<char>>, idx: int)
    requires
        0 <= idx < s.len(),
        !straight_sets_model().contains(s[idx]),
    ensures
        non_pairs_filtered(s).contains(s[idx]),
    decreases s.len(),
{
    reveal(Seq::filter);
    if idx == s.len() - 1 {
        let sub = non_pairs_filtered(s.drop_last());
        assert(non_pairs_filtered(s) == sub.push(s[idx]));
        assert(sub.push(s[idx])[sub.len() as int] == s[idx]);
    } else {
        lemma_non_pairs_filtered_contains(s.drop_last(), idx);
        let sub = non_pairs_filtered(s.drop_last());
        let w = choose|w: int| 0 <= w < sub.len() && sub[w] == s.drop_last()[idx];
        assert(s.drop_last()[idx] == s[idx]);
        if straight_sets_model().contains(s.last()) {
            assert(non_pairs_filtered(s) == sub);
        } else {
            assert(non_pairs_filtered(s) == sub.push(s.last()));
            assert(non_pairs_filtered(s)[w] == s[idx]);
        }
    }
}

/// Reversal keeps every member.
proof fn lemma_reverse_contains(s: Seq<Seq<char>>, idx: int)
    requires
        0 <= idx < s.len(),
    ensures
        s.reverse().contains(s[idx]),
{
    assert(s.reverse()[s.len() - 1 - idx] == s[idx]);
}

/// Every five-rank hand with five different ranks that do not read as a
/// straight stands, in its canonical order, among the non-pair sets.
pub proof fn lemma_non_pairs_complete(hand: Seq<char>)
    requires
        hand.len() == 5,
        forall|t: int| 0 <= t < 5 ==> is_rank_char(#[trigger] hand[t]),
        forall|s: int, t: int| 0 <= s < t < 5 ==> hand[s] != hand[t],
        forall|i: int|
            0 <= i < 10 ==> hand.to_multiset() != straight_sets_model()[i].to_multiset(),
    ensures
        exists|t: int|
            0 <= t < non_pairs_model().len() && (#[trigger] non_pairs_model()[t]).to_multiset()
                == hand.to_multiset(),
{
    broadcast use vstd::seq_lib::group_to_multiset_ensures;

    lemma_ranks_asc_valid();
    let c0 = hand[0];
    let c1 = hand[1];
    let c2 = hand[2];
    let c3 = hand[3];
    let c4 = hand[4];
    lemma_asc_index_of(c0);
    lemma_asc_index_of(c1);
    lemma_asc_index_of(c2);
    lemma_asc_index_of(c3);
    lemma_asc_index_of(c4);
    let b0 = asc_index_of(c0) as u32;
    let b1 = asc_index_of(c1) as u32;
    let b2 = asc_index_of(c2) as u32;
    let b3 = asc_index_of(c3) as u32;
    let b4 = asc_index_of(c4) as u32;
    let ra = ranks_asc();
    let m0 = 0u32;
    let m1 = m0 | (1u32 << b0);
    let m2 = m1 | (1u32 << b1);
    let m3 = m2 | (1u32 << b2);
    let m4 = m3 | (1u32 << b3);
    let mask = m4 | (1u32 << b4);
    assert(0u32 & (1u32 << b0) == 0) by (bit_vector);
    assert(m1 & (1u32 << b1) == 0 && m2 & (1u32 << b2) == 0 && m3 & (1u32 << b3) == 0 && m4
        & (1u32 << b4) == 0) by (bit_vector)
        requires
            b0 < 13u32,
            b1 < 13u32,
            b2 < 13u32,
            b3 < 13u32,
            b4 < 13u32,
            b0 != b1 && b0 != b2 && b0 != b3 && b0 != b4,
            b1 != b2 && b1 != b3 && b1 != b4,
            b2 != b3 && b2 != b4,
            b3 != b4,
            m1 == m0 | (1u32 << b0),
            m2 == m1 | (1u32 << b1),
            m3 == m2 | (1u32 << b2),
            m4 == m3 | (1u32 << b3),
            m0 == 0u32,
    ;
    lemma_sel_zero(ra, 13);
    lemma_sel_or_bit(ra, m0, b0, 13);
    lemma_sel_or_bit(ra, m1, b1, 13);
    lemma_sel_or_bit(ra, m2, b2, 13);
    lemma_sel_or_bit(ra, m3, b3, 13);
    lemma_sel_or_bit(ra, m4, b4, 13);
    let s = sel(ra, mask, 13);
    assert(Seq::<char>::empty().to_multiset() =~= Multiset::empty());
    assert(s.to_multiset() =~= Multiset::empty().insert(c0).insert(c1).insert(c2).insert(
        c3,
    ).insert(c4));
    assert(hand =~= seq![c0, c1, c2, c3, c4]);
    assert(hand =~= Seq::empty().push(c0).push(c1).push(c2).push(c3).push(c4));
    assert(hand.to_multiset() =~= Multiset::empty().insert(c0).insert(c1).insert(c2).insert(
        c3,
    ).insert(c4));
    assert(s.to_multiset() == hand.to_multiset());
    assert(s.len() == s.to_multiset().len());
    assert(hand.len() == hand.to_multiset().len());
    assert(s.len() == 5);
    assert(5u32 <= mask && mask < 8192u32) by (bit_vector)
        requires
            b0 < 13u32,
            b1 < 13u32,
            b2 < 13u32,
            b3 < 13u32,
            b4 < 13u32,
            b0 != b1 && b0 != b2 && b0 != b3 && b0 != b4,
            b1 != b2 && b1 != b3 && b1 != b4,
            b2 != b3 && b2 != b4,
            b3 != b4,
            mask == ((((0u32 | (1u32 << b0)) | (1u32 << b1)) | (1u32 << b2)) | (1u32 << b3))
                | (1u32 << b4),
    ;
    assert((1u32 << 13u32) == 8192u32) by (bit_vector);
    assert((ranks_asc().len() as u32) == 13u32);
    lemma_sets_upto_contains(ra, 5, mask, 8192);
    assert(make_sets_model(ranks_asc(), 5).contains(s));
    assert(!straight_sets_model().contains(s)) by {
        if straight_sets_model().contains(s) {
            let i = choose|i: int|
                0 <= i < straight_sets_model().len() && straight_sets_model()[i] == s;
            assert(hand.to_multiset() != straight_sets_model()[i].to_multiset());
        }
    }
    let src = make_sets_model(ranks_asc(), 5);
    let idx = choose|idx: int| 0 <= idx < src.len() && src[idx] == s;
    lemma_non_pairs_filtered_contains(src, idx);
    let filtered = non_pairs_filtered(src);
    let w = choose|w: int| 0 <= w < filtered.len() && filtered[w] == s;
    lemma_reverse_contains(filtered, w);
    let t = choose|t: int|
        0 <= t < filtered.reverse().len() && filtered.reverse()[t] == s;
    assert(non_pairs_model()[t] == s);
    assert(non_pairs_model()[t].to_multiset() == hand.to_multiset());
}

} // verus!
