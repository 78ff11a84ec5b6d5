//! MERA towers of binary tensors: pairing bits into tensors and contracting
//! neighbouring tensors level by level.
use vstd::prelude::*;
use std::collections::HashMap;
use crate::popcount::{
    agreement16, bit16, ones16, count_ones16, lemma_xnor_ones16, lemma_agreement16_laws, lemma_agreement16_full,
};

verus! {

pub const MERA_MAX_LEVELS: usize = 14;
pub const MERA_FINE_COARSE_BOUNDARY: usize = 8;

#[derive(Debug, Clone, Copy, PartialEq, Eq, Structural)]
pub struct BinaryTensor {
    pub bits: u16,
}

/// The tensor bits of a pair: bit 0 for `a`, bit 1 for `b`, bit 2 when both are set,
/// bit 3 for the same turn.
pub open spec fn pair_bits(a: bool, b: bool, same_turn: bool) -> u16 {
    ((if a { 1int } else { 0int }) + (if b { 2int } else { 0int }) + (if a && b { 4int } else { 0int })
        + (if same_turn { 8int } else { 0int })) as u16
}

/// The agreement score of two tensors: the number of the 16 bits on which they agree.
pub open spec fn contract_spec(a: BinaryTensor, b: BinaryTensor) -> nat {
    agreement16(a.bits, b.bits, 16)
}

impl BinaryTensor {
    pub fn new(bits: u16) -> (r: Self)
        ensures
            r.bits == bits,
    {
        Self { bits }
    }

    pub fn from_pair(bit_a: bool, bit_b: bool, same_turn: bool) -> (r: Self)
        ensures
            r.bits == pair_bits(bit_a, bit_b, same_turn),
    {
        let mut bits: u16 = 0;
        if bit_a {
            assert(0u16 | 1u16 == 1u16) by (bit_vector);
            bits |= 0b0001;
        }
        assert(bits < 2);
        if bit_b {
            assert(bits | 2u16 == bits + 2) by (bit_vector)
                requires
                    bits < 2u16,
            ;
            bits |= 0b0010;
        }
        assert(bits < 4);
        if bit_a && bit_b {
            assert(bits | 4u16 == bits + 4) by (bit_vector)
                requires
                    bits < 4u16,
            ;
            bits |= 0b0100;
        }
        assert(bits < 8);
        if same_turn {
            assert(bits | 8u16 == bits + 8) by (bit_vector)
                requires
                    bits < 8u16,
            ;
            bits |= 0b1000;
        }
        Self { bits }
    }

    /// XNOR + popcount: agreement score 0-16
    pub fn contract(&self, other: &BinaryTensor) -> (r: u32)
        ensures
            r == contract_spec(*self, *other),
            r == 16 - ones16(self.bits ^ other.bits, 16),
            (r == 16) == (self.bits == other.bits),
            r <= 16,
    {
        let xnor = !(self.bits ^ other.bits);
        proof {
            lemma_xnor_ones16(self.bits, other.bits, 16);
            lemma_agreement16_full(self.bits, other.bits);
        }
        count_ones16(xnor)
    }
}

/// The first level of the tower: positions taken two by two, each pair made a tensor
/// from whether its positions are nonzero (a lone last position pairs with `false`);
/// a single zero tensor when there are no positions.
pub open spec fn leaf_level(positions: Seq<u32>, same_turn: bool) -> Seq<BinaryTensor> {
    if positions.len() == 0 {
        seq![BinaryTensor { bits: 0 }]
    } else {
        Seq::new(
            ((positions.len() + 1) / 2) as nat,
            |k: int|
                BinaryTensor {
                    bits: pair_bits(
                        positions[2 * k] != 0,
                        2 * k + 1 < positions.len() && positions[2 * k + 1] != 0,
                        same_turn,
                    ),
                },
        )
    }
}

/// The next level: neighbouring tensors taken two by two and replaced by their agreement
/// score; a lone last tensor is carried up unchanged.
pub open spec fn coarsen(level: Seq<BinaryTensor>) -> Seq<BinaryTensor> {
    Seq::new(
        ((level.len() + 1) / 2) as nat,
        |k: int|
            if 2 * k + 1 < level.len() {
                BinaryTensor { bits: contract_spec(level[2 * k], level[2 * k + 1]) as u16 }
            } else {
                level[2 * k]
            },
    )
}

/// The levels from `level` upwards: at most `steps` coarsenings, stopping at a level of
/// at most one tensor.
pub open spec fn tower(level: Seq<BinaryTensor>, steps: nat) -> Seq<Seq<BinaryTensor>>
    decreases steps,
{
    if steps == 0 || level.len() <= 1 {
        seq![level]
    } else {
        seq![level] + tower(coarsen(level), (steps - 1) as nat)
    }
}

/// All levels built from the positions: at most `MERA_MAX_LEVELS` of them.
pub open spec fn mera_tower(positions: Seq<u32>, same_turn: bool) -> Seq<Seq<BinaryTensor>> {
    tower(leaf_level(positions, same_turn), (MERA_MAX_LEVELS - 1) as nat)
}

pub open spec fn levels_view(levels: Seq<Vec<BinaryTensor>>) -> Seq<Seq<BinaryTensor>> {
    levels.map_values(|v: Vec<BinaryTensor>| v@)
}

#[derive(Debug, Clone)]
pub struct MeraFine {
    levels: Vec<Vec<BinaryTensor>>,
}

impl MeraFine {
    /// The tensors of each level.
    pub closed spec fn levels_spec(&self) -> Seq<Seq<BinaryTensor>> {
        levels_view(self.levels@)
    }

    pub fn new(levels: Vec<Vec<BinaryTensor>>) -> (r: Self)
        ensures
            r.levels_spec() == levels_view(levels@),
    {
        Self { levels }
    }

    pub fn num_levels(&self) -> (r: usize)
        ensures
            r == self.levels_spec().len(),
    {
        self.levels.len()
    }

    /// The tensors of level `idx`, empty past the last level.
    pub fn level(&self, idx: usize) -> (r: &[BinaryTensor])
        ensures
            r@ == if idx < self.levels_spec().len() { self.levels_spec()[idx as int] } else { Seq::empty() },
    {
        if idx < self.levels.len() {
            self.levels[idx].as_slice()
        } else {
            &[]
        }
    }
}

#[derive(Debug, Clone)]
pub struct MeraCoarse {
    levels: Vec<Vec<BinaryTensor>>,
}

impl MeraCoarse {
    /// The tensors of each level.
    pub closed spec fn levels_spec(&self) -> Seq<Seq<BinaryTensor>> {
        levels_view(self.levels@)
    }

    pub fn new(levels: Vec<Vec<BinaryTensor>>) -> (r: Self)
        ensures
            r.levels_spec() == levels_view(levels@),
    {
        Self { levels }
    }

    pub fn num_levels(&self) -> (r: usize)
        ensures
            r == self.levels_spec().len(),
    {
        self.levels.len()
    }

    /// The tensors of level `idx`, empty past the last level.
    pub fn level(&self, idx: usize) -> (r: &[BinaryTensor])
        ensures
            r@ == if idx < self.levels_spec().len() { self.levels_spec()[idx as int] } else { Seq::empty() },
    {
        if idx < self.levels.len() {
            self.levels[idx].as_slice()
        } else {
            &[]
        }
    }
}

fn leaf_tensors(positions: &[u32], same_turn: bool) -> (r: Vec<BinaryTensor>)
    ensures
        r@ == leaf_level(positions@, same_turn),
{
    let n = positions.len();
    let mut current: Vec<BinaryTensor> = Vec::new();
    if n == 0 {
        current.push(BinaryTensor::new(0));
        assert(current@ =~= leaf_level(positions@, same_turn));
        return current;
    }
    let m = n / 2 + n % 2;
    for k in 0..m
        invariant
            n == positions@.len(),
            n > 0,
            m == (n + 1) / 2,
            current@.len() == k,
            forall|j: int| 0 <= j < k ==> #[trigger] current@[j] == leaf_level(positions@, same_turn)[j],
    {
        let a = positions[2 * k] != 0;
        let b = if 2 * k + 1 < n { positions[2 * k + 1] != 0 } else { false };
        current.push(BinaryTensor::from_pair(a, b, same_turn));
    }
    assert(current@ =~= leaf_level(positions@, same_turn));
    current
}

fn coarsen_tensors(level: &Vec<BinaryTensor>) -> (r: Vec<BinaryTensor>)
    ensures
        r@ == coarsen(level@),
{
    let n = level.len();
    let m = n / 2 + n % 2;
    let mut next: Vec<BinaryTensor> = Vec::new();
    for k in 0..m
        invariant
            n == level@.len(),
            m == (n + 1) / 2,
            next@.len() == k,
            forall|j: int| 0 <= j < k ==> #[trigger] next@[j] == coarsen(level@)[j],
    {
        if 2 * k + 1 < n {
            let agreement = level[2 * k].contract(&level[2 * k + 1]);
            next.push(BinaryTensor::new(agreement as u16));
        } else {
            next.push(level[2 * k]);
        }
    }
    assert(next@ =~= coarsen(level@));
    next
}

/// Builds the tower of levels from the positions and splits it: the first
/// `MERA_FINE_COARSE_BOUNDARY` levels are fine, the rest coarse.
pub fn build_mera_from_bits(positions: &[u32], same_turn: bool) -> (r: (MeraFine, MeraCoarse))
    ensures
        r.0.levels_spec() == mera_tower(positions@, same_turn).take(
            if mera_tower(positions@, same_turn).len() < MERA_FINE_COARSE_BOUNDARY {
                mera_tower(positions@, same_turn).len() as int
            } else {
                MERA_FINE_COARSE_BOUNDARY as int
            },
        ),
        r.1.levels_spec() == if MERA_FINE_COARSE_BOUNDARY < mera_tower(positions@, same_turn).len() {
            mera_tower(positions@, same_turn).skip(MERA_FINE_COARSE_BOUNDARY as int)
        } else {
            Seq::empty()
        },
{
    let ghost whole = mera_tower(positions@, same_turn);
    let mut levels: Vec<Vec<BinaryTensor>> = Vec::new();

    // Level 0: pair adjacent bit positions into tensors
    let first = leaf_tensors(positions, same_turn);
    levels.push(first);

    // Contract pairwise up to MAX_LEVELS
    let mut step: usize = 1;
    while step < MERA_MAX_LEVELS
        invariant_except_break
            1 <= step <= MERA_MAX_LEVELS,
            levels@.len() == step,
            whole == levels_view(levels@).drop_last() + tower(
                levels@.last()@,
                (MERA_MAX_LEVELS - step) as nat,
            ),
        ensures
            whole == levels_view(levels@),
            1 <= levels@.len() <= MERA_MAX_LEVELS,
        decreases MERA_MAX_LEVELS - step,
    {
        let last = levels.len() - 1;
        if levels[last].len() <= 1 {
            assert(levels_view(levels@) =~= levels_view(levels@).drop_last() + seq![levels@.last()@]);
            break;
        }
        let next = coarsen_tensors(&levels[last]);
        let ghost before = levels_view(levels@);
        levels.push(next);
        assert(levels_view(levels@).drop_last() =~= before);
        assert(before =~= before.drop_last() + seq![before.last()]);
        assert(levels_view(levels@).drop_last() + tower(levels@.last()@, (MERA_MAX_LEVELS - step - 1) as nat)
            =~= before.drop_last() + tower(before.last(), (MERA_MAX_LEVELS - step) as nat));
        step = step + 1;
    }
    proof {
        if step == MERA_MAX_LEVELS {
            assert(levels_view(levels@) =~= levels_view(levels@).drop_last() + seq![levels@.last()@]);
        }
    }

    // Split at boundary
    let boundary = if MERA_FINE_COARSE_BOUNDARY < levels.len() {
        MERA_FINE_COARSE_BOUNDARY
    } else {
        levels.len()
    };
    let ghost all = levels@;
    let coarse_levels = levels.split_off(boundary);
    assert(levels_view(levels@) =~= whole.take(boundary as int));
    assert(levels_view(coarse_levels@) =~= if MERA_FINE_COARSE_BOUNDARY < whole.len() {
        whole.skip(MERA_FINE_COARSE_BOUNDARY as int)
    } else {
        Seq::empty()
    });
    (MeraFine::new(levels), MeraCoarse::new(coarse_levels))
}

/// The sum of the agreement scores of the first `k` tensors of `a` and `b`, index by index.
pub open spec fn agreement_sum(a: Seq<BinaryTensor>, b: Seq<BinaryTensor>, k: nat) -> nat
    decreases k,
{
    if k == 0 {
        0
    } else {
        agreement_sum(a, b, (k - 1) as nat) + contract_spec(a[k - 1], b[k - 1])
    }
}

pub open spec fn min_nat(a: nat, b: nat) -> nat {
    if a < b { a } else { b }
}

/// The number of tensor pairs of level `lvl` that two fine parts share.
pub open spec fn shared_pairs(a: MeraFine, b: MeraFine, lvl: int) -> nat {
    min_nat(a.levels_spec()[lvl].len(), b.levels_spec()[lvl].len())
}

/// The mean agreement of level `lvl`, in integer arithmetic as computed by `contract_levels`.
pub open spec fn level_mean(a: MeraFine, b: MeraFine, lvl: int) -> u32 {
    (agreement_sum(a.levels_spec()[lvl], b.levels_spec()[lvl], shared_pairs(a, b, lvl)) as u32)
        / (shared_pairs(a, b, lvl) as u32)
}

/// For each level both parts have and on which they share at least one tensor pair,
/// the mean agreement of those pairs.
pub fn contract_levels(a: &MeraFine, b: &MeraFine) -> (r: HashMap<usize, u32>)
    requires
        forall|lvl: int| 0 <= lvl < a.levels_spec().len() && 0 <= lvl < b.levels_spec().len()
            && #[trigger] shared_pairs(*a, *b, lvl) > 0 ==> {
                &&& agreement_sum(a.levels_spec()[lvl], b.levels_spec()[lvl], shared_pairs(*a, *b, lvl))
                    <= u32::MAX
                &&& shared_pairs(*a, *b, lvl) as u32 != 0
            },
    ensures
        forall|lvl: usize| #[trigger] r@.contains_key(lvl) <==> (lvl < a.levels_spec().len()
            && lvl < b.levels_spec().len() && shared_pairs(*a, *b, lvl as int) > 0),
        forall|lvl: usize| #[trigger] r@.contains_key(lvl) ==> r@[lvl] == level_mean(*a, *b, lvl as int),
{
    broadcast use vstd::std_specs::hash::group_hash_axioms;
    let mut result: HashMap<usize, u32> = HashMap::new();
    let na = a.num_levels();
    let nb = b.num_levels();
    let n = if na < nb { na } else { nb };
    for lvl in 0..n
        invariant
            n == min_nat(a.levels_spec().len(), b.levels_spec().len()),
            forall|l: int| 0 <= l < a.levels_spec().len() && 0 <= l < b.levels_spec().len()
                && #[trigger] shared_pairs(*a, *b, l) > 0 ==> {
                    &&& agreement_sum(a.levels_spec()[l], b.levels_spec()[l], shared_pairs(*a, *b, l))
                        <= u32::MAX
                    &&& shared_pairs(*a, *b, l) as u32 != 0
                },
            forall|l: usize| #[trigger] result@.contains_key(l) <==> (l < lvl
                && shared_pairs(*a, *b, l as int) > 0),
            forall|l: usize| #[trigger] result@.contains_key(l) ==> result@[l] == level_mean(*a, *b, l as int),
    {
        let la = a.level(lvl);
        let lb = b.level(lvl);
        let pairs = if la.len() < lb.len() { la.len() } else { lb.len() };
        assert(pairs == shared_pairs(*a, *b, lvl as int));
        if pairs > 0 {
            let mut total: u32 = 0;
            for k in 0..pairs
                invariant
                    pairs <= la@.len(),
                    pairs <= lb@.len(),
                    agreement_sum(la@, lb@, pairs as nat) <= u32::MAX,
                    total == agreement_sum(la@, lb@, k as nat),
            {
                proof {
                    lemma_agreement_sum_monotone(la@, lb@, (k + 1) as nat, pairs as nat);
                }
                let c = la[k].contract(&lb[k]);
                total = total + c;
            }
            result.insert(lvl, total / pairs as u32);
        }
    }
    result
}

proof fn lemma_agreement_sum_monotone(a: Seq<BinaryTensor>, b: Seq<BinaryTensor>, j: nat, k: nat)
    requires
        j <= k,
    ensures
        agreement_sum(a, b, j) <= agreement_sum(a, b, k),
    decreases k,
{
    if j < k {
        lemma_agreement_sum_monotone(a, b, j, (k - 1) as nat);
    }
}

/// A pair tensor sets bit 0 for `a`, bit 1 for `b`, bit 2 exactly when both are set,
/// whatever the turn, and bit 3 for the same turn; it sets no other bit.
pub proof fn lemma_pair_bits(a: bool, b: bool, same_turn: bool)
    ensures
        bit16(pair_bits(a, b, same_turn), 0) == a,
        bit16(pair_bits(a, b, same_turn), 1) == b,
        bit16(pair_bits(a, b, same_turn), 2) == (a && b),
        bit16(pair_bits(a, b, same_turn), 3) == same_turn,
        pair_bits(a, b, same_turn) < 16,
{
    let v = pair_bits(a, b, same_turn);
    assert(v == (if a { 1u16 } else { 0u16 }) + (if b { 2u16 } else { 0u16 }) + (if a && b { 4u16 } else {
        0u16
    }) + (if same_turn { 8u16 } else { 0u16 }));
    assert({
        &&& (v >> 0u16) & 1u16 == 1u16 <==> a
        &&& (v >> 1u16) & 1u16 == 1u16 <==> b
        &&& (v >> 2u16) & 1u16 == 1u16 <==> (a && b)
        &&& (v >> 3u16) & 1u16 == 1u16 <==> same_turn
    }) by (bit_vector)
        requires
            v == (if a { 1u16 } else { 0u16 }) + (if b { 2u16 } else { 0u16 }) + (if a && b { 4u16 } else {
                0u16
            }) + (if same_turn { 8u16 } else { 0u16 }),
    ;
}

/// The first level of the tower pairs the positions two by two, a lone last position
/// with an absent one: tensor `j` sets bit 0 when position `2j` is nonzero, bit 1 when
/// position `2j + 1` exists and is nonzero, bit 2 when both do, and bit 3 exactly when
/// the positions come from the same turn. Without positions it is one zero tensor.
pub proof fn lemma_first_level(positions: Seq<u32>, same_turn: bool)
    ensures
        positions.len() == 0 ==> mera_tower(positions, same_turn)[0] == seq![BinaryTensor { bits: 0 }],
        positions.len() > 0 ==> mera_tower(positions, same_turn)[0].len() == (positions.len() + 1) / 2,
        positions.len() > 0 ==> forall|j: int|
            0 <= j < (positions.len() + 1) / 2 ==> {
                let t = #[trigger] mera_tower(positions, same_turn)[0][j];
                let low = positions[2 * j] != 0;
                let high = 2 * j + 1 < positions.len() && positions[2 * j + 1] != 0;
                &&& bit16(t.bits, 0) == low
                &&& bit16(t.bits, 1) == high
                &&& bit16(t.bits, 2) == (low && high)
                &&& bit16(t.bits, 3) == same_turn
                &&& t.bits < 16
            },
{
    lemma_tower_shape(leaf_level(positions, same_turn), (MERA_MAX_LEVELS - 1) as nat);
    let first = mera_tower(positions, same_turn)[0];
    assert(first == leaf_level(positions, same_turn));
    if positions.len() > 0 {
        assert forall|j: int| 0 <= j < (positions.len() + 1) / 2 implies {
            let t = #[trigger] mera_tower(positions, same_turn)[0][j];
            let low = positions[2 * j] != 0;
            let high = 2 * j + 1 < positions.len() && positions[2 * j + 1] != 0;
            &&& bit16(t.bits, 0) == low
            &&& bit16(t.bits, 1) == high
            &&& bit16(t.bits, 2) == (low && high)
            &&& bit16(t.bits, 3) == same_turn
            &&& t.bits < 16
        } by {
            let low = positions[2 * j] != 0;
            let high = 2 * j + 1 < positions.len() && positions[2 * j + 1] != 0;
            lemma_pair_bits(low, high, same_turn);
        }
    }
}

/// Contraction is symmetric, scores at most 16, scores 16 exactly for equal tensors
/// and 0 for a tensor with its complement, and is 16 less the number of bits set in
/// the XOR of the two tensors.
pub proof fn lemma_contract_laws(a: BinaryTensor, b: BinaryTensor)
    ensures
        contract_spec(a, b) == contract_spec(b, a),
        contract_spec(a, b) <= 16,
        contract_spec(a, b) == 16 - ones16(a.bits ^ b.bits, 16),
        (contract_spec(a, b) == 16) == (a == b),
        contract_spec(a, a) == 16,
        contract_spec(a, BinaryTensor { bits: !a.bits }) == 0,
{
    lemma_agreement16_laws(a.bits, b.bits, 16);
    lemma_xnor_ones16(a.bits, b.bits, 16);
    lemma_agreement16_full(a.bits, b.bits);
}

/// The tower starts at its level; each next level is the coarsening of the one before,
/// which held more than one tensor, and has half its size rounded up; there are at most
/// `steps + 1` levels, and fewer only when the last level holds at most one tensor.
pub proof fn lemma_tower_shape(level: Seq<BinaryTensor>, steps: nat)
    ensures
        1 <= tower(level, steps).len() <= steps + 1,
        tower(level, steps)[0] == level,
        forall|i: int| 0 <= i < tower(level, steps).len() - 1 ==> {
            &&& #[trigger] tower(level, steps)[i + 1] == coarsen(tower(level, steps)[i])
            &&& tower(level, steps)[i].len() > 1
            &&& tower(level, steps)[i + 1].len() == (tower(level, steps)[i].len() + 1) / 2
        },
        tower(level, steps).len() < steps + 1 ==> tower(level, steps).last().len() <= 1,
    decreases steps,
{
    if steps > 0 && level.len() > 1 {
        let rest = tower(coarsen(level), (steps - 1) as nat);
        lemma_tower_shape(coarsen(level), (steps - 1) as nat);
        let t = tower(level, steps);
        assert(t == seq![level] + rest);
        assert forall|i: int| 0 <= i < t.len() - 1 implies {
            &&& #[trigger] t[i + 1] == coarsen(t[i])
            &&& t[i].len() > 1
            &&& t[i + 1].len() == (t[i].len() + 1) / 2
        } by {
            if i > 0 {
                assert(t[i] == rest[i - 1]);
                assert(t[i + 1] == rest[(i - 1) + 1]);
            }
        }
    }
}

/// The fine and coarse levels together are the whole tower, and the fine part holds at
/// most `MERA_FINE_COARSE_BOUNDARY` levels.
pub proof fn lemma_split_rejoins(
    whole: Seq<Seq<BinaryTensor>>,
    fine: Seq<Seq<BinaryTensor>>,
    coarse: Seq<Seq<BinaryTensor>>,
)
    requires
        fine == whole.take(
            if whole.len() < MERA_FINE_COARSE_BOUNDARY { whole.len() as int } else { MERA_FINE_COARSE_BOUNDARY as int },
        ),
        coarse == if MERA_FINE_COARSE_BOUNDARY < whole.len() {
            whole.skip(MERA_FINE_COARSE_BOUNDARY as int)
        } else {
            Seq::empty()
        },
    ensures
        fine + coarse == whole,
        fine.len() <= MERA_FINE_COARSE_BOUNDARY,
{
    assert(fine + coarse =~= whole);
}

} // verus!
