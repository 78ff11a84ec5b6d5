//! RUBICS encoding: sweetening bits into a cube, flavoring them back out, and the
//! dance that keeps what survives both directions.
use vstd::prelude::*;
use roaring::RoaringBitmap;
use crate::bitset::{bits, bm_new, bm_or, bm_and, bm_or_assign, bm_sub_assign};

verus! {

#[derive(Debug, Clone)]
pub struct Cube {
    pub region: RoaringBitmap,
    pub uncertainty: RoaringBitmap,
    pub bridge: RoaringBitmap,
    pub identity: RoaringBitmap,
    pub correlation: RoaringBitmap,
    pub sequence: RoaringBitmap,
}

/// `bits` with `add` joined in and then `remove` taken out.
pub open spec fn modulated(b: Set<u32>, add: Set<u32>, remove: Set<u32>) -> Set<u32> {
    b.union(add).difference(remove)
}

impl Cube {
    /// The bits of all six faces together.
    pub open spec fn flat_spec(self) -> Set<u32> {
        bits(self.region).union(bits(self.uncertainty)).union(bits(self.bridge)).union(
            bits(self.identity),
        ).union(bits(self.correlation)).union(bits(self.sequence))
    }

    pub open spec fn is_empty_cube(self) -> bool {
        &&& bits(self.region) == Set::<u32>::empty()
        &&& bits(self.uncertainty) == Set::<u32>::empty()
        &&& bits(self.bridge) == Set::<u32>::empty()
        &&& bits(self.identity) == Set::<u32>::empty()
        &&& bits(self.correlation) == Set::<u32>::empty()
        &&& bits(self.sequence) == Set::<u32>::empty()
    }

    pub fn empty() -> (r: Self)
        ensures
            r.is_empty_cube(),
    {
        Self {
            region: bm_new(),
            uncertainty: bm_new(),
            bridge: bm_new(),
            identity: bm_new(),
            correlation: bm_new(),
            sequence: bm_new(),
        }
    }

    pub fn flat(&self) -> (r: RoaringBitmap)
        ensures
            bits(r) == self.flat_spec(),
    {
        let mut u = self.region.clone();
        bm_or_assign(&mut u, &self.uncertainty);
        bm_or_assign(&mut u, &self.bridge);
        bm_or_assign(&mut u, &self.identity);
        bm_or_assign(&mut u, &self.correlation);
        bm_or_assign(&mut u, &self.sequence);
        u
    }
}

#[derive(Debug, Clone)]
pub struct Sugar {
    pub boost: RoaringBitmap,
    pub suppress: RoaringBitmap,
}

#[derive(Debug, Clone)]
pub struct Spice {
    pub amplify: RoaringBitmap,
    pub filter_out: RoaringBitmap,
}

impl Sugar {
    pub fn neutral() -> (r: Self)
        ensures
            bits(r.boost) == Set::<u32>::empty(),
            bits(r.suppress) == Set::<u32>::empty(),
    {
        Self { boost: bm_new(), suppress: bm_new() }
    }

    /// The spice that amplifies what this sugar boosts and filters what it suppresses.
    pub fn mirror(&self) -> (r: Spice)
        ensures
            bits(r.amplify) == bits(self.boost),
            bits(r.filter_out) == bits(self.suppress),
    {
        Spice { amplify: self.boost.clone(), filter_out: self.suppress.clone() }
    }
}

impl Spice {
    pub fn neutral() -> (r: Self)
        ensures
            bits(r.amplify) == Set::<u32>::empty(),
            bits(r.filter_out) == Set::<u32>::empty(),
    {
        Self { amplify: bm_new(), filter_out: bm_new() }
    }

    /// The sugar that boosts what this spice amplifies and suppresses what it filters.
    pub fn mirror(&self) -> (r: Sugar)
        ensures
            bits(r.boost) == bits(self.amplify),
            bits(r.suppress) == bits(self.filter_out),
    {
        Sugar { boost: self.amplify.clone(), suppress: self.filter_out.clone() }
    }
}

/// `bits`, boosted and then suppressed by the sugar.
pub fn sweeten(b: &RoaringBitmap, sugar: &Sugar) -> (r: RoaringBitmap)
    ensures
        bits(r) == modulated(bits(*b), bits(sugar.boost), bits(sugar.suppress)),
{
    let mut r = bm_or(b, &sugar.boost);
    bm_sub_assign(&mut r, &sugar.suppress);
    r
}

/// `bits`, amplified and then filtered by the spice.
pub fn flavor(b: &RoaringBitmap, spice: &Spice) -> (r: RoaringBitmap)
    ensures
        bits(r) == modulated(bits(*b), bits(spice.amplify), bits(spice.filter_out)),
{
    let mut r = bm_or(b, &spice.amplify);
    bm_sub_assign(&mut r, &spice.filter_out);
    r
}

/// A cube whose region face holds the sweetened bits and whose other faces are empty.
pub fn rubics_encode(b: &RoaringBitmap, sugar: &Sugar) -> (r: Cube)
    ensures
        bits(r.region) == modulated(bits(*b), bits(sugar.boost), bits(sugar.suppress)),
        bits(r.uncertainty) == Set::<u32>::empty(),
        bits(r.bridge) == Set::<u32>::empty(),
        bits(r.identity) == Set::<u32>::empty(),
        bits(r.correlation) == Set::<u32>::empty(),
        bits(r.sequence) == Set::<u32>::empty(),
{
    Cube {
        region: sweeten(b, sugar),
        uncertainty: bm_new(),
        bridge: bm_new(),
        identity: bm_new(),
        correlation: bm_new(),
        sequence: bm_new(),
    }
}

/// The bits of all faces of the cube, flavored by the spice.
pub fn rubics_decode(cube: &Cube, spice: &Spice) -> (r: RoaringBitmap)
    ensures
        bits(r) == modulated(cube.flat_spec(), bits(spice.amplify), bits(spice.filter_out)),
{
    flavor(&cube.flat(), spice)
}

/// The bits that survive encoding with `(boost, suppress)` and decoding with
/// `(amplify, filter_out)`, and also the mirrored pass that encodes with
/// `(amplify, filter_out)` and decodes with `(boost, suppress)`.
pub open spec fn danced(
    b: Set<u32>,
    boost: Set<u32>,
    suppress: Set<u32>,
    amplify: Set<u32>,
    filter_out: Set<u32>,
) -> Set<u32> {
    modulated(modulated(b, boost, suppress), amplify, filter_out).intersect(
        modulated(modulated(b, amplify, filter_out), boost, suppress),
    )
}

/// Encode+decode in both directions; intersection = bits that survive both passes.
pub fn dance(b: &RoaringBitmap, sugar: &Sugar, spice: &Spice) -> (r: RoaringBitmap)
    ensures
        bits(r) == danced(
            bits(*b),
            bits(sugar.boost),
            bits(sugar.suppress),
            bits(spice.amplify),
            bits(spice.filter_out),
        ),
{
    let encoded = rubics_encode(b, sugar);
    let forward = rubics_decode(&encoded, spice);
    let mirror_sugar = spice.mirror();
    let mirror_spice = sugar.mirror();
    let encoded_back = rubics_encode(b, &mirror_sugar);
    let backward = rubics_decode(&encoded_back, &mirror_spice);
    assert(encoded.flat_spec() =~= bits(encoded.region));
    assert(encoded_back.flat_spec() =~= bits(encoded_back.region));
    bm_and(&forward, &backward)
}

/// A flattened cube holds a bit exactly when one of its six faces (region, uncertainty,
/// bridge, identity, correlation, sequence) holds it, so every face lies within it; a
/// spice that amplifies and filters nothing decodes a cube to those same bits.
pub proof fn lemma_flat_gathers_faces(c: Cube, x: u32)
    ensures
        c.flat_spec().contains(x) <==> (bits(c.region).contains(x) || bits(c.uncertainty).contains(x) || bits(
            c.bridge,
        ).contains(x) || bits(c.identity).contains(x) || bits(c.correlation).contains(x) || bits(
            c.sequence,
        ).contains(x)),
        bits(c.region).subset_of(c.flat_spec()),
        bits(c.uncertainty).subset_of(c.flat_spec()),
        bits(c.bridge).subset_of(c.flat_spec()),
        bits(c.identity).subset_of(c.flat_spec()),
        bits(c.correlation).subset_of(c.flat_spec()),
        bits(c.sequence).subset_of(c.flat_spec()),
        modulated(c.flat_spec(), Set::empty(), Set::empty()).contains(x) == c.flat_spec().contains(x),
{
}

/// Mirroring a sugar into a spice and that spice back into a sugar gives back the
/// modifiers of the first sugar.
pub proof fn lemma_mirror_round_trip(sugar: Sugar, spice: Spice, back: Sugar)
    requires
        bits(spice.amplify) == bits(sugar.boost),
        bits(spice.filter_out) == bits(sugar.suppress),
        bits(back.boost) == bits(spice.amplify),
        bits(back.suppress) == bits(spice.filter_out),
    ensures
        bits(back.boost) == bits(sugar.boost),
        bits(back.suppress) == bits(sugar.suppress),
{
}

/// Every bit that neither modifier takes out survives the dance, and nothing survives
/// that was neither given nor added, or that either modifier takes out.
pub proof fn lemma_dance_bounds(
    b: Set<u32>,
    boost: Set<u32>,
    suppress: Set<u32>,
    amplify: Set<u32>,
    filter_out: Set<u32>,
)
    ensures
        b.difference(suppress.union(filter_out)).subset_of(danced(b, boost, suppress, amplify, filter_out)),
        danced(b, boost, suppress, amplify, filter_out).subset_of(
            b.union(boost).union(amplify).difference(suppress.union(filter_out)),
        ),
{
}

/// With neutral modifiers the dance gives back exactly the bits it was given.
pub proof fn lemma_dance_neutral(b: Set<u32>)
    ensures
        danced(b, Set::empty(), Set::empty(), Set::empty(), Set::empty()) == b,
{
    assert(danced(b, Set::empty(), Set::empty(), Set::empty(), Set::empty()) =~= b);
}

/// The dance is the same when the sugar and the spice trade places through their mirrors.
pub proof fn lemma_dance_mirror_symmetric(
    b: Set<u32>,
    boost: Set<u32>,
    suppress: Set<u32>,
    amplify: Set<u32>,
    filter_out: Set<u32>,
)
    ensures
        danced(b, boost, suppress, amplify, filter_out) == danced(b, amplify, filter_out, boost, suppress),
{
    assert(danced(b, boost, suppress, amplify, filter_out) =~= danced(b, amplify, filter_out, boost, suppress));
}

} // verus!
