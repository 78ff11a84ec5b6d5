//! Field layers of a memory, memories, and the store that numbers them.
use vstd::prelude::*;
use roaring::RoaringBitmap;
use std::collections::BTreeMap;
use crate::bitset::{bits, bm_new, bm_len, bm_contains, lemma_u32_set_bounded};
use crate::braid::Braid;
use crate::layout::{read_region, restrict};
use crate::mera::{MeraCoarse, MeraFine};
use crate::taxonomy::{Coherence, coherence_of};

verus! {

pub const NUM_LAYERS: usize = 4;

#[derive(Debug, Clone)]
pub struct FieldLayers {
    pub exact: RoaringBitmap,
    pub bridges: RoaringBitmap,
    pub peripheral: RoaringBitmap,
}

impl FieldLayers {
    pub fn new(exact: RoaringBitmap, bridges: RoaringBitmap, peripheral: RoaringBitmap) -> (r: Self)
        ensures
            r.exact == exact,
            r.bridges == bridges,
            r.peripheral == peripheral,
    {
        Self { exact, bridges, peripheral }
    }

    pub fn empty() -> (r: Self)
        ensures
            bits(r.exact) == Set::<u32>::empty(),
            bits(r.bridges) == Set::<u32>::empty(),
            bits(r.peripheral) == Set::<u32>::empty(),
    {
        Self::new(bm_new(), bm_new(), bm_new())
    }

    /// Layer 0 is the exact layer, 2 the bridges and 3 the peripheral layer; layer 1 is
    /// computed at inference time and is not held here.
    pub fn layer(&self, idx: usize) -> (r: Option<&RoaringBitmap>)
        ensures
            idx == 0 ==> r == Some(&self.exact),
            idx == 2 ==> r == Some(&self.bridges),
            idx == 3 ==> r == Some(&self.peripheral),
            idx != 0 && idx != 2 && idx != 3 ==> r is None,
    {
        match idx {
            0 => Some(&self.exact),
            2 => Some(&self.bridges),
            3 => Some(&self.peripheral),
            _ => None,  // L1 computed at inference time
        }
    }

    pub fn popcount(&self) -> (r: u64)
        ensures
            r == bits(self.exact).len(),
    {
        bm_len(&self.exact)
    }

    pub fn total_field_size(&self) -> (r: u64)
        ensures
            r == bits(self.exact).len() + bits(self.bridges).len() + bits(self.peripheral).len(),
    {
        proof {
            lemma_u32_set_bounded(bits(self.exact));
            lemma_u32_set_bounded(bits(self.bridges));
            lemma_u32_set_bounded(bits(self.peripheral));
        }
        bm_len(&self.exact) + bm_len(&self.bridges) + bm_len(&self.peripheral)
    }

    /// In how many of the three held layers the position is set.
    pub fn density_at(&self, position: u32) -> (r: u8)
        ensures
            r == (if bits(self.exact).contains(position) { 1int } else { 0int })
                + (if bits(self.bridges).contains(position) { 1int } else { 0int })
                + (if bits(self.peripheral).contains(position) { 1int } else { 0int }),
    {
        let mut d: u8 = 0;
        if bm_contains(&self.exact, position) {
            d += 1;
        }
        if bm_contains(&self.bridges, position) {
            d += 1;
        }
        if bm_contains(&self.peripheral, position) {
            d += 1;
        }
        d
    }

    /// The coherence of the peripheral layer relative to the exact layer.
    pub fn coherence(&self) -> (r: Coherence)
        ensures
            r == coherence_of(bits(self.peripheral).len() as u64, bits(self.exact).len() as u64),
    {
        Coherence::from_ratio(bm_len(&self.peripheral), bm_len(&self.exact))
    }
}

#[derive(Debug, Clone)]
pub struct Memory {
    pub memory_id: u32,
    pub field: FieldLayers,
    pub raw_text: String,
    /// The IEEE 754 bits of the timestamp (as `f64::to_bits` gives them).
    pub timestamp_bits: u64,
    pub turn_count: u32,
    pub mera_fine: Option<MeraFine>,
    pub mera_coarse: Option<MeraCoarse>,
    pub braid: Option<Braid>,
}

impl Memory {
    pub fn popcount(&self) -> (r: u64)
        ensures
            r == bits(self.field.exact).len(),
    {
        self.field.popcount()
    }

    /// The bits of the exact layer that lie in `region`.
    pub fn region_bits(&self, region: (u32, u32)) -> (r: RoaringBitmap)
        ensures
            bits(r) == restrict(bits(self.field.exact), region),
    {
        read_region(&self.field.exact, region)
    }
}

/// `BTreeMap::get_mut`: a mutable borrow of the value under the key, or nothing when
/// the key is absent; what is written through the borrow becomes the key's value and
/// nothing else in the map changes.
#[verifier::external_body]
fn memories_get_mut(m: &mut BTreeMap<u32, Memory>, id: u32) -> (r: Option<&mut Memory>)
    ensures
        old(m)@.contains_key(id) ==> (r matches Some(v) && *v == old(m)@[id] && final(m)@ == old(m)@.insert(
            id,
            *final(v),
        )),
        !old(m)@.contains_key(id) ==> r is None && final(m)@ == old(m)@,
{
    m.get_mut(&id)
}

/// The memory under `id`, if any.
fn memories_lookup(m: &BTreeMap<u32, Memory>, id: u32) -> (r: Option<&Memory>)
    ensures
        r matches Some(v) ==> m@.contains_key(id) && *v == m@[id],
        r is None ==> !m@.contains_key(id),
{
    broadcast use vstd::std_specs::btree::group_btree_axioms;
    broadcast use vstd::laws_cmp::group_laws_cmp;
    m.get(&id)
}

/// The number of memories held.
fn memories_count(m: &BTreeMap<u32, Memory>) -> (r: usize)
    ensures
        r == m@.len(),
{
    broadcast use vstd::std_specs::btree::group_btree_axioms;
    broadcast use vstd::laws_cmp::group_laws_cmp;
    m.len()
}

/// Memories numbered from 0 in the order they were inserted, kept by id.
#[derive(Debug, Clone)]
pub struct MemoryStore {
    memories: BTreeMap<u32, Memory>,
    next_id: u32,
}

impl MemoryStore {
    /// The memories in the order of their ids; memory `i` is stored under id `i`.
    pub closed spec fn memories_spec(&self) -> Seq<Memory> {
        Seq::new(self.next_id as nat, |i: int| self.memories@[i as u32])
    }

    /// The ids held are exactly those below the next id.
    pub closed spec fn wf(&self) -> bool {
        forall|i: u32| #[trigger] self.memories@.contains_key(i) <==> i < self.next_id
    }

    pub fn new() -> (r: Self)
        ensures
            r.wf(),
            r.memories_spec().len() == 0,
    {
        let r = Self { memories: BTreeMap::new(), next_id: 0 };
        assert(r.memories@.dom() =~= Set::<u32>::new(|i: u32| i < 0));
        r
    }

    /// Stores the memory under the next id, which it also records as its own id.
    pub fn insert(&mut self, mem: Memory) -> (r: u32)
        requires
            old(self).wf(),
            old(self).memories_spec().len() < u32::MAX,
        ensures
            final(self).wf(),
            r == old(self).memories_spec().len(),
            final(self).memories_spec() == old(self).memories_spec().push(Memory { memory_id: r, ..mem }),
    {
        broadcast use vstd::std_specs::btree::group_btree_axioms;
        broadcast use vstd::laws_cmp::group_laws_cmp;
        let ghost orig = mem;
        let mut mem = mem;
        let id = self.next_id;
        mem.memory_id = id;
        self.memories.insert(id, mem);
        self.next_id += 1;
        assert(self.memories@.dom() =~= Set::<u32>::new(|i: u32| i < self.next_id));
        assert(self.memories_spec() =~= old(self).memories_spec().push(Memory { memory_id: id, ..orig }));
        id
    }

    pub fn get(&self, id: u32) -> (r: Option<&Memory>)
        requires
            self.wf(),
        ensures
            (id as int) < self.memories_spec().len() ==> r == Some(&self.memories_spec()[id as int]),
            (id as int) >= self.memories_spec().len() ==> r is None,
    {
        let r = memories_lookup(&self.memories, id);
        assert(self.memories@.dom().contains(id) == (id < self.next_id));
        r
    }

    pub fn get_mut(&mut self, id: u32) -> (r: Option<&mut Memory>)
        requires
            old(self).wf(),
        ensures
            (id as int) < old(self).memories_spec().len() ==> (r matches Some(m) && *m == old(
                self,
            ).memories_spec()[id as int] && final(self).memories_spec() == old(self).memories_spec().update(
                id as int,
                *final(m),
            )),
            (id as int) >= old(self).memories_spec().len() ==> r is None && final(self).memories_spec()
                == old(self).memories_spec(),
            final(self).wf(),
    {
        assert(self.memories@.dom().contains(id) == (id < self.next_id));
        memories_get_mut(&mut self.memories, id)
    }

    /// The ids of all memories, ascending.
    pub fn all_ids(&self) -> (r: Vec<u32>)
        requires
            self.wf(),
        ensures
            r@.len() == self.memories_spec().len(),
            forall|i: int| 0 <= i < r@.len() ==> r@[i] == i,
    {
        let n = self.next_id;
        let mut ids: Vec<u32> = Vec::new();
        for i in 0..n
            invariant
                n == self.next_id,
                ids@.len() == i,
                forall|k: int| 0 <= k < i ==> ids@[k] == k,
        {
            ids.push(i);
        }
        ids
    }

    pub fn len(&self) -> (r: usize)
        requires
            self.wf(),
        ensures
            r == self.memories_spec().len(),
    {
        proof {
            <u32 as vstd::set_lib::FiniteRange>::range_properties(0u32, self.next_id);
            assert(self.memories@.dom() =~= <u32 as vstd::set_lib::FiniteRange>::range_set(0u32, self.next_id));
        }
        memories_count(&self.memories)
    }

    pub fn is_empty(&self) -> (r: bool)
        requires
            self.wf(),
        ensures
            r == (self.memories_spec().len() == 0),
    {
        let r = self.memories.is_empty();
        proof {
            if self.next_id > 0 {
                assert(self.memories@.dom().contains(0u32));
            } else {
                assert(self.memories@.dom() =~= Set::<u32>::empty());
            }
        }
        r
    }
}

/// Reading a memory back by the id its insertion returned gives the inserted memory, now
/// carrying that id; the memories stored before are untouched.
pub proof fn lemma_insert_then_get(before: MemoryStore, after: MemoryStore, mem: Memory, id: u32)
    requires
        id == before.memories_spec().len(),
        after.memories_spec() == before.memories_spec().push(Memory { memory_id: id, ..mem }),
    ensures
        after.memories_spec()[id as int] == (Memory { memory_id: id, ..mem }),
        after.memories_spec()[id as int].memory_id == id,
        forall|i: int| 0 <= i < id ==> #[trigger] after.memories_spec()[i] == before.memories_spec()[i],
{
}

} // verus!
