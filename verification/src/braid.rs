//! Braids of active clusters and their crossings, and the pipeline enums.
use vstd::prelude::*;
use crate::popcount::{agreement32, ones32, count_ones32, lemma_xnor_ones32, lemma_agreement32_full};

verus! {

/// A crossing seen through the text of its two cluster names.
pub open spec fn crossing_view(c: (String, String)) -> (Seq<char>, Seq<char>) {
    (c.0@, c.1@)
}

/// A set of crossings between named clusters; each crossing is held once.
#[derive(Debug)]
pub struct CrossingSet {
    items: Vec<(String, String)>,
}

impl Clone for CrossingSet {
    fn clone(&self) -> (r: Self)
        ensures
            r.items_view() == self.items_view(),
    {
        proof {
            use_type_invariant(self);
        }
        let n = self.items.len();
        let mut items: Vec<(String, String)> = Vec::new();
        for i in 0..n
            invariant
                n == self.items@.len(),
                items@.len() == i,
                forall|k: int| 0 <= k < i ==> crossing_view(#[trigger] items@[k]) == crossing_view(self.items@[k]),
        {
            items.push((self.items[i].0.clone(), self.items[i].1.clone()));
        }
        assert(items@.map_values(|c: (String, String)| crossing_view(c)) =~= self.items_view());
        CrossingSet { items }
    }
}

impl CrossingSet {
    /// The crossings in the order they were added.
    pub closed spec fn items_view(&self) -> Seq<(Seq<char>, Seq<char>)> {
        self.items@.map_values(|c: (String, String)| crossing_view(c))
    }

    /// No crossing is held twice.
    #[verifier::type_invariant]
    closed spec fn wf(&self) -> bool {
        self.items_view().no_duplicates()
    }

    pub closed spec fn view(&self) -> Set<(Seq<char>, Seq<char>)> {
        self.items_view().to_set()
    }

    proof fn lemma_len(&self)
        requires
            self.wf(),
        ensures
            self.items@.len() == self.view().len(),
            self.view().finite(),
    {
        self.items_view().unique_seq_to_set();
    }

    pub fn new() -> (r: Self)
        ensures
            r.view() == Set::<(Seq<char>, Seq<char>)>::empty(),
    {
        let r = Self { items: Vec::new() };
        assert(r.items_view().to_set() =~= Set::empty());
        r
    }

    pub fn len(&self) -> (r: usize)
        ensures
            r == self.view().len(),
    {
        proof {
            use_type_invariant(self);
            self.lemma_len();
        }
        self.items.len()
    }

    pub fn is_empty(&self) -> (r: bool)
        ensures
            r == (self.view() == Set::<(Seq<char>, Seq<char>)>::empty()),
    {
        proof {
            use_type_invariant(self);
            self.lemma_len();
            vstd::set_lib::lemma_set_empty_equivalency_len(self.view());
        }
        self.items.len() == 0
    }

    pub fn contains(&self, item: &(String, String)) -> (r: bool)
        ensures
            r == self.view().contains(crossing_view(*item)),
    {
        let n = self.items.len();
        for i in 0..n
            invariant
                n == self.items@.len(),
                forall|j: int| 0 <= j < i ==> self.items_view()[j] != crossing_view(*item),
        {
            if self.items[i].0 == item.0 && self.items[i].1 == item.1 {
                assert(self.items_view()[i as int] == crossing_view(*item));
                return true;
            }
        }
        false
    }

    /// Adds the crossing; the result says whether it was absent.
    pub fn insert(&mut self, item: (String, String)) -> (r: bool)
        ensures
            final(self).view() == old(self).view().insert(crossing_view(item)),
            r == !old(self).view().contains(crossing_view(item)),
    {
        proof {
            use_type_invariant(&*self);
        }
        if self.contains(&item) {
            assert(self.view().insert(crossing_view(item)) =~= self.view());
            return false;
        }
        let ghost before = self.items_view();
        let mut items: Vec<(String, String)> = Vec::new();
        assert(items@.map_values(|c: (String, String)| crossing_view(c)) =~= Seq::empty());
        std::mem::swap(&mut items, &mut self.items);
        items.push(item);
        assert(items@.map_values(|c: (String, String)| crossing_view(c)) =~= before.push(crossing_view(item)));
        self.items = items;
        proof {
            before.lemma_push_to_set_commute(crossing_view(item));
        }
        true
    }

    /// The number of crossings held by both sets.
    pub fn intersection_count(&self, other: &CrossingSet) -> (r: usize)
        ensures
            r == self.view().intersect(other.view()).len(),
    {
        let n = self.items.len();
        let mut count: usize = 0;
        proof {
            use_type_invariant(self);
            self.lemma_len();
            assert(self.items_view().take(0).to_set().intersect(other.view()) =~= Set::empty());
        }
        for i in 0..n
            invariant
                n == self.items@.len(),
                self.wf(),
                count <= i,
                count == self.items_view().take(i as int).to_set().intersect(other.view()).len(),
        {
            let ghost done = self.items_view().take(i as int);
            let ghost x = self.items_view()[i as int];
            assert(self.items_view().take(i + 1) =~= done.push(x));
            proof {
                done.lemma_push_to_set_commute(x);
                assert(!done.to_set().contains(x)) by {
                    if done.to_set().contains(x) {
                        let k = choose|k: int| 0 <= k < done.len() && done[k] == x;
                        assert(self.items_view()[k] == self.items_view()[i as int]);
                    }
                }
                vstd::seq_lib::seq_to_set_is_finite(done);
            }
            if other.contains(&self.items[i]) {
                assert(done.push(x).to_set().intersect(other.view())
                    =~= done.to_set().intersect(other.view()).insert(x));
                count = count + 1;
            } else {
                assert(done.push(x).to_set().intersect(other.view())
                    =~= done.to_set().intersect(other.view()));
            }
        }
        assert(self.items_view().take(n as int) =~= self.items_view());
        count
    }
}

#[derive(Debug, Clone)]
pub struct Braid {
    pub active_clusters: Vec<String>,
    pub crossings: CrossingSet,
    pub signature: u32,
}

/// The names of the clusters, as text.
pub open spec fn names_view(names: Seq<String>) -> Seq<Seq<char>> {
    names.map_values(|s: String| s@)
}

impl Braid {
    pub fn empty() -> (r: Self)
        ensures
            r.active_clusters@.len() == 0,
            r.crossings.view() == Set::<(Seq<char>, Seq<char>)>::empty(),
            r.signature == 0,
    {
        Self { active_clusters: Vec::new(), crossings: CrossingSet::new(), signature: 0 }
    }

    /// The number of crossings both braids hold and the number that either holds:
    /// the two counts of the Jaccard similarity of the crossings.
    pub fn crossing_overlap(&self, other: &Braid) -> (r: (usize, usize))
        requires
            self.crossings.view().union(other.crossings.view()).len() <= usize::MAX,
        ensures
            r.0 == self.crossings.view().intersect(other.crossings.view()).len(),
            r.1 == self.crossings.view().union(other.crossings.view()).len(),
    {
        let a = self.crossings.len();
        let b = other.crossings.len();
        let i = self.crossings.intersection_count(&other.crossings);
        proof {
            use_type_invariant(&self.crossings);
            use_type_invariant(&other.crossings);
            self.crossings.lemma_len();
            other.crossings.lemma_len();
            vstd::set_lib::lemma_set_intersect_union_lens(self.crossings.view(), other.crossings.view());
            vstd::set_lib::lemma_len_subset(
                self.crossings.view().intersect(other.crossings.view()),
                other.crossings.view(),
            );
        }
        (i, a + (b - i))
    }

    /// XNOR + popcount on u32 signature: 0-32 agreement
    pub fn fast_compare(&self, other: &Braid) -> (r: u32)
        ensures
            r == agreement32(self.signature, other.signature, 32),
            r == 32 - ones32(self.signature ^ other.signature, 32),
            (r == 32) == (self.signature == other.signature),
            r <= 32,
    {
        let xnor = !(self.signature ^ other.signature);
        proof {
            lemma_xnor_ones32(self.signature, other.signature, 32);
            lemma_agreement32_full(self.signature, other.signature);
        }
        count_ones32(xnor)
    }

    pub fn strand_count(&self) -> (r: usize)
        ensures
            r == self.active_clusters@.len(),
    {
        self.active_clusters.len()
    }

    pub fn crossing_count(&self) -> (r: usize)
        ensures
            r == self.crossings.view().len(),
    {
        self.crossings.len()
    }

    pub fn has_cluster(&self, name: &str) -> (r: bool)
        ensures
            r == names_view(self.active_clusters@).contains(name@),
    {
        let key = name.to_owned();
        let n = self.active_clusters.len();
        for i in 0..n
            invariant
                n == self.active_clusters@.len(),
                key@ == name@,
                forall|j: int| 0 <= j < i ==> self.active_clusters@[j]@ != name@,
        {
            if self.active_clusters[i] == key {
                assert(names_view(self.active_clusters@)[i as int] == name@);
                return true;
            }
        }
        assert forall|k: int| 0 <= k < names_view(self.active_clusters@).len()
            implies names_view(self.active_clusters@)[k] != name@ by {
            assert(self.active_clusters@[k]@ != name@);
        }
        false
    }

    /// The clusters of this braid, in order, that the other braid also has.
    pub fn shared_clusters(&self, other: &Braid) -> (r: Vec<String>)
        ensures
            names_view(r@) == names_view(self.active_clusters@).filter(
                |s: Seq<char>| names_view(other.active_clusters@).contains(s),
            ),
    {
        let ghost pred = |s: Seq<char>| names_view(other.active_clusters@).contains(s);
        let ghost all = names_view(self.active_clusters@);
        let mut result: Vec<String> = Vec::new();
        let n = self.active_clusters.len();
        for i in 0..n
            invariant
                n == self.active_clusters@.len(),
                all == names_view(self.active_clusters@),
                pred == (|s: Seq<char>| names_view(other.active_clusters@).contains(s)),
                names_view(result@) == all.take(i as int).filter(pred),
        {
            reveal_with_fuel(Seq::<_>::filter, 1);
            let c = &self.active_clusters[i];
            assert(all.take(i + 1).drop_last() =~= all.take(i as int));
            let ghost before = result@;
            assert(all.take(i + 1).last() == c@);
            let name = c.as_str();
            assert(name@ == c@);
            let shared = other.has_cluster(name);
            assert(shared == names_view(other.active_clusters@).contains(c@));
            assert(shared == pred(c@));
            if shared {
                result.push(c.clone());
                assert(names_view(result@) =~= names_view(before).push(c@));
            }
            assert(all.take(i + 1).filter(pred) == if pred(c@) {
                all.take(i as int).filter(pred).push(c@)
            } else {
                all.take(i as int).filter(pred)
            });
        }
        assert(all.take(n as int) =~= all);
        result
    }
}

#[derive(Debug, Clone, Copy, PartialEq, Eq, Structural)]
pub enum Stage {
    Rest,
    Shadow,
    Signal,
    Care,
    Next,
}

#[derive(Debug, Clone, Copy, PartialEq, Eq, Structural)]
pub enum Vote {
    Left,
    Center,
    Right,
}

} // verus!
