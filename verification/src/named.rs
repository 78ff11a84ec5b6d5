//! Values held under distinct names, in the order the names were first given.
use vstd::prelude::*;

verus! {

/// The map from name text to value that a list of named entries describes; a later
/// entry under the same name would win, but a well-formed list holds each name once.
pub open spec fn map_of<V>(entries: Seq<(String, V)>) -> Map<Seq<char>, V>
    decreases entries.len(),
{
    if entries.len() == 0 {
        Map::empty()
    } else {
        map_of(entries.drop_last()).insert(entries.last().0@, entries.last().1)
    }
}

/// The names of a list of entries, as text.
pub open spec fn names_of<V>(entries: Seq<(String, V)>) -> Seq<Seq<char>> {
    entries.map_values(|e: (String, V)| e.0@)
}

pub proof fn lemma_map_of_dom<V>(entries: Seq<(String, V)>)
    ensures
        forall|k: Seq<char>| #[trigger] map_of(entries).contains_key(k) <==> names_of(entries).contains(k),
    decreases entries.len(),
{
    if entries.len() > 0 {
        let rest = entries.drop_last();
        lemma_map_of_dom(rest);
        assert(map_of(entries) == map_of(rest).insert(entries.last().0@, entries.last().1));
        assert(names_of(entries) =~= names_of(rest).push(entries.last().0@));
        assert forall|k: Seq<char>| #[trigger] map_of(entries).contains_key(k)
            <==> names_of(entries).contains(k) by {
            if names_of(entries).contains(k) {
                let j = choose|j: int| 0 <= j < names_of(entries).len() && names_of(entries)[j] == k;
                if j < rest.len() {
                    assert(names_of(rest)[j] == k);
                    assert(names_of(rest).contains(k));
                }
            }
            if names_of(rest).contains(k) {
                let j = choose|j: int| 0 <= j < names_of(rest).len() && names_of(rest)[j] == k;
                assert(names_of(entries)[j] == k);
            }
            if k == entries.last().0@ {
                assert(names_of(entries)[entries.len() - 1] == k);
            }
        }
    }
}

/// In a list that holds each name once, the value of entry `i` is the value of its name.
pub proof fn lemma_map_of_index<V>(entries: Seq<(String, V)>, i: int)
    requires
        names_of(entries).no_duplicates(),
        0 <= i < entries.len(),
    ensures
        map_of(entries).contains_key(entries[i].0@),
        map_of(entries)[entries[i].0@] == entries[i].1,
    decreases entries.len(),
{
    let rest = entries.drop_last();
    if i < entries.len() - 1 {
        assert(names_of(rest).no_duplicates()) by {
            assert forall|a: int, b: int| 0 <= a < names_of(rest).len() && 0 <= b < names_of(rest).len()
                && a != b implies names_of(rest)[a] != names_of(rest)[b] by {
                assert(names_of(rest)[a] == names_of(entries)[a]);
                assert(names_of(rest)[b] == names_of(entries)[b]);
            }
        }
        lemma_map_of_index(rest, i);
        assert(rest[i] == entries[i]);
        assert(names_of(entries)[i] != names_of(entries)[entries.len() - 1]);
    }
}

/// Giving entry `i` a new value gives its name the new value and changes nothing else.
pub proof fn lemma_map_of_update<V>(entries: Seq<(String, V)>, i: int, v: V)
    requires
        names_of(entries).no_duplicates(),
        0 <= i < entries.len(),
    ensures
        map_of(entries.update(i, (entries[i].0, v))) == map_of(entries).insert(entries[i].0@, v),
        names_of(entries.update(i, (entries[i].0, v))) == names_of(entries),
    decreases entries.len(),
{
    let updated = entries.update(i, (entries[i].0, v));
    assert(names_of(updated) =~= names_of(entries));
    let rest = entries.drop_last();
    assert(names_of(rest).no_duplicates()) by {
        assert forall|a: int, b: int| 0 <= a < names_of(rest).len() && 0 <= b < names_of(rest).len()
            && a != b implies names_of(rest)[a] != names_of(rest)[b] by {
            assert(names_of(rest)[a] == names_of(entries)[a]);
            assert(names_of(rest)[b] == names_of(entries)[b]);
        }
    }
    if i == entries.len() - 1 {
        assert(updated.drop_last() =~= rest);
        assert(map_of(updated) =~= map_of(entries).insert(entries[i].0@, v));
    } else {
        lemma_map_of_update(rest, i, v);
        assert(updated.drop_last() =~= rest.update(i, (rest[i].0, v)));
        assert(names_of(entries)[i] != names_of(entries)[entries.len() - 1]);
        assert(map_of(updated) =~= map_of(entries).insert(entries[i].0@, v));
    }
}

/// One more element of a sequence holds what the shorter prefix held and that element.
pub proof fn lemma_take_succ_contains<A>(s: Seq<A>, k: int, x: A)
    requires
        0 <= k < s.len(),
    ensures
        s.take(k + 1).contains(x) == (s.take(k).contains(x) || x == s[k]),
{
    let t0 = s.take(k);
    let t1 = s.take(k + 1);
    if t1.contains(x) {
        let j = choose|j: int| 0 <= j < t1.len() && t1[j] == x;
        if j < k {
            assert(t0[j] == x);
        }
    }
    if t0.contains(x) {
        let j = choose|j: int| 0 <= j < t0.len() && t0[j] == x;
        assert(t1[j] == x);
    }
    assert(t1[k] == s[k]);
}

/// Two lists that hold the same names, index by index, hold a name together, and under
/// it the values of one same index.
pub proof fn lemma_map_of_parallel<A, B>(ea: Seq<(String, A)>, eb: Seq<(String, B)>, n: Seq<char>)
    requires
        names_of(ea) == names_of(eb),
        names_of(ea).no_duplicates(),
    ensures
        map_of(ea).contains_key(n) == map_of(eb).contains_key(n),
        map_of(ea).contains_key(n) ==> exists|i: int|
            0 <= i < ea.len() && #[trigger] ea[i].0@ == n && eb[i].0@ == n && map_of(ea)[n] == ea[i].1
                && map_of(eb)[n] == eb[i].1,
{
    lemma_map_of_dom(ea);
    lemma_map_of_dom(eb);
    assert(ea.len() == names_of(ea).len() && eb.len() == names_of(eb).len());
    if map_of(ea).contains_key(n) {
        let i = choose|i: int| 0 <= i < names_of(ea).len() && names_of(ea)[i] == n;
        assert(names_of(eb)[i] == n);
        lemma_map_of_index(ea, i);
        lemma_map_of_index(eb, i);
        assert(ea[i].0@ == n && eb[i].0@ == n);
    }
}

/// Values under distinct names.
#[derive(Debug, Clone)]
pub struct Named<V> {
    entries: Vec<(String, V)>,
}

impl<V> Named<V> {
    pub closed spec fn entries_spec(&self) -> Seq<(String, V)> {
        self.entries@
    }

    /// Each name is held once.
    pub open spec fn wf(&self) -> bool {
        names_of(self.entries_spec()).no_duplicates()
    }

    /// The value under each name.
    pub open spec fn view(&self) -> Map<Seq<char>, V> {
        map_of(self.entries_spec())
    }

    pub fn new() -> (r: Self)
        ensures
            r.wf(),
            r.entries_spec().len() == 0,
            r.view() == Map::<Seq<char>, V>::empty(),
    {
        let r = Named { entries: Vec::new() };
        assert(names_of(r.entries@) =~= Seq::<Seq<char>>::empty());
        r
    }

    pub fn len(&self) -> (r: usize)
        ensures
            r == self.entries_spec().len(),
    {
        self.entries.len()
    }

    pub fn name_at(&self, i: usize) -> (r: &String)
        requires
            i < self.entries_spec().len(),
        ensures
            *r == self.entries_spec()[i as int].0,
    {
        &self.entries[i].0
    }

    pub fn value_at(&self, i: usize) -> (r: &V)
        requires
            i < self.entries_spec().len(),
        ensures
            *r == self.entries_spec()[i as int].1,
    {
        &self.entries[i].1
    }

    /// The place of the entry under `key`, if there is one.
    pub fn find(&self, key: &str) -> (r: Option<usize>)
        ensures
            r is None <==> !self.view().contains_key(key@),
            r matches Some(i) ==> i < self.entries_spec().len() && self.entries_spec()[i as int].0@ == key@,
    {
        proof {
            lemma_map_of_dom(self.entries@);
        }
        let k = key.to_owned();
        let n = self.entries.len();
        for i in 0..n
            invariant
                n == self.entries@.len(),
                k@ == key@,
                forall|j: int| 0 <= j < i ==> self.entries@[j].0@ != key@,
                forall|q: Seq<char>| #[trigger] map_of(self.entries@).contains_key(q)
                    <==> names_of(self.entries@).contains(q),
        {
            if self.entries[i].0 == k {
                assert(names_of(self.entries@)[i as int] == key@);
                return Some(i);
            }
        }
        assert forall|j: int| 0 <= j < names_of(self.entries@).len()
            implies names_of(self.entries@)[j] != key@ by {
            assert(self.entries@[j].0@ != key@);
        }
        None
    }

    /// The value under `key`, if any.
    pub fn get(&self, key: &str) -> (r: Option<&V>)
        requires
            self.wf(),
        ensures
            r is None <==> !self.view().contains_key(key@),
            r matches Some(v) ==> self.view()[key@] == *v,
    {
        match self.find(key) {
            Some(i) => {
                proof {
                    lemma_map_of_index(self.entries@, i as int);
                }
                Some(&self.entries[i].1)
            },
            None => None,
        }
    }

    /// The place of the entry under `key`, made with `default` when there is none.
    pub fn slot(&mut self, key: &str, default: V) -> (r: usize)
        requires
            old(self).wf(),
        ensures
            final(self).wf(),
            r < final(self).entries_spec().len(),
            final(self).entries_spec()[r as int].0@ == key@,
            old(self).view().contains_key(key@) ==> final(self).view() == old(self).view()
                && final(self).entries_spec() == old(self).entries_spec(),
            !old(self).view().contains_key(key@) ==> final(self).view() == old(self).view().insert(key@, default)
                && final(self).entries_spec() == old(self).entries_spec().push((final(self).entries_spec()[r as int].0, default)),
    {
        match self.find(key) {
            Some(i) => i,
            None => {
                let ghost before = self.entries@;
                proof {
                    lemma_map_of_dom(before);
                }
                self.entries.push((key.to_owned(), default));
                assert(self.entries@.drop_last() =~= before);
                assert(names_of(self.entries@) =~= names_of(before).push(key@));
                self.entries.len() - 1
            },
        }
    }

    /// The entries, in order.
    pub fn into_entries(self) -> (r: Vec<(String, V)>)
        ensures
            r@ == self.entries_spec(),
    {
        self.entries
    }

    /// Adds an entry under a name that is not held yet.
    pub fn push_new(&mut self, key: String, value: V)
        requires
            old(self).wf(),
            !names_of(old(self).entries_spec()).contains(key@),
        ensures
            final(self).wf(),
            final(self).entries_spec() == old(self).entries_spec().push((key, value)),
    {
        let ghost before = self.entries@;
        self.entries.push((key, value));
        assert(names_of(self.entries@) =~= names_of(before).push(key@));
    }

    /// The value of entry `i`, to change in place.
    pub fn value_mut_at(&mut self, i: usize) -> (r: &mut V)
        requires
            old(self).wf(),
            i < old(self).entries_spec().len(),
        ensures
            *r == old(self).entries_spec()[i as int].1,
            final(self).entries_spec() == old(self).entries_spec().update(
                i as int,
                (old(self).entries_spec()[i as int].0, *final(r)),
            ),
    {
        &mut self.entries[i].1
    }
}

} // verus!
