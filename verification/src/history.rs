//! What a store shows after a history of appends, deletes, seals and compactions,
//! stated over the ids that the appends returned and the ids that the deletes named.
use vstd::prelude::*;
use roaring::RoaringBitmap;
use crate::bitset::bits;
use crate::waistore::{
    WAIStore, Segment, named_set, segments_rows, segments_deleted, segments_predicate, segments_visible,
    append_step, delete_step, seal_step, compact_step,
};

verus! {

/// One call on a store: an append with its tags, the id it was given if any and the id
/// it returned; a delete with the id it named; a seal; a compaction.
pub enum StoreOp {
    Append { tags: Seq<Seq<char>>, given: Option<u32>, id: u32 },
    Delete { id: u32 },
    Seal,
    Compact,
}

/// The ids that the appends of the history returned.
pub open spec fn appended_ids(h: Seq<StoreOp>) -> Set<u32>
    decreases h.len(),
{
    if h.len() == 0 {
        Set::empty()
    } else {
        let earlier = appended_ids(h.drop_last());
        match h.last() {
            StoreOp::Append { id, .. } => earlier.insert(id),
            _ => earlier,
        }
    }
}

/// The ids that the deletes of the history named.
pub open spec fn deleted_ids(h: Seq<StoreOp>) -> Set<u32>
    decreases h.len(),
{
    if h.len() == 0 {
        Set::empty()
    } else {
        let earlier = deleted_ids(h.drop_last());
        match h.last() {
            StoreOp::Delete { id } => earlier.insert(id),
            _ => earlier,
        }
    }
}

/// The ids returned by the appends of the history whose tags hold `name`.
pub open spec fn tagged_ids(h: Seq<StoreOp>, name: Seq<char>) -> Set<u32>
    decreases h.len(),
{
    if h.len() == 0 {
        Set::empty()
    } else {
        let earlier = tagged_ids(h.drop_last(), name);
        match h.last() {
            StoreOp::Append { tags, id, .. } => if tags.contains(name) {
                earlier.insert(id)
            } else {
                earlier
            },
            _ => earlier,
        }
    }
}

/// Whether every append of the history was given no id, taking the next one.
pub open spec fn all_fresh(h: Seq<StoreOp>) -> bool
    decreases h.len(),
{
    h.len() == 0 || (all_fresh(h.drop_last()) && match h.last() {
        StoreOp::Append { given, .. } => given is None,
        _ => true,
    })
}

/// Whether every delete of the history named an id that an earlier append returned.
pub open spec fn deletes_appended(h: Seq<StoreOp>) -> bool
    decreases h.len(),
{
    h.len() == 0 || (deletes_appended(h.drop_last()) && match h.last() {
        StoreOp::Delete { id } => appended_ids(h.drop_last()).contains(id),
        _ => true,
    })
}

/// Whether the history holds a compaction.
pub open spec fn compacted(h: Seq<StoreOp>) -> bool
    decreases h.len(),
{
    h.len() > 0 && (compacted(h.drop_last()) || h.last() is Compact)
}

/// What holds of a store that the history, run from a new store, leads to: the next id
/// lies past every appended id and just past the greatest; the store holds only
/// appended rows, deletions of named ids and tags of tagged appends, and exactly those
/// while it has no segment or no compaction has run; where every delete named an
/// appended id, the deleted ids were appended; where moreover every append took the
/// next id, the rows held and not deleted are the appended ids less the deleted ones,
/// and every held row that an append tagged is held under the tag.
pub open spec fn history_holds(s: WAIStore, h: Seq<StoreOp>) -> bool {
    let a = appended_ids(h);
    let d = deleted_ids(h);
    &&& s.wf()
    &&& forall|x: u32| a.contains(x) ==> x < s.next_id_spec()
    &&& s.next_id_spec() > 0 ==> a.contains((s.next_id_spec() - 1) as u32)
    &&& s.all_rows_spec().subset_of(a)
    &&& s.all_deleted_spec().subset_of(d)
    &&& forall|n: Seq<char>| (#[trigger] s.all_predicate_spec(n)).subset_of(tagged_ids(h, n))
    &&& (s.segments_spec().len() == 0 || !compacted(h)) ==> {
        &&& s.all_rows_spec() == a
        &&& s.all_deleted_spec() == d
        &&& forall|n: Seq<char>| #[trigger] s.all_predicate_spec(n) == tagged_ids(h, n)
    }
    &&& deletes_appended(h) ==> d.subset_of(a)
    &&& all_fresh(h) && deletes_appended(h) ==> s.all_rows_spec().difference(s.all_deleted_spec())
        == a.difference(d)
    &&& all_fresh(h) ==> forall|n: Seq<char>|
        tagged_ids(h, n).intersect(s.all_rows_spec()).subset_of(#[trigger] s.all_predicate_spec(n))
}

/// The tagged ids are appended ids.
pub proof fn lemma_tagged_appended(h: Seq<StoreOp>, name: Seq<char>)
    ensures
        tagged_ids(h, name).subset_of(appended_ids(h)),
    decreases h.len(),
{
    if h.len() > 0 {
        lemma_tagged_appended(h.drop_last(), name);
    }
}

proof fn lemma_push_drop_last(h: Seq<StoreOp>, op: StoreOp)
    ensures
        h.push(op).drop_last() == h,
        h.push(op).last() == op,
        h.push(op).len() > 0,
{
    assert(h.push(op).drop_last() =~= h);
}

proof fn lemma_visible_held(segs: Seq<Segment>)
    ensures
        segments_visible(segs).subset_of(segments_rows(segs)),
    decreases segs.len(),
{
    if segs.len() > 0 {
        lemma_visible_held(segs.drop_last());
    }
}

/// A new store is described by the empty history.
pub proof fn lemma_history_new(s: WAIStore)
    requires
        s.wf(),
        s.head_rows_spec() == Set::<u32>::empty(),
        s.head_deleted_spec() == Set::<u32>::empty(),
        s.head_predicates_spec() == Map::<Seq<char>, RoaringBitmap>::empty(),
        s.segments_spec().len() == 0,
        s.next_id_spec() == 0,
    ensures
        history_holds(s, Seq::<StoreOp>::empty()),
{
    let h = Seq::<StoreOp>::empty();
    assert(s.all_rows_spec() =~= appended_ids(h));
    assert(s.all_deleted_spec() =~= deleted_ids(h));
    assert forall|n: Seq<char>| #[trigger] s.all_predicate_spec(n) == tagged_ids(h, n) by {
        assert(s.all_predicate_spec(n) =~= tagged_ids(h, n));
    }
}

/// An append keeps the description, with the append added to the history. Without a
/// given id it returns an id past every appended id and just past the greatest: 0
/// when none was appended.
pub proof fn lemma_history_append(
    before: WAIStore,
    after: WAIStore,
    h: Seq<StoreOp>,
    tags: Seq<Seq<char>>,
    given: Option<u32>,
    r: u32,
)
    requires
        history_holds(before, h),
        append_step(before, after, tags, given, r),
    ensures
        history_holds(after, h.push(StoreOp::Append { tags, given, id: r })),
        given is None ==> {
            &&& !appended_ids(h).contains(r)
            &&& forall|x: u32| appended_ids(h).contains(x) ==> x < r
            &&& r == 0 <==> appended_ids(h) == Set::<u32>::empty()
            &&& r > 0 ==> appended_ids(h).contains((r - 1) as u32)
        },
{
    let op = StoreOp::Append { tags, given, id: r };
    let h2 = h.push(op);
    lemma_push_drop_last(h, op);
    let a = appended_ids(h);
    let d = deleted_ids(h);
    assert(appended_ids(h2) == a.insert(r));
    assert(deleted_ids(h2) == d);
    assert(compacted(h2) == compacted(h));
    assert(deletes_appended(h2) == deletes_appended(h));
    assert(all_fresh(h2) == (all_fresh(h) && given is None));
    assert forall|n: Seq<char>| #[trigger] tagged_ids(h2, n) == if tags.contains(n) {
        tagged_ids(h, n).insert(r)
    } else {
        tagged_ids(h, n)
    } by {}
    assert(after.all_rows_spec() =~= before.all_rows_spec().insert(r));
    assert(after.all_deleted_spec() =~= before.all_deleted_spec());
    assert forall|n: Seq<char>| #[trigger] after.all_predicate_spec(n) == if tags.contains(n) {
        before.all_predicate_spec(n).insert(r)
    } else {
        before.all_predicate_spec(n)
    } by {
        assert(after.all_predicate_spec(n) =~= if tags.contains(n) {
            before.all_predicate_spec(n).insert(r)
        } else {
            before.all_predicate_spec(n)
        });
    }
    assert(forall|x: u32| appended_ids(h2).contains(x) ==> x < after.next_id_spec());
    if after.next_id_spec() > 0 {
        match given {
            Some(id) => {
                if before.next_id_spec() > id + 1 {
                    assert(a.contains((before.next_id_spec() - 1) as u32));
                }
            },
            None => {},
        }
    }
    assert forall|n: Seq<char>| (#[trigger] after.all_predicate_spec(n)).subset_of(tagged_ids(h2, n)) by {
        assert(before.all_predicate_spec(n).subset_of(tagged_ids(h, n)));
    }
    if after.segments_spec().len() == 0 || !compacted(h2) {
        assert(after.all_rows_spec() =~= appended_ids(h2));
        assert(after.all_deleted_spec() =~= deleted_ids(h2));
        assert forall|n: Seq<char>| #[trigger] after.all_predicate_spec(n) == tagged_ids(h2, n) by {
            assert(before.all_predicate_spec(n) == tagged_ids(h, n));
            assert(after.all_predicate_spec(n) =~= tagged_ids(h2, n));
        }
    }
    if given is None {
        assert(!a.contains(r));
        if r == 0 {
            assert(a =~= Set::<u32>::empty());
        }
        if a == Set::<u32>::empty() && r > 0 {
            assert(a.contains((r - 1) as u32));
        }
    }
    if all_fresh(h2) && deletes_appended(h2) {
        assert(!a.contains(r));
        assert(!before.all_deleted_spec().contains(r));
        let live = before.all_rows_spec().difference(before.all_deleted_spec());
        assert(live == a.difference(d));
        assert(d.subset_of(a));
        assert(!d.contains(r));
        assert forall|x: u32| #[trigger] after.all_rows_spec().difference(after.all_deleted_spec()).contains(x)
            == appended_ids(h2).difference(deleted_ids(h2)).contains(x) by {
            assert(live.contains(x) == a.difference(d).contains(x));
        }
        assert(after.all_rows_spec().difference(after.all_deleted_spec()) =~= appended_ids(h2).difference(
            deleted_ids(h2),
        ));
    }
    if all_fresh(h2) {
        assert forall|n: Seq<char>| tagged_ids(h2, n).intersect(after.all_rows_spec()).subset_of(
            #[trigger] after.all_predicate_spec(n),
        ) by {
            lemma_tagged_appended(h, n);
            assert(tagged_ids(h, n).intersect(before.all_rows_spec()).subset_of(before.all_predicate_spec(n)));
        }
    }
}

/// An append without a given id, after a history in which every delete named an
/// appended id, adds its row to the visible rows and to the rows under each of its
/// tags, leaves every other predicate and the segments as they were.
pub proof fn lemma_fresh_append_shows(
    before: WAIStore,
    after: WAIStore,
    h: Seq<StoreOp>,
    tags: Seq<Seq<char>>,
    r: u32,
)
    requires
        history_holds(before, h),
        append_step(before, after, tags, None, r),
        deletes_appended(h),
    ensures
        after.rows_spec() == before.rows_spec().insert(r),
        forall|t: Seq<char>| #[trigger] after.predicate_spec(t) == if tags.contains(t) {
            before.predicate_spec(t).insert(r)
        } else {
            before.predicate_spec(t)
        },
        after.segments_spec().len() == before.segments_spec().len(),
{
    let a = appended_ids(h);
    assert(!a.contains(r));
    assert(!before.head_deleted_spec().contains(r)) by {
        assert(before.all_deleted_spec().subset_of(deleted_ids(h)));
    }
    assert(after.rows_spec() =~= before.rows_spec().insert(r));
    assert forall|t: Seq<char>| #[trigger] after.predicate_spec(t) == if tags.contains(t) {
        before.predicate_spec(t).insert(r)
    } else {
        before.predicate_spec(t)
    } by {
        lemma_tagged_appended(h, t);
        assert(before.all_predicate_spec(t).subset_of(tagged_ids(h, t)));
        assert(!before.all_predicate_spec(t).contains(r));
        assert(after.predicate_spec(t) =~= if tags.contains(t) {
            before.predicate_spec(t).insert(r)
        } else {
            before.predicate_spec(t)
        });
    }
}

/// A delete keeps the description, with the delete added to the history.
pub proof fn lemma_history_delete(before: WAIStore, after: WAIStore, h: Seq<StoreOp>, id: u32)
    requires
        history_holds(before, h),
        delete_step(before, after, id),
    ensures
        history_holds(after, h.push(StoreOp::Delete { id })),
{
    let op = StoreOp::Delete { id };
    let h2 = h.push(op);
    lemma_push_drop_last(h, op);
    assert(appended_ids(h2) == appended_ids(h));
    assert(deleted_ids(h2) == deleted_ids(h).insert(id));
    assert(compacted(h2) == compacted(h));
    assert(all_fresh(h2) == all_fresh(h));
    assert(deletes_appended(h2) == (deletes_appended(h) && appended_ids(h).contains(id)));
    assert forall|n: Seq<char>| #[trigger] tagged_ids(h2, n) == tagged_ids(h, n) by {}
    assert(after.all_rows_spec() =~= before.all_rows_spec());
    assert(after.all_deleted_spec() =~= before.all_deleted_spec().insert(id));
    assert forall|n: Seq<char>| #[trigger] after.all_predicate_spec(n) == before.all_predicate_spec(n) by {}
    if all_fresh(h2) && deletes_appended(h2) {
        let live = before.all_rows_spec().difference(before.all_deleted_spec());
        assert(live == appended_ids(h).difference(deleted_ids(h)));
        assert forall|x: u32| #[trigger] after.all_rows_spec().difference(after.all_deleted_spec()).contains(x)
            == appended_ids(h2).difference(deleted_ids(h2)).contains(x) by {
            assert(live.contains(x) == appended_ids(h).difference(deleted_ids(h)).contains(x));
        }
        assert(after.all_rows_spec().difference(after.all_deleted_spec()) =~= appended_ids(h2).difference(
            deleted_ids(h2),
        ));
    }
}

/// A seal keeps the description, with the seal added to the history: the store holds
/// the same rows, deletions and predicates, now in its last segment.
pub proof fn lemma_history_seal(before: WAIStore, after: WAIStore, h: Seq<StoreOp>)
    requires
        history_holds(before, h),
        seal_step(before, after),
    ensures
        history_holds(after, h.push(StoreOp::Seal)),
{
    let h2 = h.push(StoreOp::Seal);
    lemma_push_drop_last(h, StoreOp::Seal);
    assert(appended_ids(h2) == appended_ids(h));
    assert(deleted_ids(h2) == deleted_ids(h));
    assert(compacted(h2) == compacted(h));
    assert(all_fresh(h2) == all_fresh(h));
    assert(deletes_appended(h2) == deletes_appended(h));
    assert forall|n: Seq<char>| #[trigger] tagged_ids(h2, n) == tagged_ids(h, n) by {}
    let segs = after.segments_spec();
    assert(after.all_rows_spec() =~= before.all_rows_spec()) by {
        assert(segments_rows(segs) == segments_rows(segs.drop_last()).union(bits(segs.last().rows)));
    }
    assert(after.all_deleted_spec() =~= before.all_deleted_spec()) by {
        assert(segments_deleted(segs) == segments_deleted(segs.drop_last()).union(bits(segs.last().deleted)));
    }
    assert forall|n: Seq<char>| #[trigger] after.all_predicate_spec(n) == before.all_predicate_spec(n) by {
        assert(segments_predicate(segs, n) == segments_predicate(segs.drop_last(), n).union(
            segs.last().predicate_bits(n),
        ));
        assert(named_set(after.head_predicates_spec(), n) == Set::<u32>::empty());
        assert(after.all_predicate_spec(n) =~= before.all_predicate_spec(n));
    }
}

/// A compaction keeps the description, with the compaction added to the history.
pub proof fn lemma_history_compact(before: WAIStore, after: WAIStore, h: Seq<StoreOp>)
    requires
        history_holds(before, h),
        compact_step(before, after),
    ensures
        history_holds(after, h.push(StoreOp::Compact)),
{
    let h2 = h.push(StoreOp::Compact);
    lemma_push_drop_last(h, StoreOp::Compact);
    assert(appended_ids(h2) == appended_ids(h));
    assert(deleted_ids(h2) == deleted_ids(h));
    assert(compacted(h2));
    assert(all_fresh(h2) == all_fresh(h));
    assert(deletes_appended(h2) == deletes_appended(h));
    assert forall|n: Seq<char>| #[trigger] tagged_ids(h2, n) == tagged_ids(h, n) by {}
    if before.segments_spec().len() > 0 {
        let segs = after.segments_spec();
        assert(segs.drop_last() =~= Seq::<Segment>::empty());
        assert(segs.last() == segs[0]);
        let gone = before.all_deleted_spec();
        assert(after.all_rows_spec() =~= before.all_rows_spec().difference(gone)) by {
            assert(segments_rows(segs) == segments_rows(segs.drop_last()).union(bits(segs.last().rows)));
        }
        assert(after.all_deleted_spec() =~= Set::<u32>::empty()) by {
            assert(segments_deleted(segs) == segments_deleted(segs.drop_last()).union(bits(segs.last().deleted)));
        }
        assert forall|n: Seq<char>| #[trigger] after.all_predicate_spec(n) == before.all_predicate_spec(n).difference(
            gone,
        ) by {
            assert(segments_predicate(segs, n) == segments_predicate(segs.drop_last(), n).union(
                segs.last().predicate_bits(n),
            ));
            assert(named_set(after.head_predicates_spec(), n) == Set::<u32>::empty());
            assert(after.all_predicate_spec(n) =~= before.all_predicate_spec(n).difference(gone));
        }
        assert forall|n: Seq<char>| (#[trigger] after.all_predicate_spec(n)).subset_of(tagged_ids(h2, n)) by {
            assert(before.all_predicate_spec(n).subset_of(tagged_ids(h, n)));
        }
        if all_fresh(h2) && deletes_appended(h2) {
            assert(before.all_rows_spec().difference(gone) == appended_ids(h).difference(deleted_ids(h)));
            assert(after.all_rows_spec().difference(after.all_deleted_spec()) =~= appended_ids(h2).difference(
                deleted_ids(h2),
            ));
        }
        if all_fresh(h2) {
            assert forall|n: Seq<char>| tagged_ids(h2, n).intersect(after.all_rows_spec()).subset_of(
                #[trigger] after.all_predicate_spec(n),
            ) by {
                assert(tagged_ids(h, n).intersect(before.all_rows_spec()).subset_of(before.all_predicate_spec(n)));
            }
        }
    }
}

/// Before any seal, the visible rows are the appended ids less the deleted ones.
pub proof fn lemma_rows_before_seal(s: WAIStore, h: Seq<StoreOp>)
    requires
        history_holds(s, h),
        s.segments_spec().len() == 0,
    ensures
        s.rows_spec() == appended_ids(h).difference(deleted_ids(h)),
{
    let segs = s.segments_spec();
    assert(segments_visible(segs) == Set::<u32>::empty());
    assert(segments_rows(segs) == Set::<u32>::empty());
    assert(segments_deleted(segs) == Set::<u32>::empty());
    assert(s.all_rows_spec() =~= s.head_rows_spec());
    assert(s.all_deleted_spec() =~= s.head_deleted_spec());
    assert(s.rows_spec() =~= appended_ids(h).difference(deleted_ids(h)));
}

/// When every append took the next id, the rows under a predicate are the visible rows
/// that an append tagged with it: none for a name never used as a tag.
pub proof fn lemma_predicate_is_tagged(s: WAIStore, h: Seq<StoreOp>, name: Seq<char>)
    requires
        history_holds(s, h),
        all_fresh(h),
    ensures
        s.predicate_spec(name) == tagged_ids(h, name).intersect(s.rows_spec()),
{
    lemma_visible_held(s.segments_spec());
    assert(s.rows_spec().subset_of(s.all_rows_spec()));
    assert(s.all_predicate_spec(name).subset_of(tagged_ids(h, name)));
    assert(tagged_ids(h, name).intersect(s.all_rows_spec()).subset_of(s.all_predicate_spec(name)));
    assert(s.predicate_spec(name) =~= tagged_ids(h, name).intersect(s.rows_spec()));
}

/// When every append took the next id and every delete named an appended id, a
/// compaction of a store with segments leaves one segment whose rows are the appended
/// ids less the deleted ones, and under each predicate the tagged ids less the deleted
/// ones.
pub proof fn lemma_compact_leaves_live(before: WAIStore, after: WAIStore, h: Seq<StoreOp>)
    requires
        history_holds(before, h),
        compact_step(before, after),
        before.segments_spec().len() >= 1,
        all_fresh(h),
        deletes_appended(h),
    ensures
        after.segments_spec().len() == 1,
        after.rows_spec() == appended_ids(h).difference(deleted_ids(h)),
        forall|n: Seq<char>| #[trigger] after.predicate_spec(n) == tagged_ids(h, n).difference(deleted_ids(h)),
{
    let segs = after.segments_spec();
    assert(segs.drop_last() =~= Seq::<Segment>::empty());
    assert(segs.last() == segs[0]);
    assert(segments_visible(segs.drop_last()) == Set::<u32>::empty());
    assert(segments_visible(segs) =~= bits(segs[0].rows));
    assert(after.rows_spec() =~= appended_ids(h).difference(deleted_ids(h)));
    let live = before.all_rows_spec().difference(before.all_deleted_spec());
    assert(live == appended_ids(h).difference(deleted_ids(h)));
    assert forall|n: Seq<char>| #[trigger] after.predicate_spec(n) == tagged_ids(h, n).difference(deleted_ids(h)) by {
        lemma_tagged_appended(h, n);
        assert(named_set(after.head_predicates_spec(), n) == Set::<u32>::empty());
        assert forall|x: u32| tagged_ids(h, n).difference(deleted_ids(h)).contains(x) implies after.predicate_spec(
            n,
        ).contains(x) by {
            assert(live.contains(x));
            assert(before.all_rows_spec().contains(x));
            assert(tagged_ids(h, n).intersect(before.all_rows_spec()).contains(x));
        }
        assert(segments_predicate(segs.drop_last(), n) == Set::<u32>::empty());
        assert(segments_predicate(segs, n) =~= segs[0].predicate_bits(n));
        assert(before.all_predicate_spec(n).subset_of(tagged_ids(h, n)));
        assert(tagged_ids(h, n).intersect(before.all_rows_spec()).subset_of(before.all_predicate_spec(n)));
        assert(after.predicate_spec(n) =~= tagged_ids(h, n).difference(deleted_ids(h)));
    }
}

} // verus!
