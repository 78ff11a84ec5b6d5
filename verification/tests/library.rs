use bitmatrix::{
    adaptive_dilation_radius, build_mera_from_bits, contract_levels, dance, dilate, dilate_bounded, flavor,
    read_region, region_cardinality, region_is_empty, rubics_decode, rubics_encode, sweeten, BinaryTensor,
    BitCloud, BitMatrix, BitRole, Braid, Coherence, CrossingSet, Cube, FieldLayers, FrozenNumber, Memory,
    MemoryStore, MeraFine, MutableNumber, Spice, Sugar, WAIStore, ALL_REGIONS, BP_SCALE_0, BP_SCALE_1,
    MERA_FINE_COARSE_BOUNDARY, MERA_MAX_LEVELS, R0_GRAMMAR, R0_STRUCTURAL, REGION_0_FINGERPRINT,
    REGION_1_CONTENT, REGION_2_CONVERSATION_BP, REGION_6_PIECE, TOTAL_BITS,
};
use roaring::RoaringBitmap;

fn bitmap(values: &[u32]) -> RoaringBitmap {
    let mut b = RoaringBitmap::new();
    for &v in values {
        b.insert(v);
    }
    b
}

fn values(b: &RoaringBitmap) -> Vec<u32> {
    b.iter().collect()
}

fn memory(exact: RoaringBitmap) -> Memory {
    let mut field = FieldLayers::empty();
    field.exact = exact;
    Memory {
        memory_id: 99,
        field,
        raw_text: String::from("text"),
        timestamp_bits: 2.5f64.to_bits(),
        turn_count: 3,
        mera_fine: None,
        mera_coarse: None,
        braid: None,
    }
}

#[test]
fn regions_are_contiguous_and_tile_the_space() {
    assert_eq!(ALL_REGIONS[0].1 .0, 0);
    for i in 0..6 {
        assert_eq!(ALL_REGIONS[i].1 .1 + 1, ALL_REGIONS[i + 1].1 .0);
    }
    assert_eq!(ALL_REGIONS[6].1 .1 + 1, TOTAL_BITS);
    assert_eq!(R0_GRAMMAR.0, REGION_0_FINGERPRINT.0);
    assert_eq!(R0_STRUCTURAL.1, REGION_0_FINGERPRINT.1);
    assert_eq!(BP_SCALE_0.1 + 1, BP_SCALE_1.0);
    assert_eq!(BP_SCALE_1.1, REGION_2_CONVERSATION_BP.1);
}

#[test]
fn read_region_keeps_only_bits_inside_the_bounds() {
    let b = bitmap(&[5, 999, 1000, 1500, 19_999, 20_000, 40_000]);
    assert_eq!(values(&read_region(&b, REGION_1_CONTENT)), vec![1000, 1500, 19_999]);
    assert_eq!(values(&read_region(&b, REGION_0_FINGERPRINT)), vec![5, 999]);
    assert_eq!(region_cardinality(&b, REGION_1_CONTENT), 3);
    assert!(!region_is_empty(&b, REGION_1_CONTENT));
    assert!(region_is_empty(&b, REGION_6_PIECE));
    assert!(region_is_empty(&RoaringBitmap::new(), REGION_0_FINGERPRINT));
}

#[test]
fn dilate_widens_without_regard_for_regions() {
    let b = bitmap(&[0, 1000]);
    assert_eq!(values(&dilate(&b, 2)), vec![0, 1, 2, 998, 999, 1000, 1001, 1002]);
    assert_eq!(dilate(&b, 0), b);
}

#[test]
fn dilate_bounded_clips_to_region_and_drops_outside_bits() {
    let b = bitmap(&[1001, 31_999, 40_000]);
    assert_eq!(values(&dilate_bounded(&b, 2)), vec![1000, 1001, 1002, 1003, 31_997, 31_998, 31_999]);
    // With a radius of 0 every bit stays, also those outside all regions.
    assert_eq!(dilate_bounded(&b, 0), b);
    // Bounded dilation never exceeds unbounded dilation.
    let bounded = dilate_bounded(&b, 2);
    let unbounded = dilate(&b, 2);
    assert!(bounded.is_subset(&unbounded));
}

#[test]
fn dilation_radius_steps_down_and_never_grows() {
    assert_eq!(adaptive_dilation_radius(0), 3);
    assert_eq!(adaptive_dilation_radius(199), 3);
    assert_eq!(adaptive_dilation_radius(200), 2);
    assert_eq!(adaptive_dilation_radius(399), 2);
    assert_eq!(adaptive_dilation_radius(400), 1);
    assert_eq!(adaptive_dilation_radius(usize::MAX), 1);
    let mut prev = 3;
    for s in (0..2000).step_by(7) {
        let r = adaptive_dilation_radius(s);
        assert!(r <= prev && r >= 1);
        prev = r;
    }
}

#[test]
fn coherence_classes_follow_the_ratio() {
    assert_eq!(Coherence::from_ratio(5, 0), Coherence::Diffuse);
    assert_eq!(Coherence::from_ratio(0, 0), Coherence::Diffuse);
    assert_eq!(Coherence::from_ratio(1, 1), Coherence::Tight);
    assert_eq!(Coherence::from_ratio(19, 10), Coherence::Tight);
    assert_eq!(Coherence::from_ratio(2, 1), Coherence::Moderate);
    assert_eq!(Coherence::from_ratio(39, 10), Coherence::Moderate);
    assert_eq!(Coherence::from_ratio(4, 1), Coherence::Diffuse);
    assert_eq!(Coherence::from_ratio(u64::MAX, u64::MAX), Coherence::Tight);
    let field = FieldLayers::new(bitmap(&[1, 2]), RoaringBitmap::new(), bitmap(&[1, 2, 3, 4, 5]));
    assert_eq!(field.coherence(), Coherence::Moderate);
}

#[test]
fn classify_follows_the_priority_order() {
    let mut cloud = BitCloud::empty();
    cloud.sugar.insert(1);
    cloud.holy.insert(1);
    cloud.death.insert(2);
    cloud.needy.insert(3);
    cloud.dirty.insert(3);
    assert_eq!(cloud.classify(1), Some(BitRole::Holy));
    assert_eq!(cloud.classify(2), Some(BitRole::Death));
    assert_eq!(cloud.classify(3), Some(BitRole::Needy));
    assert_eq!(cloud.classify(4), None);
    assert_eq!(values(&cloud.all_bits()), vec![1, 2, 3]);
}

#[test]
fn promote_moves_only_held_positions_and_keeps_all_bits() {
    let mut cloud = BitCloud::empty();
    cloud.pocket.insert(7);
    cloud.pocket.insert(8);
    let before = cloud.all_bits();
    cloud.promote(&[7, 9, 7], BitRole::Pocket, BitRole::Compleks);
    assert_eq!(values(&cloud.pocket), vec![8]);
    assert_eq!(values(&cloud.compleks), vec![7]);
    assert!(!cloud.compleks.contains(9));
    assert_eq!(cloud.all_bits(), before);
    // Promoting into the same role changes nothing.
    cloud.promote(&[8], BitRole::Pocket, BitRole::Pocket);
    assert_eq!(values(&cloud.pocket), vec![8]);
}

#[test]
fn sweeten_and_flavor_add_then_remove() {
    let bits = bitmap(&[1, 2, 3]);
    let sugar = Sugar { boost: bitmap(&[4, 5]), suppress: bitmap(&[2, 5]) };
    assert_eq!(values(&sweeten(&bits, &sugar)), vec![1, 3, 4]);
    let spice = Spice { amplify: bitmap(&[9]), filter_out: bitmap(&[1]) };
    assert_eq!(values(&flavor(&bits, &spice)), vec![2, 3, 9]);
}

#[test]
fn encode_fills_the_region_face_and_decode_reads_all_faces() {
    let bits = bitmap(&[10, 11]);
    let sugar = Sugar { boost: bitmap(&[12]), suppress: bitmap(&[10]) };
    let cube = rubics_encode(&bits, &sugar);
    assert_eq!(values(&cube.region), vec![11, 12]);
    assert!(cube.uncertainty.is_empty() && cube.bridge.is_empty() && cube.identity.is_empty());
    assert!(cube.correlation.is_empty() && cube.sequence.is_empty());
    let mut other = Cube::empty();
    other.bridge.insert(30);
    other.sequence.insert(31);
    assert_eq!(values(&other.flat()), vec![30, 31]);
    let spice = Spice { amplify: bitmap(&[40]), filter_out: bitmap(&[31]) };
    assert_eq!(values(&rubics_decode(&other, &spice)), vec![30, 40]);
}

#[test]
fn mirrors_swap_the_modifiers() {
    let sugar = Sugar { boost: bitmap(&[1]), suppress: bitmap(&[2]) };
    let spice = sugar.mirror();
    assert_eq!(spice.amplify, sugar.boost);
    assert_eq!(spice.filter_out, sugar.suppress);
    let back = spice.mirror();
    assert_eq!(back.boost, sugar.boost);
    assert_eq!(back.suppress, sugar.suppress);
}

#[test]
fn dance_keeps_what_survives_both_directions() {
    let bits = bitmap(&[1, 2, 3, 4]);
    let sugar = Sugar { boost: bitmap(&[5]), suppress: bitmap(&[1]) };
    let spice = Spice { amplify: bitmap(&[6]), filter_out: bitmap(&[2]) };
    let result = dance(&bits, &sugar, &spice);
    assert_eq!(values(&result), vec![3, 4, 5, 6]);
    // Trading the sugar and spice through their mirrors gives the same dance.
    let swapped = dance(&bits, &spice.mirror(), &sugar.mirror());
    assert_eq!(swapped, result);
}

#[test]
fn field_layers_report_sizes_and_layers() {
    let field = FieldLayers::new(bitmap(&[1, 2, 3]), bitmap(&[3, 4]), bitmap(&[9]));
    assert_eq!(field.popcount(), 3);
    assert_eq!(field.total_field_size(), 6);
    assert_eq!(field.density_at(3), 2);
    assert_eq!(field.density_at(9), 1);
    assert_eq!(field.layer(0), Some(&field.exact));
    assert_eq!(field.layer(1), None);
    assert_eq!(field.layer(2), Some(&field.bridges));
    assert_eq!(field.layer(3), Some(&field.peripheral));
    assert_eq!(field.layer(4), None);
}

#[test]
fn memory_reads_its_exact_layer() {
    let m = memory(bitmap(&[10, 1000, 1001, 30_000]));
    assert_eq!(m.popcount(), 4);
    assert_eq!(values(&m.region_bits(REGION_1_CONTENT)), vec![1000, 1001]);
}

#[test]
fn memory_store_numbers_memories_in_order() {
    let mut store = MemoryStore::new();
    assert!(store.is_empty());
    assert_eq!(store.insert(memory(bitmap(&[1]))), 0);
    assert_eq!(store.insert(memory(bitmap(&[2]))), 1);
    assert_eq!(store.len(), 2);
    assert!(!store.is_empty());
    assert_eq!(store.all_ids(), vec![0, 1]);
    assert_eq!(store.get(1).unwrap().memory_id, 1);
    assert_eq!(values(&store.get(1).unwrap().field.exact), vec![2]);
    assert!(store.get(2).is_none());
    store.get_mut(0).unwrap().turn_count = 42;
    assert_eq!(store.get(0).unwrap().turn_count, 42);
    assert!(store.get_mut(5).is_none());
}

#[test]
fn bit_matrix_counts_overlaps_per_row() {
    let mut store = MemoryStore::new();
    store.insert(memory(bitmap(&[1, 2, 3])));
    store.insert(memory(bitmap(&[3, 4, 500])));
    let matrix = BitMatrix::build(&store);
    assert_eq!(matrix.cols(), 501);
    assert_eq!(matrix.binary_matmul(&bitmap(&[3, 4])), vec![1, 2]);
    let heads = [bitmap(&[1]), bitmap(&[500, 2])];
    let all = matrix.query_multi_head(&heads);
    assert_eq!(all, vec![vec![(0, 1), (1, 0)], vec![(0, 1), (1, 1)]]);
}

#[test]
fn bit_matrix_of_empty_rows_has_the_full_width() {
    let mut store = MemoryStore::new();
    store.insert(memory(bitmap(&[0])));
    let matrix = BitMatrix::build(&store);
    assert_eq!(matrix.cols(), TOTAL_BITS);
    assert_eq!(BitMatrix::build(&MemoryStore::new()).cols(), TOTAL_BITS);
}

#[test]
fn frozen_number_reads_bits_from_planes() {
    let mut n = FrozenNumber::empty();
    assert_eq!(n.get(3), None);
    n.exists.insert(3);
    n.planes = vec![bitmap(&[3]), bitmap(&[]), bitmap(&[3, 4])];
    assert_eq!(n.get(3), Some(5));
    assert_eq!(n.get(4), None);
}

#[test]
fn numbers_read_back_what_was_written() {
    let mut m = MutableNumber::new();
    m.add(7, 12_345);
    m.add(8, 0);
    m.add(9, u64::MAX);
    let f = m.freeze();
    assert_eq!(f.planes.len(), 64);
    assert_eq!(f.get(7), Some(12_345));
    assert_eq!(f.get(8), Some(0));
    assert_eq!(f.get(9), Some(u64::MAX));
    assert_eq!(f.get(10), None);
}

#[test]
fn writing_a_row_twice_ors_the_values() {
    let mut m = MutableNumber::new();
    m.add(1, 0b0101);
    m.add(1, 0b0011);
    assert_eq!(m.freeze().get(1), Some(0b0111));
}

#[test]
fn append_takes_given_ids_and_moves_the_next_one() {
    let mut store = WAIStore::new();
    assert_eq!(store.append(&["a"], &[], Some(10)), 10);
    assert_eq!(store.append(&["a", "b"], &[("n", 1)], None), 11);
    assert_eq!(store.append(&[], &[], Some(3)), 3);
    assert_eq!(store.append(&["b"], &[], None), 12);
    assert_eq!(values(&store.rows()), vec![3, 10, 11, 12]);
    assert_eq!(values(&store.predicate("a")), vec![10, 11]);
    assert_eq!(values(&store.predicate("b")), vec![11, 12]);
    assert!(store.predicate("missing").is_empty());
}

#[test]
fn queries_combine_row_sets() {
    let mut store = WAIStore::new();
    for _ in 0..5 {
        store.append(&[], &[], None);
    }
    let a = bitmap(&[0, 1, 2]);
    let b = bitmap(&[2, 3]);
    assert_eq!(values(&store.query_and(&a, &b)), vec![2]);
    assert_eq!(values(&store.query_or(&a, &b)), vec![0, 1, 2, 3]);
    assert_eq!(values(&store.query_xor(&a, &b)), vec![0, 1, 3]);
    assert_eq!(values(&store.query_diff(&a, &b)), vec![0, 1]);
    assert_eq!(values(&store.query_complement(&a)), vec![3, 4]);
    store.delete(4);
    assert_eq!(values(&store.query_complement(&a)), vec![3]);
}

#[test]
fn deleted_rows_leave_rows_and_predicates() {
    let mut store = WAIStore::new();
    store.append(&["t"], &[], None);
    store.append(&["t"], &[], None);
    store.seal();
    store.delete(0);
    assert_eq!(values(&store.rows()), vec![1]);
    assert_eq!(values(&store.predicate("t")), vec![1]);
}

#[test]
fn a_later_seal_shows_a_row_deleted_after_the_earlier_seal_again() {
    let mut store = WAIStore::new();
    store.append(&["t"], &[], None);
    store.seal();
    store.delete(0);
    assert!(store.rows().is_empty());
    assert_eq!(store.seal(), 2);
    assert_eq!(values(&store.rows()), vec![0]);
}

#[test]
fn compact_merges_into_one_segment_and_drops_deleted_rows() {
    let mut store = WAIStore::new();
    store.append(&["x"], &[("v", 3)], None);
    store.append(&["x", "y"], &[("v", 4)], None);
    store.seal();
    store.append(&["y"], &[("w", 1)], None);
    store.delete(0);
    let before = store.rows();
    store.compact();
    assert_eq!(store.segment_count(), 1);
    assert_eq!(values(&store.rows()), vec![1, 2]);
    assert!(store.rows().is_subset(&before));
    assert_eq!(values(&store.predicate("x")), vec![1]);
    assert_eq!(values(&store.predicate("y")), vec![1, 2]);
}

#[test]
fn compact_never_brings_a_row_back() {
    let mut store = WAIStore::new();
    store.append(&["t"], &[], None);
    store.seal();
    store.delete(0);
    store.seal();
    // The second seal shows row 0 again; compaction hides it for good.
    assert_eq!(values(&store.rows()), vec![0]);
    store.compact();
    assert!(store.rows().is_empty());
    assert!(store.predicate("t").is_empty());
}

#[test]
fn compact_without_segments_changes_nothing() {
    let mut store = WAIStore::new();
    store.append(&["t"], &[], None);
    store.compact();
    assert_eq!(store.segment_count(), 0);
    assert_eq!(values(&store.predicate("t")), vec![0]);
}

#[test]
fn pair_tensors_set_their_bits() {
    assert_eq!(BinaryTensor::from_pair(false, false, false).bits, 0);
    assert_eq!(BinaryTensor::from_pair(true, false, false).bits, 0b0001);
    assert_eq!(BinaryTensor::from_pair(false, true, true).bits, 0b1010);
    assert_eq!(BinaryTensor::from_pair(true, true, true).bits, 0b1111);
}

#[test]
fn contraction_counts_agreeing_bits() {
    let a = BinaryTensor::new(0b0000_0000_0000_1111);
    let b = BinaryTensor::new(0b0000_0000_0000_0011);
    assert_eq!(a.contract(&b), 14);
    assert_eq!(b.contract(&a), 14);
    assert_eq!(a.contract(&a), 16);
    assert_eq!(a.contract(&BinaryTensor::new(!a.bits)), 0);
}

#[test]
fn mera_tower_of_no_positions_is_one_zero_tensor() {
    let (fine, coarse) = build_mera_from_bits(&[], true);
    assert_eq!(fine.num_levels(), 1);
    assert_eq!(fine.level(0), &[BinaryTensor::new(0)]);
    assert_eq!(coarse.num_levels(), 0);
    assert!(fine.level(1).is_empty());
}

#[test]
fn mera_tower_pairs_and_contracts() {
    let (fine, coarse) = build_mera_from_bits(&[1, 0, 0, 7, 5], false);
    assert_eq!(fine.num_levels(), 3);
    assert_eq!(
        fine.level(0),
        &[
            BinaryTensor::from_pair(true, false, false),
            BinaryTensor::from_pair(false, true, false),
            BinaryTensor::from_pair(true, false, false),
        ]
    );
    let first = fine.level(0)[0].contract(&fine.level(0)[1]) as u16;
    assert_eq!(fine.level(1), &[BinaryTensor::new(first), BinaryTensor::from_pair(true, false, false)]);
    assert_eq!(fine.level(2).len(), 1);
    assert_eq!(coarse.num_levels(), 0);
}

#[test]
fn mera_tower_splits_fine_and_coarse() {
    let positions: Vec<u32> = (0..1000).collect();
    let (fine, coarse) = build_mera_from_bits(&positions, true);
    // 500, 250, 125, 63, 32, 16, 8, 4, 2, 1 tensors: ten levels.
    assert_eq!(fine.num_levels(), MERA_FINE_COARSE_BOUNDARY);
    assert_eq!(coarse.num_levels(), 2);
    assert_eq!(fine.level(0).len(), 500);
    assert_eq!(coarse.level(1).len(), 1);
    assert!(fine.num_levels() + coarse.num_levels() <= MERA_MAX_LEVELS);
}

#[test]
fn contract_levels_averages_shared_pairs() {
    let a = MeraFine::new(vec![
        vec![BinaryTensor::new(0xFFFF), BinaryTensor::new(0x0000)],
        vec![],
        vec![BinaryTensor::new(0x00FF)],
    ]);
    let b = MeraFine::new(vec![
        vec![BinaryTensor::new(0xFFFF), BinaryTensor::new(0x000F), BinaryTensor::new(1)],
        vec![BinaryTensor::new(0)],
    ]);
    let means = contract_levels(&a, &b);
    assert_eq!(means.len(), 1);
    // (16 + 12) / 2
    assert_eq!(means.get(&0), Some(&14));
    assert_eq!(means.get(&1), None);
    assert_eq!(means.get(&2), None);
}

#[test]
fn braid_clusters_and_crossings() {
    let mut a = Braid::empty();
    a.active_clusters = vec!["body".to_string(), "food".to_string(), "sky".to_string()];
    let mut b = Braid::empty();
    b.active_clusters = vec!["sky".to_string(), "body".to_string()];
    assert_eq!(a.strand_count(), 3);
    assert!(a.has_cluster("food"));
    assert!(!b.has_cluster("food"));
    assert_eq!(a.shared_clusters(&b), vec!["body".to_string(), "sky".to_string()]);
    assert!(a.crossings.insert(("a".to_string(), "b".to_string())));
    assert!(!a.crossings.insert(("a".to_string(), "b".to_string())));
    assert!(a.crossings.insert(("b".to_string(), "a".to_string())));
    assert_eq!(a.crossing_count(), 2);
    assert_eq!(a.crossing_overlap(&b), (0, 2));
    assert_eq!(Braid::empty().crossing_overlap(&Braid::empty()), (0, 0));
    assert_eq!(a.fast_compare(&a), 32);
    b.signature = !a.signature;
    assert_eq!(a.fast_compare(&b), 0);
}

#[test]
fn crossing_sets_hold_each_crossing_once() {
    let mut s = CrossingSet::new();
    assert!(s.is_empty());
    s.insert(("x".to_string(), "y".to_string()));
    assert!(s.contains(&("x".to_string(), "y".to_string())));
    assert!(!s.contains(&("y".to_string(), "x".to_string())));
    let mut t = CrossingSet::new();
    t.insert(("x".to_string(), "y".to_string()));
    t.insert(("z".to_string(), "y".to_string()));
    assert_eq!(s.intersection_count(&t), 1);
    assert_eq!(t.len(), 2);
}

#[test]
fn seal_keeps_rows_and_predicates_when_no_older_row_was_deleted() {
    let mut store = WAIStore::new();
    store.append(&["a"], &[], None);
    store.seal();
    store.append(&["a", "b"], &[], None);
    store.append(&["b"], &[], None);
    store.delete(2);
    let rows = store.rows();
    let a = store.predicate("a");
    let b = store.predicate("b");
    assert_eq!(store.seal(), 2);
    assert_eq!(store.rows(), rows);
    assert_eq!(store.predicate("a"), a);
    assert_eq!(store.predicate("b"), b);
    assert_eq!(values(&rows), vec![0, 1]);
}

#[test]
fn contraction_is_sixteen_less_the_differing_bits() {
    let pairs: [(u16, u16); 4] = [(0, 0), (0xffff, 0), (0b1010_0101, 0b0110_0101), (0x1234, 0x1235)];
    for (x, y) in pairs {
        let a = BinaryTensor::new(x);
        let b = BinaryTensor::new(y);
        let score = a.contract(&b);
        assert_eq!(score, 16 - (x ^ y).count_ones());
        assert_eq!(score == 16, x == y);
    }
    assert_eq!(BinaryTensor::new(0x1234).contract(&BinaryTensor::new(0x1235)), 15);
}

#[test]
fn cloned_and_frozen_numbers_read_what_was_added() {
    let mut m = MutableNumber::new();
    m.add(4, 9);
    let before = m.clone().freeze();
    m.add(4, 6);
    m.add(5, 2);
    let after = m.clone().freeze();
    assert_eq!(before.get(4), Some(9));
    assert_eq!(after.get(4), Some(9 | 6));
    assert_eq!(after.get(5), Some(2));
    assert_eq!(before.get(5), None);
    assert_eq!(m.freeze().get(4), Some(15));
}

#[test]
fn rows_before_any_seal_are_appended_less_deleted() {
    let mut store = WAIStore::new();
    let mut appended = Vec::new();
    for _ in 0..6 {
        appended.push(store.append(&[], &[], None));
    }
    assert_eq!(appended, vec![0, 1, 2, 3, 4, 5]);
    store.delete(1);
    store.delete(4);
    assert_eq!(store.segment_count(), 0);
    assert_eq!(values(&store.rows()), vec![0, 2, 3, 5]);
}

#[test]
fn fresh_ids_follow_the_greatest_appended() {
    let mut store = WAIStore::new();
    assert_eq!(store.append(&[], &[], None), 0);
    assert_eq!(store.append(&[], &[], Some(41)), 41);
    assert_eq!(store.append(&[], &[], Some(7)), 7);
    assert_eq!(store.append(&[], &[], None), 42);
    store.seal();
    store.compact();
    assert_eq!(store.append(&[], &[], None), 43);
}

#[test]
fn a_fresh_append_adds_its_row_and_tags_only() {
    let mut store = WAIStore::new();
    store.append(&["a"], &[], None);
    store.append(&["b"], &[], None);
    store.seal();
    store.delete(0);
    let rows = store.rows();
    let a = store.predicate("a");
    let b = store.predicate("b");
    let id = store.append(&["a", "c"], &[], None);
    assert_eq!(id, 2);
    let mut expected = rows.clone();
    expected.insert(id);
    assert_eq!(store.rows(), expected);
    let mut expected_a = a.clone();
    expected_a.insert(id);
    assert_eq!(store.predicate("a"), expected_a);
    assert_eq!(store.predicate("b"), b);
    assert_eq!(values(&store.predicate("c")), vec![2]);
    assert_eq!(store.segment_count(), 1);
}

#[test]
fn predicates_are_tagged_rows_that_are_visible() {
    let mut store = WAIStore::new();
    store.append(&["t"], &[], None);
    store.append(&["u"], &[], None);
    store.append(&["t", "u"], &[], None);
    store.seal();
    store.append(&["t"], &[], None);
    store.delete(2);
    // Tagged "t": 0, 2, 3; visible: 0, 1, 3.
    assert_eq!(values(&store.predicate("t")), vec![0, 3]);
    assert_eq!(values(&store.predicate("u")), vec![1]);
    assert!(store.predicate("never").is_empty());
}

#[test]
fn compact_leaves_appended_less_deleted() {
    let mut store = WAIStore::new();
    store.append(&["t"], &[], None);
    store.append(&["u"], &[], None);
    store.seal();
    store.delete(0);
    store.seal();
    store.append(&["t", "u"], &[], None);
    store.delete(1);
    store.compact();
    assert_eq!(store.segment_count(), 1);
    assert_eq!(values(&store.rows()), vec![2]);
    assert_eq!(values(&store.predicate("t")), vec![2]);
    assert_eq!(values(&store.predicate("u")), vec![2]);
}

#[test]
fn fast_compare_is_thirty_two_less_the_differing_bits() {
    let mut a = Braid::empty();
    let mut b = Braid::empty();
    a.signature = 0xdead_beef;
    b.signature = 0xdead_beee;
    assert_eq!(a.fast_compare(&b), 31);
    b.signature = 0x0000_ffff;
    assert_eq!(a.fast_compare(&b), 32 - (0xdead_beef_u32 ^ 0x0000_ffff).count_ones());
    b.signature = a.signature;
    assert_eq!(a.fast_compare(&b), 32);
}

fn class_of_double_ratio(layer3: u64, layer0: u64) -> Coherence {
    if layer0 == 0 {
        return Coherence::Diffuse;
    }
    let ratio = layer3 as f64 / layer0 as f64;
    if ratio < 2.0 {
        Coherence::Tight
    } else if ratio < 4.0 {
        Coherence::Moderate
    } else {
        Coherence::Diffuse
    }
}

#[test]
fn coherence_rounds_the_ratio_as_doubles_do() {
    // (2^54 + 1) / (2^53 + 1) is just below 2, but as doubles the sizes are 2^54 and 2^53.
    assert_eq!(Coherence::from_ratio((1 << 54) + 1, (1 << 53) + 1), Coherence::Moderate);
    assert_eq!(Coherence::from_ratio((1 << 54) - 1, 1 << 53), Coherence::Moderate);
    assert_eq!(Coherence::from_ratio((1 << 53) - 1, (1 << 52) - 1), Coherence::Moderate);
    let bases: [u64; 10] = [
        1,
        3,
        10,
        (1 << 52) - 1,
        1 << 52,
        (1 << 53) - 1,
        1 << 53,
        (1 << 53) + 1,
        1 << 62,
        u64::MAX / 4,
    ];
    for &b in &bases {
        for db in 0..5u64 {
            let layer0 = b.saturating_add(db).saturating_sub(2);
            for factor in [1u64, 2, 4] {
                let center = layer0.saturating_mul(factor);
                for offset in 0..9u64 {
                    let layer3 = center.saturating_add(offset).saturating_sub(4);
                    assert_eq!(
                        Coherence::from_ratio(layer3, layer0),
                        class_of_double_ratio(layer3, layer0),
                        "layer3 = {}, layer0 = {}",
                        layer3,
                        layer0
                    );
                }
            }
        }
    }
}

#[test]
fn bitmap_from_values_holds_each_value_once() {
    let b = bitmatrix::bitmap_from_values(&[5, 1, 5, 70_000, 1]);
    assert_eq!(values(&b), vec![1, 5, 70_000]);
    assert!(bitmatrix::bitmap_from_values(&[]).is_empty());
}

#[test]
fn coherence_agrees_with_double_ratio_on_many_sizes() {
    let mut state: u64 = 0x9e37_79b9_7f4a_7c15;
    let mut next = || {
        state = state.wrapping_mul(6_364_136_223_846_793_005).wrapping_add(1_442_695_040_888_963_407);
        state
    };
    for _ in 0..20_000 {
        let shift = next() % 64;
        let layer0 = (next() >> shift).max(1);
        let factor = [2u64, 4][(next() % 2) as usize];
        let noise = next() % 2048;
        let center = layer0.saturating_mul(factor);
        let layer3 = if next() % 2 == 0 { center.saturating_add(noise) } else { center.saturating_sub(noise) };
        assert_eq!(
            Coherence::from_ratio(layer3, layer0),
            class_of_double_ratio(layer3, layer0),
            "layer3 = {}, layer0 = {}",
            layer3,
            layer0
        );
    }
}
