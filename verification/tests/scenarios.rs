use bitmatrix::{
    adaptive_dilation_radius, dance, dilate_bounded, BinaryTensor, BitCloud, BitMatrix, BitRole, Braid,
    FieldLayers, Memory, MemoryStore, Spice, Sugar, WAIStore, ALL_REGIONS, REGION_0_FINGERPRINT,
    REGION_1_CONTENT, TOTAL_BITS,
};
use roaring::RoaringBitmap;

#[test]
fn region_boundaries_cover_full_space() {
    let mut covered = RoaringBitmap::new();
    for &(_, (start, end)) in &ALL_REGIONS {
        covered.insert_range(start..=end);
    }
    assert_eq!(covered.len(), TOTAL_BITS as u64);
}

#[test]
fn bitcloud_promote() {
    let mut cloud = BitCloud::empty();
    cloud.sugar.insert(10);
    cloud.sugar.insert(20);
    cloud.promote(&[10], BitRole::Sugar, BitRole::Holy);

    assert!(!cloud.sugar.contains(10));
    assert!(cloud.holy.contains(10));
    assert!(cloud.sugar.contains(20));
    assert_eq!(cloud.classify(10), Some(BitRole::Holy));
}

#[test]
fn rubics_dance_holy_bits() {
    let mut bits = RoaringBitmap::new();
    bits.insert_range(100..=110);

    let sugar = Sugar::neutral();
    let spice = Spice::neutral();
    let holy = dance(&bits, &sugar, &spice);
    // With neutral modifiers, all bits survive both directions
    assert_eq!(holy, bits);
}

#[test]
fn dilate_bounded_stays_in_region() {
    let mut bm = RoaringBitmap::new();
    // Bit at start of content region
    bm.insert(REGION_1_CONTENT.0);
    let dilated = dilate_bounded(&bm, 5);
    // Should not leak into fingerprint region
    assert!(!dilated.contains(REGION_0_FINGERPRINT.1));
    assert!(dilated.contains(REGION_1_CONTENT.0));
    assert!(dilated.contains(REGION_1_CONTENT.0 + 5));
}

#[test]
fn field_density() {
    let mut exact = RoaringBitmap::new();
    exact.insert(5000);
    let mut bridges = RoaringBitmap::new();
    bridges.insert(5000);
    let peripheral = RoaringBitmap::new();

    let field = FieldLayers::new(exact, bridges, peripheral);
    assert_eq!(field.density_at(5000), 2);
    assert_eq!(field.density_at(5001), 0);
}

#[test]
fn bitmatrix_query_overlaps() {
    let mut store = MemoryStore::new();

    let mut f1 = FieldLayers::empty();
    f1.exact.insert_range(1000..=1010);
    store.insert(Memory {
        memory_id: 0,
        field: f1,
        raw_text: String::new(),
        timestamp_bits: 0.0f64.to_bits(),
        turn_count: 1,
        mera_fine: None,
        mera_coarse: None,
        braid: None,
    });

    let mut f2 = FieldLayers::empty();
    f2.exact.insert_range(1005..=1015);
    store.insert(Memory {
        memory_id: 0,
        field: f2,
        raw_text: String::new(),
        timestamp_bits: 1.0f64.to_bits(),
        turn_count: 1,
        mera_fine: None,
        mera_coarse: None,
        braid: None,
    });

    let matrix = BitMatrix::build(&store);
    let mut query = RoaringBitmap::new();
    query.insert_range(1005..=1010);

    let overlaps = matrix.query_overlaps(&query);
    // Memory 0: bits 1005-1010 overlap (6 bits)
    assert_eq!(overlaps[0].1, 6);
    // Memory 1: bits 1005-1010 overlap (6 bits)
    assert_eq!(overlaps[1].1, 6);
}

#[test]
fn waistore_roundtrip() {
    let mut store = WAIStore::new();
    store.append(&["person", "active"], &[("age", 25)], None);
    store.append(&["person"], &[("age", 30)], None);
    store.append(&["bot"], &[("age", 0)], None);

    let persons = store.predicate("person");
    assert_eq!(persons.len(), 2);

    let active = store.predicate("active");
    assert_eq!(active.len(), 1);

    store.delete(1);
    let persons_after = store.predicate("person");
    assert_eq!(persons_after.len(), 1);

    store.seal();
    assert_eq!(store.segment_count(), 1);
    assert_eq!(store.rows().len(), 2);
}

#[test]
fn mera_contract() {
    let a = BinaryTensor::new(0b1010_1010_1010_1010);
    let b = BinaryTensor::new(0b1010_1010_1010_1010);
    assert_eq!(a.contract(&b), 16); // perfect agreement

    let c = BinaryTensor::new(0b0101_0101_0101_0101);
    assert_eq!(a.contract(&c), 0); // total disagreement
}

#[test]
fn braid_compare() {
    let mut a = Braid::empty();
    a.crossings.insert(("body".into(), "emotion".into()));
    a.crossings.insert(("food".into(), "body".into()));
    a.signature = 0xDEAD_BEEF;

    let mut b = Braid::empty();
    b.crossings.insert(("body".into(), "emotion".into()));
    b.signature = 0xDEAD_BEEE;

    // Jaccard similarity of the crossings: shared over all.
    let (shared, all) = a.crossing_overlap(&b);
    let similarity = shared as f64 / all as f64;
    assert!(similarity > 0.0 && similarity < 1.0);
    assert!(a.fast_compare(&b) > 28); // signatures differ by 1 bit
}

#[test]
fn adaptive_radius_shrinks() {
    assert_eq!(adaptive_dilation_radius(10), 3);
    assert_eq!(adaptive_dilation_radius(100), 3);
    assert!(adaptive_dilation_radius(1000) < 3);
    assert!(adaptive_dilation_radius(10000) >= 1);
}
