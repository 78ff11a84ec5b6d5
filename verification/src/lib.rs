//! Bit-matrix memory: a fixed layout of 32 000 bits in regions, a taxonomy of bit
//! roles, RUBICS encoding, field layers, batch overlap queries, a segmented row store
//! with predicates and bit-plane numbers, MERA towers and braids.
pub mod bitset;
pub mod braid;
pub mod field;
pub mod history;
pub mod layout;
pub mod matrix;
pub mod mera;
pub mod named;
pub mod numbers;
pub mod popcount;
pub mod rubics;
pub mod taxonomy;
pub mod waistore;

pub use bitset::bitmap_from_values;
pub use braid::{Braid, CrossingSet, Stage, Vote};
pub use field::{FieldLayers, Memory, MemoryStore, NUM_LAYERS};
pub use layout::{
    adaptive_dilation_radius, dilate, dilate_bounded, read_region, region_cardinality, region_is_empty,
    ALL_REGIONS, BP_SCALE_0, BP_SCALE_1, R0_EMOTIONAL, R0_ENTITY, R0_GRAMMAR, R0_INTENT, R0_STRUCTURAL,
    R6_SEQUENCE, R6_TOKEN_MAP, REGION_0_FINGERPRINT, REGION_1_CONTENT, REGION_2_CONVERSATION_BP,
    REGION_3_CROSS_TURN, REGION_4_RESERVED, REGION_5_RESERVED, REGION_6_PIECE, TOTAL_BITS,
};
pub use matrix::BitMatrix;
pub use mera::{
    build_mera_from_bits, contract_levels, BinaryTensor, MeraCoarse, MeraFine, MERA_FINE_COARSE_BOUNDARY,
    MERA_MAX_LEVELS,
};
pub use numbers::{FrozenNumber, MutableNumber};
pub use rubics::{dance, flavor, rubics_decode, rubics_encode, sweeten, Cube, Spice, Sugar};
pub use taxonomy::{BitCloud, BitRole, Coherence, Phase};
pub use waistore::{Segment, WAIStore};
