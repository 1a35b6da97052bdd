//! Roaring bitmap posting lists: containers, wire format, device-tier caches, and the
//! planning of Bool folds on a device.
//!
//! A posting list is a set of 32-bit document ids. It is kept as buckets of 65536 ids
//! (`high16` is the upper half of an id), each in one of three container forms.
//!
//! - [`container`] gathers the container forms: [`array`] for few keys, [`bitmap`] for
//!   dense buckets, [`run`] for consecutive keys. [`canonical`] says which form a bucket
//!   gets, and that equal sets get equal containers.
//! - [`postings`] is the posting list with its wire format, [`encoder`] builds one from a
//!   stream of ids, [`decoder`] walks and seeks in one, and [`from_block_segment`] drains
//!   a block cursor into one. [`posting_format`] tells the wire formats apart.
//! - [`planner`] decides whether a Bool cohort is worth a device launch, [`flat`] lays
//!   posting lists out word by word over common buckets, and [`gpu_dispatch`] folds a
//!   cohort with a word-wise kernel.
//! - [`cuda_dispatch`] plans the same folds step by step for a driver; [`device_plan`]
//!   says what the steps do, and [`fold_laws`] that a plan computes the fold.
//! - [`cht`], [`vram_cht`] and [`vram_cht_v3`] are the three tiers of the posting list
//!   cache: in host memory, on the device, and on the device in compressed form. [`lru`]
//!   is their common store, [`tally`] says what their counters count,
//!   [`shared_bitmap_payload`] is the layout of what goes to the device, [`warm`] fills
//!   them when a segment is opened, and [`kill_switch`] reads the settings that turn them
//!   off.
//! - [`persist`], [`vram_record`] and [`compressed_record`] are the dump format of the
//!   device tiers, with [`segment_id`] and [`wire`] below them.
//! - [`ferro_compress_bridge`] holds the codecs of bitmap containers.
//!
//! The laws of the library stand in modules of their own:
//!
//! - [`set_laws`] and [`doc_laws`] say which keys and documents each form stands for.
//! - [`format_laws`], [`dump_laws`] and [`read_laws`] give the byte formats field by field,
//!   and what a read of them takes.
//! - [`cache_laws`], [`tier_laws`], [`load_laws`] and [`warm_laws`] say what the caches
//!   keep, evict, dump, load and warm, and [`chunk_laws`] that the chunks of a compressed
//!   term hold its words.
//! - [`fold_laws`] and [`device_laws`] say what device plans compute, and which plan a fold
//!   gets.
//!
//! Functions on device memory take the device operations as closures, and so are stated
//! and proved for whatever these do.

pub mod array;
pub mod bitmap;
pub mod cache_laws;
pub mod canonical;
pub mod cht;
pub mod chunk_laws;
pub mod compressed_record;
pub mod container;
pub mod cuda_dispatch;
pub mod decoder;
pub mod device_laws;
pub mod device_plan;
pub mod doc_laws;
pub mod dump_laws;
pub mod encoder;
pub mod error;
pub mod ferro_compress_bridge;
pub mod flat;
pub mod fold_laws;
pub mod format_laws;
pub mod from_block_segment;
pub mod gpu_dispatch;
pub mod keyset;
pub mod kill_switch;
pub mod load_laws;
pub mod lru;
pub mod persist;
pub mod planner;
pub mod posting_format;
pub mod postings;
pub mod read_laws;
pub mod run;
pub mod segment_id;
pub mod set_laws;
pub mod shared_bitmap_payload;
pub mod tally;
pub mod tier_laws;
pub mod vram_cht;
pub mod vram_cht_v3;
pub mod vram_record;
pub mod warm;
pub mod warm_laws;
pub mod wire;

use vstd::prelude::*;

pub use crate::container::{
    ArrayContainer, BitmapContainer, Container, ContainerError, Run, RunContainer,
};
pub use crate::decoder::{RoaringDecoder, TERMINATED};
pub use crate::encoder::{RoaringEncoder, RoaringFormatError, RoaringPostings, MAGIC, VERSION_V1};
pub use crate::ferro_compress_bridge::{
    compress_container, decompress_container, BitcompCodec, BitcompError, DefaultBitcompCodec,
    FerroBitcompCodec, IdentityBitcompCodec,
};
pub use crate::from_block_segment::drain_block_segment_to_roaring;
pub use crate::gpu_dispatch::{
    cpu_fallback_count, gpu_dispatch_count, record_cpu_fallback, reset_dispatch_counters,
    try_gpu_bool, BoolOp,
};
pub use crate::planner::{
    should_dispatch_gpu, TermStat, MIN_COHORT_DOCS, MIN_PER_TERM_CARDINALITY,
};
pub use crate::posting_format::{PostingFormat, PostingFormatDispatch};
pub use crate::warm::{
    segment_warm_on_open, set_segment_warm_on_open, warm_segment_v3, MAX_WARMUP_TERMS_PER_FIELD,
};

verus! {

/// Number of 32-bit words in a dense container (2048 words, 8 KiB, 65536 bits).
pub const BITMAP_CONTAINER_WORDS: usize = 2048;

} // verus!
