//! Warming of the caches when a segment is opened.
//!
//! When enabled, opening a segment drains the posting lists of its indexed fields into
//! the host tier, and promotes each of them to the compressed device tier where there
//! is one, so that the first queries find them cached. Off by default: this moves
//! latency to the opening of segments.

use std::sync::Arc;
use vstd::prelude::*;

use crate::encoder;
use crate::lru;
use crate::vram_cht_v3;

use crate::cht::{Cht, ChtKey};
use crate::from_block_segment::{drain_block_segment_to_roaring, BlockSegmentPostings};
use crate::postings::RoaringPostings;
use crate::segment_id::SegmentId;
use crate::vram_cht_v3::{VramCompressedCht, VramCompressedChtError};

verus! {

/// Most terms warmed for a field of a segment.
pub const MAX_WARMUP_TERMS_PER_FIELD: usize = 10_000;

/// Switch for warming.
#[derive(Debug)]
pub struct WarmToggle {
    enabled: bool,
}

impl WarmToggle {
    /// Warming is enabled.
    pub closed spec fn on(&self) -> bool {
        self.enabled
    }

    /// Switch in its initial position: off.
    pub fn new() -> (r: Self)
        ensures
            !r.on(),
    {
        WarmToggle { enabled: false }
    }
}

/// Enable or disable warming for all segments opened from now on.
pub fn set_segment_warm_on_open(toggle: &mut WarmToggle, enabled: bool)
    ensures
        final(toggle).on() == enabled,
{
    toggle.enabled = enabled;
}

/// Whether warming is enabled.
pub fn segment_warm_on_open(toggle: &WarmToggle) -> (r: bool)
    ensures
        r == toggle.on(),
{
    toggle.enabled
}

/// A field of a segment, as far as warming is concerned.
pub struct WarmField {
    /// Field id.
    pub field_id: u32,
    /// The field is indexed.
    pub indexed: bool,
    /// The field holds JSON objects.
    pub json: bool,
    /// Hashes of the field's terms in dictionary order, or `None` where the inverted
    /// index or the dictionary could not be read.
    pub term_hashes: Option<Vec<u64>>,
}

/// Fields that are warmed: indexed, readable, and not JSON, whose term spaces are too
/// wide.
pub open spec fn eligible(f: WarmField) -> bool {
    f.indexed && !f.json && f.term_hashes is Some
}

/// The hashes of a field's terms.
pub open spec fn hashes(f: WarmField) -> Seq<u64> {
    match f.term_hashes {
        Some(v) => v@,
        None => Seq::empty(),
    }
}

/// Reading term `t` of field `f` can give `out`.
pub open spec fn read_gives<R: Fn(usize, usize) -> Option<BlockSegmentPostings>>(
    read: R,
    f: int,
    t: int,
    out: Option<BlockSegmentPostings>,
) -> bool {
    call_ensures(read, (f as usize, t as usize), out)
}

/// What a reader must allow, and that the cursors it gives are well formed.
pub open spec fn reader<R: Fn(usize, usize) -> Option<BlockSegmentPostings>>(read: R) -> bool {
    &&& forall|f: usize, t: usize| #[trigger] call_requires(read, (f, t))
    &&& forall|f: usize, t: usize, c: BlockSegmentPostings| #[trigger]
        call_ensures(read, (f, t), Some(c)) ==> c.wf()
}

/// The two caches.
pub struct Tiers<B> {
    /// Host tier.
    pub host: Cht,
    /// Compressed device tier, where there is one.
    pub device: Option<VramCompressedCht<B>>,
}

/// `after` is `before` with the posting list `rp` drained from `cursor` and taken in.
pub open spec fn takes_in<
    B,
    F: Fn(&Vec<u32>, usize, usize) -> Result<(B, usize), VramCompressedChtError>,
>(
    before: Tiers<B>,
    after: Tiers<B>,
    key: ChtKey,
    cursor: BlockSegmentPostings,
    rp: RoaringPostings,
    promoted: Result<bool, VramCompressedChtError>,
    compress: F,
) -> bool {
    &&& rp.wf()
    &&& rp@ == cursor.remaining()
    &&& encoder::canonical(rp.containers@)
    &&& before.host.takes(&after.host, key, rp)
    &&& after.host.budget() == before.host.budget()
    &&& match before.device {
        Some(v) => after.device matches Some(w) && v.promotes(&w, key, rp@, compress, promoted)
            && w.same_limits(&v),
        None => after.device is None,
    }
}

/// What happens to a term that was not cached, given what reading it gave: `looked` is
/// the state after the lookup. A term that cannot be read is passed over.
pub open spec fn warms_read<
    B,
    F: Fn(&Vec<u32>, usize, usize) -> Result<(B, usize), VramCompressedChtError>,
>(
    looked: Tiers<B>,
    after: Tiers<B>,
    key: ChtKey,
    out: Option<BlockSegmentPostings>,
    warmed: bool,
    compress: F,
) -> bool {
    match out {
        None => !warmed && after == looked,
        Some(cursor) => warmed && exists|
            rp: RoaringPostings,
            promoted: Result<bool, VramCompressedChtError>,
        | #[trigger]
            takes_in(looked, after, key, cursor, rp, promoted, compress),
    }
}

/// What happens to term `t` of field `f`: a term that is cached already is passed over
/// without reading it.
pub open spec fn warms_term<
    B,
    R: Fn(usize, usize) -> Option<BlockSegmentPostings>,
    F: Fn(&Vec<u32>, usize, usize) -> Result<(B, usize), VramCompressedChtError>,
>(
    before: Tiers<B>,
    after: Tiers<B>,
    key: ChtKey,
    f: int,
    t: int,
    warmed: bool,
    read: R,
    compress: F,
) -> bool {
    &&& after.host.wf()
    &&& device_wf(after.device)
    &&& if lru::held(before.host.entries(), key) {
        &&& !warmed
        &&& after.device == before.device
        &&& after.host.budget() == before.host.budget()
        &&& exists|rp: RoaringPostings| #[trigger]
            before.host.looks_up(&after.host, key, Some(rp))
    } else {
        exists|looked: Cht, out: Option<BlockSegmentPostings>|
            {
                &&& #[trigger] read_gives(read, f, t, out)
                &&& #[trigger] before.host.looks_up(&looked, key, None)
                &&& looked.budget() == before.host.budget()
                &&& warms_read(
                    (Tiers { host: looked, device: before.device }),
                    after,
                    key,
                    out,
                    warmed,
                    compress,
                )
            }
    }
}

/// `states` are the caches and `counts` the terms warmed while going through the terms
/// of field `f` of segment `segment_id`, up to the last term or until as many were
/// warmed as allowed.
pub open spec fn warms_field<
    B,
    R: Fn(usize, usize) -> Option<BlockSegmentPostings>,
    F: Fn(&Vec<u32>, usize, usize) -> Result<(B, usize), VramCompressedChtError>,
>(
    states: Seq<Tiers<B>>,
    counts: Seq<int>,
    segment_id: SegmentId,
    field: WarmField,
    f: int,
    read: R,
    compress: F,
) -> bool {
    let n = states.len() - 1;
    &&& 0 <= n <= hashes(field).len()
    &&& counts.len() == states.len()
    &&& counts[0] == 0
    &&& n < hashes(field).len() ==> counts[n] == MAX_WARMUP_TERMS_PER_FIELD
    &&& forall|t: int| 0 <= t < n ==> #[trigger] counts[t] < MAX_WARMUP_TERMS_PER_FIELD
    &&& forall|t: int|
        0 <= t < n ==> #[trigger] field_step(states, counts, segment_id, field, f, t, read, compress)
}

/// Going over term `t` of a field.
pub open spec fn field_step<
    B,
    R: Fn(usize, usize) -> Option<BlockSegmentPostings>,
    F: Fn(&Vec<u32>, usize, usize) -> Result<(B, usize), VramCompressedChtError>,
>(
    states: Seq<Tiers<B>>,
    counts: Seq<int>,
    segment_id: SegmentId,
    field: WarmField,
    f: int,
    t: int,
    read: R,
    compress: F,
) -> bool {
    &&& counts[t + 1] == counts[t] || counts[t + 1] == counts[t] + 1
    &&& warms_term(
        states[t],
        states[t + 1],
        (ChtKey { segment_id, field: field.field_id, term_hash: hashes(field)[t] }),
        f,
        t,
        counts[t + 1] == counts[t] + 1,
        read,
        compress,
    )
}

/// Field `f` takes the caches from `before` to `after`.
pub open spec fn field_warmed<
    B,
    R: Fn(usize, usize) -> Option<BlockSegmentPostings>,
    F: Fn(&Vec<u32>, usize, usize) -> Result<(B, usize), VramCompressedChtError>,
>(
    before: Tiers<B>,
    after: Tiers<B>,
    segment_id: SegmentId,
    field: WarmField,
    f: int,
    read: R,
    compress: F,
) -> bool {
    if eligible(field) {
        exists|states: Seq<Tiers<B>>, counts: Seq<int>| #[trigger]
            warms_field(states, counts, segment_id, field, f, read, compress) && states[0] == before
                && states.last() == after
    } else {
        after == before
    }
}

/// `states` are the caches while going through the fields.
pub open spec fn warms_segment<
    B,
    R: Fn(usize, usize) -> Option<BlockSegmentPostings>,
    F: Fn(&Vec<u32>, usize, usize) -> Result<(B, usize), VramCompressedChtError>,
>(
    states: Seq<Tiers<B>>,
    segment_id: SegmentId,
    fields: Seq<WarmField>,
    read: R,
    compress: F,
) -> bool {
    &&& states.len() == fields.len() + 1
    &&& forall|f: int|
        0 <= f < fields.len() ==> field_warmed(
            #[trigger] states[f],
            states[f + 1],
            segment_id,
            fields[f],
            f,
            read,
            compress,
        )
}

/// The caches, as one value.
pub open spec fn tiers<B>(host: Cht, device: Option<VramCompressedCht<B>>) -> Tiers<B> {
    Tiers { host, device }
}

/// The device tier is well formed, where there is one.
pub open spec fn device_wf<B>(device: Option<VramCompressedCht<B>>) -> bool {
    device matches Some(v) ==> v.wf()
}

/// Warm one term. Returns whether its posting list was drained.
fn warm_term<
    B,
    R: Fn(usize, usize) -> Option<BlockSegmentPostings>,
    F: Fn(&Vec<u32>, usize, usize) -> Result<(B, usize), VramCompressedChtError>,
>(
    host: &mut Cht,
    device: &mut Option<VramCompressedCht<B>>,
    key: ChtKey,
    f: usize,
    t: usize,
    read: &R,
    compress: &F,
) -> (r: bool)
    requires
        old(host).wf(),
        device_wf(*old(device)),
        reader(*read),
        vram_cht_v3::compressor::<Vec<u32>, B, F>(*compress),
    ensures
        final(host).wf(),
        device_wf(*final(device)),
        warms_term(
            tiers(*old(host), *old(device)),
            tiers(*final(host), *final(device)),
            key,
            f as int,
            t as int,
            r,
            *read,
            *compress,
        ),
{
    let ghost before = tiers(*host, *device);
    match host.get(&key) {
        Some(v) => {
            assert(before.host.looks_up(&tiers(*host, *device).host, key, Some(*v)));
            return false;
        },
        None => {},
    }
    let ghost looked = *host;
    assert(before.host.looks_up(&looked, key, None));
    let out: Option<BlockSegmentPostings> = read(f, t);
    assert(read_gives(*read, f as int, t as int, out));
    let mut cursor: BlockSegmentPostings = match out {
        Some(c) => c,
        None => {
            return false;
        },
    };
    let ghost c0 = cursor;
    let drained: Arc<RoaringPostings> = Arc::new(drain_block_segment_to_roaring(&mut cursor));
    host.insert(key, lru::share(&drained));
    let ghost mid = *device;
    match device {
        Some(v) => {
            let ghost v0 = *v;
            let promoted: Result<bool, VramCompressedChtError> = v.promote(key, &drained, compress);
            assert(v0.promotes(v, key, drained@, *compress, promoted));
            assert(takes_in(
                tiers(looked, mid),
                tiers(*host, Some(*v)),
                key,
                c0,
                *drained,
                promoted,
                *compress,
            ));
        },
        None => {
            assert(takes_in(
                tiers(looked, mid),
                tiers(*host, mid),
                key,
                c0,
                *drained,
                Ok(false),
                *compress,
            ));
        },
    }
    assert(warms_read(
        tiers(looked, mid),
        tiers(*host, *device),
        key,
        Some(c0),
        true,
        *compress,
    ));
    true
}

/// Warm the terms of a field.
fn warm_field<
    B,
    R: Fn(usize, usize) -> Option<BlockSegmentPostings>,
    F: Fn(&Vec<u32>, usize, usize) -> Result<(B, usize), VramCompressedChtError>,
>(
    host: &mut Cht,
    device: &mut Option<VramCompressedCht<B>>,
    segment_id: SegmentId,
    field: &WarmField,
    f: usize,
    read: &R,
    compress: &F,
)
    requires
        old(host).wf(),
        device_wf(*old(device)),
        reader(*read),
        vram_cht_v3::compressor::<Vec<u32>, B, F>(*compress),
    ensures
        final(host).wf(),
        device_wf(*final(device)),
        field_warmed(
            tiers(*old(host), *old(device)),
            tiers(*final(host), *final(device)),
            segment_id,
            *field,
            f as int,
            *read,
            *compress,
        ),
{
    if !field.indexed || field.json {
        return;
    }
    let terms: &Vec<u64> = match &field.term_hashes {
        Some(v) => v,
        None => {
            return;
        },
    };
    let ghost mut states = seq![tiers(*host, *device)];
    let ghost mut counts = seq![0int];
    let n: usize = terms.len();
    let mut warmed: usize = 0;
    let mut t: usize = 0;
    while t < n && warmed < MAX_WARMUP_TERMS_PER_FIELD
        invariant
            host.wf(),
            device_wf(*device),
            reader(*read),
            vram_cht_v3::compressor::<Vec<u32>, B, F>(*compress),
            eligible(*field),
            hashes(*field) == terms@,
            n == terms@.len(),
            t <= n,
            warmed <= MAX_WARMUP_TERMS_PER_FIELD,
            states.len() == t + 1,
            counts.len() == t + 1,
            counts[0] == 0,
            counts[t as int] == warmed,
            forall|i: int| 0 <= i < t ==> #[trigger] counts[i] < MAX_WARMUP_TERMS_PER_FIELD,
            forall|i: int|
                0 <= i < t ==> #[trigger] field_step(
                    states,
                    counts,
                    segment_id,
                    *field,
                    f as int,
                    i,
                    *read,
                    *compress,
                ),
            states[0] == tiers(*old(host), *old(device)),
            states[t as int] == tiers(*host, *device),
        decreases n - t,
    {
        let ghost old_states = states;
        let ghost old_counts = counts;
        let key: ChtKey = ChtKey { segment_id, field: field.field_id, term_hash: terms[t] };
        let more: bool = warm_term(host, device, key, f, t, read, compress);
        if more {
            warmed = warmed + 1;
        }
        proof {
            states = states.push(tiers(*host, *device));
            counts = counts.push(warmed as int);
            assert forall|i: int| 0 <= i < t + 1 implies #[trigger] field_step(
                states,
                counts,
                segment_id,
                *field,
                f as int,
                i,
                *read,
                *compress,
            ) by {
                if i < t {
                    assert(field_step(
                        old_states,
                        old_counts,
                        segment_id,
                        *field,
                        f as int,
                        i,
                        *read,
                        *compress,
                    ));
                    assert(states[i] == old_states[i] && states[i + 1] == old_states[i + 1]);
                    assert(counts[i] == old_counts[i] && counts[i + 1] == old_counts[i + 1]);
                } else {
                    assert(states[i] == old_states[i]);
                    assert(counts[i] == old_counts[i]);
                }
            }
        }
        t = t + 1;
    }
    assert(warms_field(states, counts, segment_id, *field, f as int, *read, *compress));
}

/// Warm the caches for a segment: the first terms of each eligible field, as many as
/// [`MAX_WARMUP_TERMS_PER_FIELD`] allows, are drained into the host tier and promoted
/// to the compressed device tier, except those cached already. `read` opens the block
/// cursor of a term, given the number of the field and of the term; failures are
/// passed over. Does nothing while warming is disabled.
pub fn warm_segment_v3<
    B,
    R: Fn(usize, usize) -> Option<BlockSegmentPostings>,
    F: Fn(&Vec<u32>, usize, usize) -> Result<(B, usize), VramCompressedChtError>,
>(
    toggle: &WarmToggle,
    segment_id: SegmentId,
    fields: &[WarmField],
    host: &mut Cht,
    device: &mut Option<VramCompressedCht<B>>,
    read: &R,
    compress: &F,
)
    requires
        old(host).wf(),
        device_wf(*old(device)),
        reader(*read),
        vram_cht_v3::compressor::<Vec<u32>, B, F>(*compress),
    ensures
        final(host).wf(),
        device_wf(*final(device)),
        !toggle.on() ==> *final(host) == *old(host) && *final(device) == *old(device),
        toggle.on() ==> exists|states: Seq<Tiers<B>>| #[trigger]
            warms_segment(states, segment_id, fields@, *read, *compress) && states[0] == tiers(
                *old(host),
                *old(device),
            ) && states.last() == tiers(*final(host), *final(device)),
{
    if !segment_warm_on_open(toggle) {
        return;
    }
    let ghost mut states = seq![tiers(*host, *device)];
    let n: usize = fields.len();
    let mut f: usize = 0;
    while f < n
        invariant
            host.wf(),
            device_wf(*device),
            reader(*read),
            vram_cht_v3::compressor::<Vec<u32>, B, F>(*compress),
            n == fields@.len(),
            f <= n,
            states.len() == f + 1,
            states[0] == tiers(*old(host), *old(device)),
            states[f as int] == tiers(*host, *device),
            forall|i: int|
                0 <= i < f ==> field_warmed(
                    #[trigger] states[i],
                    states[i + 1],
                    segment_id,
                    fields@[i],
                    i,
                    *read,
                    *compress,
                ),
        decreases n - f,
    {
        let ghost old_states = states;
        warm_field(host, device, segment_id, &fields[f], f, read, compress);
        proof {
            states = states.push(tiers(*host, *device));
            assert forall|i: int| 0 <= i < f + 1 implies field_warmed(
                #[trigger] states[i],
                states[i + 1],
                segment_id,
                fields@[i],
                i,
                *read,
                *compress,
            ) by {
                assert(states[i] == old_states[i]);
                if i < f {
                    assert(field_warmed(
                        old_states[i],
                        old_states[i + 1],
                        segment_id,
                        fields@[i],
                        i,
                        *read,
                        *compress,
                    ));
                    assert(states[i + 1] == old_states[i + 1]);
                }
            }
        }
        f = f + 1;
    }
    assert(warms_segment(states, segment_id, fields@, *read, *compress));
}

} // verus!
