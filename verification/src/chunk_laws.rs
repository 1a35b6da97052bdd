//! What the chunks of a compressed term hold together.
//!
//! A compressor gives for a byte range of the words a buffer from which that range can
//! be had back. Then the chunks of an entry, opened and joined in order, are the words
//! that went in, and the entry still says which documents they stand for.

use vstd::prelude::*;

use crate::flat;
use crate::lru;
use crate::shared_bitmap_payload;
use crate::vram_cht_v3;

use crate::cht::ChtKey;
use crate::compressed_record::CompressedRecord;
use crate::shared_bitmap_payload::SharedBitmapPayload;
use crate::vram_cht::VramChtError;
use crate::vram_cht_v3::{DeviceChunkSlice, VramCompressedCht, VramCompressedChtError};

verus! {

/// The chunks cut the words into consecutive byte ranges that start at the first byte
/// and end at the last: with a compressor whose buffer for a range opens to the words of
/// that range, the opened chunks joined in order are the words.
pub proof fn lemma_chunks_rebuild_words<
    S,
    B,
    F: Fn(&S, usize, usize) -> Result<(B, usize), VramCompressedChtError>,
>(
    src: S,
    words: Seq<u32>,
    count: int,
    chunks: Seq<DeviceChunkSlice<B>>,
    compress: F,
    opened: spec_fn(B) -> Seq<u32>,
)
    requires
        0 <= count <= 131072,
        words.len() == 2048 * count,
        vram_cht_v3::chunks_made(src, count, chunks, compress),
        chunks.len() == vram_cht_v3::chunks_for(count),
        forall|off: usize, len: usize, d: B, n: usize| #[trigger]
            call_ensures(compress, (&src, off, len), Ok((d, n))) && off % 4 == 0 && len % 4 == 0
                && off + len <= 4 * words.len() ==> opened(d) == words.subrange(
                off as int / 4,
                (off + len) / 4,
            ),
    ensures
        chunks.map_values(|c: DeviceChunkSlice<B>| opened(c.d_compressed)).flatten() == words,
        forall|k: int|
            0 <= k < chunks.len() ==> (#[trigger] chunks[k]).uncompressed_bytes == 4 * opened(
                chunks[k].d_compressed,
            ).len(),
        forall|k: int|
            0 <= k < chunks.len() ==> 0 < (#[trigger] chunks[k]).uncompressed_bytes <= 16_777_216,
{
    let pieces = chunks.map_values(|c: DeviceChunkSlice<B>| opened(c.d_compressed));
    assert forall|k: int| 0 <= k < chunks.len() implies opened(
        (#[trigger] chunks[k]).d_compressed,
    ) == words.subrange(
        4_194_304 * k,
        4_194_304 * k + 2048 * vram_cht_v3::chunk_buckets(k, count),
    ) && vram_cht_v3::chunk_buckets(k, count) > 0 && chunks[k].uncompressed_bytes == 8192
        * vram_cht_v3::chunk_buckets(k, count) by {
        assert(vram_cht_v3::chunk_made(src, k, count, chunks[k], compress));
        assert(2048 * k < count);
        let off = (16_777_216 * k) as usize;
        let len = vram_cht_v3::chunk_plain(k, count) as usize;
        assert(off == 16_777_216 * k);
        assert(len == 8192 * vram_cht_v3::chunk_buckets(k, count));
        assert(call_ensures(
            compress,
            (&src, off, len),
            Ok((chunks[k].d_compressed, chunks[k].compressed_bytes)),
        ));
    }
    lemma_join_pieces(words, count, pieces, pieces.len() as int);
    assert(pieces.take(pieces.len() as int) =~= pieces);
    assert(words.take(words.len() as int) =~= words);
}

proof fn lemma_join_pieces(words: Seq<u32>, count: int, pieces: Seq<Seq<u32>>, n: int)
    requires
        count >= 0,
        words.len() == 2048 * count,
        pieces.len() == vram_cht_v3::chunks_for(count),
        forall|k: int|
            0 <= k < pieces.len() ==> #[trigger] pieces[k] == words.subrange(
                4_194_304 * k,
                4_194_304 * k + 2048 * vram_cht_v3::chunk_buckets(k, count),
            ),
        0 <= n <= pieces.len(),
    ensures
        pieces.take(n).flatten() == words.take(
            if 4_194_304 * n <= words.len() {
                4_194_304 * n
            } else {
                words.len() as int
            },
        ),
    decreases n,
{
    if n == 0 {
        assert(pieces.take(0) =~= Seq::<Seq<u32>>::empty());
        assert(words.take(0) =~= Seq::<u32>::empty());
        assert(pieces.take(0).flatten() =~= Seq::<u32>::empty());
    } else {
        lemma_join_pieces(words, count, pieces, n - 1);
        pieces.take(n - 1).lemma_flatten_push(pieces[n - 1]);
        assert(pieces.take(n) =~= pieces.take(n - 1).push(pieces[n - 1]));
        assert(2048 * (n - 1) < count);
        let upto = if 4_194_304 * n <= words.len() {
            4_194_304 * n
        } else {
            words.len() as int
        };
        assert(pieces[n - 1] == words.subrange(4_194_304 * (n - 1), upto));
        assert(words.take(4_194_304 * (n - 1)) + words.subrange(4_194_304 * (n - 1), upto)
            =~= words.take(upto));
    }
}

/// A stored term opens to the words it was made from: what was compressed is the last
/// entry, filed under its key with its bucket index, and its opened chunks joined in
/// order are the words. It is charged for the compressed bytes of its chunks.
pub proof fn lemma_stored_chunks_open_to_words<
    S,
    B,
    F: Fn(&S, usize, usize) -> Result<(B, usize), VramCompressedChtError>,
>(
    before: VramCompressedCht<B>,
    after: VramCompressedCht<B>,
    key: ChtKey,
    index: Vec<(u16, u32)>,
    src: S,
    words: Seq<u32>,
    compress: F,
    promoted: int,
    crossed: int,
    opened: spec_fn(B) -> Seq<u32>,
)
    requires
        before.compresses(
            &after,
            key,
            index,
            src,
            compress,
            promoted,
            crossed,
            Ok::<bool, VramCompressedChtError>(true),
        ),
        words.len() == 2048 * index@.len(),
        vram_cht_v3::compressor::<S, B, F>(compress),
        forall|off: usize, len: usize, d: B, n: usize| #[trigger]
            call_ensures(compress, (&src, off, len), Ok((d, n))) && off % 4 == 0 && len % 4 == 0
                && off + len <= 4 * words.len() ==> opened(d) == words.subrange(
                off as int / 4,
                (off + len) / 4,
            ),
    ensures
        after.entries().len() > 0,
        ({
            let e = after.entries()[after.entries().len() - 1];
            &&& e.key == key
            &&& e.value.bucket_index@ == index@
            &&& e.value.uncompressed_bytes == 4 * words.len()
            &&& e.value.chunks@.map_values(
                |c: DeviceChunkSlice<B>| opened(c.d_compressed),
            ).flatten() == words
            &&& e.bytes == e.value.chunks@.fold_left(
                0int,
                |sum: int, c: DeviceChunkSlice<B>| sum + c.compressed_bytes,
            )
            &&& e.bytes <= before.budget()
        }),
{
    let count = index@.len() as int;
    let chunks = choose|chunks: Vec<DeviceChunkSlice<B>>|
        {
            &&& #[trigger] vram_cht_v3::chunks_made(src, count, chunks@, compress)
            &&& chunks@.len() == vram_cht_v3::chunks_for(count)
            &&& true == (vram_cht_v3::packed_sum(chunks@) <= before.budget())
            &&& before.stores(
                &after,
                vram_cht_v3::chunks_entry(key, index, chunks),
                promoted,
                crossed,
            )
        };
    assert(vram_cht_v3::chunks_for(count) <= 64);
    lemma_chunks_rebuild_words(src, words, count, chunks@, compress, opened);
    lemma_packed_is_sum(chunks@);
    lemma_packed_bound(chunks@);
    let e = vram_cht_v3::chunks_entry(key, index, chunks);
    assert(after.entries() == lru::stored(before.entries(), e, before.budget() as int));
    lru::lemma_store_evicts_oldest(before.entries(), e, before.budget() as int);
}

/// The compressed bytes of all chunks are the sum of those of each.
pub proof fn lemma_packed_is_sum<B>(chunks: Seq<DeviceChunkSlice<B>>)
    ensures
        vram_cht_v3::packed_sum(chunks) == chunks.fold_left(
            0int,
            |sum: int, c: DeviceChunkSlice<B>| sum + c.compressed_bytes,
        ),
        vram_cht_v3::plain_sum(chunks) == chunks.fold_left(
            0int,
            |sum: int, c: DeviceChunkSlice<B>| sum + c.uncompressed_bytes,
        ),
    decreases chunks.len(),
{
    if chunks.len() > 0 {
        lemma_packed_is_sum(chunks.drop_last());
    }
}

proof fn lemma_packed_bound<B>(chunks: Seq<DeviceChunkSlice<B>>)
    ensures
        0 <= vram_cht_v3::packed_sum(chunks),
    decreases chunks.len(),
{
    if chunks.len() > 0 {
        lemma_packed_bound(chunks.drop_last());
    }
}

/// A posting list that was compressed and stored can be had back: the opened chunks of
/// its entry joined in order hold, behind the word offset of the bucket of a document,
/// its bit, exactly for the documents of the list.
pub proof fn lemma_stored_list_can_be_read_back<
    B,
    F: Fn(&Vec<u32>, usize, usize) -> Result<(B, usize), VramCompressedChtError>,
>(
    before: VramCompressedCht<B>,
    after: VramCompressedCht<B>,
    key: ChtKey,
    p: SharedBitmapPayload,
    docs: Set<u32>,
    compress: F,
    promoted: int,
    crossed: int,
    opened: spec_fn(B) -> Seq<u32>,
)
    requires
        p.expands(docs),
        before.compresses(
            &after,
            key,
            p.bucket_index,
            p.staging,
            compress,
            promoted,
            crossed,
            Ok::<bool, VramCompressedChtError>(true),
        ),
        vram_cht_v3::compressor::<Vec<u32>, B, F>(compress),
        forall|off: usize, len: usize, d: B, n: usize| #[trigger]
            call_ensures(compress, (&p.staging, off, len), Ok((d, n))) && off % 4 == 0 && len % 4
                == 0 && off + len <= 4 * p.staging@.len() ==> opened(d) == p.staging@.subrange(
                off as int / 4,
                (off + len) / 4,
            ),
    ensures
        after.entries().len() > 0,
        ({
            let e = after.entries()[after.entries().len() - 1];
            let words = e.value.chunks@.map_values(
                |c: DeviceChunkSlice<B>| opened(c.d_compressed),
            ).flatten();
            let index = e.value.bucket_index@;
            &&& e.key == key
            &&& words.len() == 2048 * index.len()
            &&& forall|d: u32| #[trigger]
                docs.contains(d) <==> exists|i: int|
                    0 <= i < index.len() && (#[trigger] index[i]).0 == d / 65536 && (words[index[i].1
                        + (d % 65536) as int / 32] >> (d % 32)) & 1u32 == 1u32
        }),
{
    lemma_stored_chunks_open_to_words(
        before,
        after,
        key,
        p.bucket_index,
        p.staging,
        p.staging@,
        compress,
        promoted,
        crossed,
        opened,
    );
    lemma_expansion_holds_documents(p, docs);
}

/// The staging words of an expansion hold the bit of a document behind the word offset
/// of its bucket, exactly for the documents that were expanded.
pub proof fn lemma_expansion_holds_documents(p: SharedBitmapPayload, docs: Set<u32>)
    requires
        p.expands(docs),
    ensures
        p.staging@.len() == 2048 * p.bucket_index@.len(),
        p.total_words == p.staging@.len(),
        p.bucket_count == p.bucket_index@.len(),
        forall|i: int| 0 <= i < p.bucket_index@.len() ==> (#[trigger] p.bucket_index@[i]).1 == 2048 * i,
        forall|i: int, j: int|
            0 <= i < j < p.bucket_index@.len() ==> (#[trigger] p.bucket_index@[i]).0 < (
            #[trigger] p.bucket_index@[j]).0,
        forall|d: u32| #[trigger]
            docs.contains(d) <==> exists|i: int|
                0 <= i < p.bucket_index@.len() && (#[trigger] p.bucket_index@[i]).0 == d / 65536 && (
                p.staging@[p.bucket_index@[i].1 + (d % 65536) as int / 32] >> (d % 32)) & 1u32
                    == 1u32,
{
    let index = p.bucket_index@;
    let keys = shared_bitmap_payload::index_keys(index);
    let words = p.staging@;
    assert forall|i: int, j: int| 0 <= i < j < index.len() implies (#[trigger] index[i]).0 < (
    #[trigger] index[j]).0 by {
        assert(keys[i] < keys[j]);
    }
    assert forall|d: u32| #[trigger] docs.contains(d) <==> exists|i: int|
        0 <= i < index.len() && (#[trigger] index[i]).0 == d / 65536 && (words[index[i].1 + (d
            % 65536) as int / 32] >> (d % 32)) & 1u32 == 1u32 by {
        assert(docs.contains(d) == flat::has_flat_doc(keys, words, d));
        assert((d % 65536) % 32 == d % 32);
        assert forall|i: int| 0 <= i < index.len() implies #[trigger] flat::window(
            words,
            i,
        )[(d % 65536) as int / 32] == words[index[i].1 + (d % 65536) as int / 32] by {}
        if flat::has_flat_doc(keys, words, d) {
            let i = choose|i: int|
                0 <= i < keys.len() && #[trigger] keys[i] == d / 65536 && crate::bitmap::has_bit(
                    flat::window(words, i),
                    (d % 65536) as u16,
                );
            assert(index[i].0 == d / 65536);
            assert(flat::window(words, i)[(d % 65536) as int / 32] == words[index[i].1 + (d
                % 65536) as int / 32]);
        }
        if exists|i: int|
            0 <= i < index.len() && (#[trigger] index[i]).0 == d / 65536 && (words[index[i].1 + (d
                % 65536) as int / 32] >> (d % 32)) & 1u32 == 1u32 {
            let i = choose|i: int|
                0 <= i < index.len() && (#[trigger] index[i]).0 == d / 65536 && (words[index[i].1
                    + (d % 65536) as int / 32] >> (d % 32)) & 1u32 == 1u32;
            assert(keys[i] == d / 65536);
            assert(flat::window(words, i)[(d % 65536) as int / 32] == words[index[i].1 + (d
                % 65536) as int / 32]);
        }
    }
}

/// An expansion has no empty bucket: every key of its index has a document.
pub proof fn lemma_expansion_has_no_empty_bucket(p: SharedBitmapPayload, docs: Set<u32>, i: int)
    requires
        p.expands(docs),
        0 <= i < p.bucket_index@.len(),
    ensures
        exists|d: u32| #[trigger] docs.contains(d) && d / 65536 == p.bucket_index@[i].0,
{
    let index = p.bucket_index@;
    let keys = shared_bitmap_payload::index_keys(index);
    let words = p.staging@;
    let lows = crate::bitmap::word_set(flat::window(words, i));
    assert(lows.len() > 0);
    crate::keyset::lemma_sorted_keys_spec(lows);
    let low = lows.choose();
    assert(lows.contains(low)) by {
        if lows =~= Set::<u16>::empty() {
            assert(lows.len() == 0);
        }
    }
    let d = (65536 * index[i].0 + low) as u32;
    assert(d / 65536 == index[i].0);
    assert((d % 65536) as u16 == low);
    assert(keys[i] == d / 65536);
    assert(flat::has_flat_doc(keys, words, d));
    assert(docs.contains(d));
}

/// Chunk `k` of `count` buckets takes the bytes from the `k`-th 16 MiB on, up to the next or
/// to the end; there are as many chunks as that takes, and chunks tile the buckets when they
/// reach to the end and each has its own size.
pub proof fn lemma_chunk_sizes<B>(k: int, count: int, chunks: Seq<DeviceChunkSlice<B>>)
    requires
        0 <= k,
        0 <= count,
    ensures
        8192 * count <= 16_777_216 * k ==> vram_cht_v3::chunk_plain(k, count) == 0,
        16_777_216 * k < 8192 * count < 16_777_216 * (k + 1) ==> vram_cht_v3::chunk_plain(k, count)
            == 8192 * count - 16_777_216 * k,
        16_777_216 * (k + 1) <= 8192 * count ==> vram_cht_v3::chunk_plain(k, count) == 16_777_216,
        16_777_216 * vram_cht_v3::chunks_for(count) >= 8192 * count,
        count > 0 ==> 16_777_216 * (vram_cht_v3::chunks_for(count) - 1) < 8192 * count,
        count == 0 ==> vram_cht_v3::chunks_for(count) == 0,
        vram_cht_v3::tiled(chunks, count) <==> chunks.len() >= 1 && 2048 * chunks.len() >= count
            && forall|i: int|
            0 <= i < chunks.len() ==> (#[trigger] chunks[i]).uncompressed_bytes
                == vram_cht_v3::chunk_plain(i, count),
{
}

/// What the uploads of a record gave, whether or not others failed: one chunk for each body,
/// of its length and with the bytes that its place stands for, in the buffer that uploading
/// the body gave.
pub proof fn lemma_uploaded_chunks<B, U: Fn(&Vec<u8>) -> Result<B, VramChtError>>(
    rec: CompressedRecord,
    chunks: Vec<DeviceChunkSlice<B>>,
    budget: int,
    upload: U,
)
    requires
        vram_cht_v3::uploaded(rec, Some(chunks), budget, upload),
    ensures
        chunks@.len() == rec.bodies@.len(),
        forall|k: int|
            0 <= k < chunks@.len() ==> {
                &&& (#[trigger] chunks@[k]).compressed_bytes == rec.bodies@[k]@.len()
                &&& chunks@[k].uncompressed_bytes == vram_cht_v3::chunk_plain(
                    k,
                    rec.bucket_index@.len() as int,
                )
                &&& call_ensures(upload, (&rec.bodies@[k],), Ok(chunks@[k].d_compressed))
            },
{
    assert forall|k: int| 0 <= k < chunks@.len() implies {
        &&& (#[trigger] chunks@[k]).compressed_bytes == rec.bodies@[k]@.len()
        &&& chunks@[k].uncompressed_bytes == vram_cht_v3::chunk_plain(
            k,
            rec.bucket_index@.len() as int,
        )
        &&& call_ensures(upload, (&rec.bodies@[k],), Ok(chunks@[k].d_compressed))
    } by {
        assert(vram_cht_v3::chunk_uploaded(
            rec.bodies@[k],
            k,
            rec.bucket_index@.len() as int,
            chunks@[k],
            upload,
        ));
    }
}

} // verus!
