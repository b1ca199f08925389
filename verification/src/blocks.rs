//! The block writer: compressing uncompressed blocks into chunks and
//! routing them to the chunk writer, sequentially or through a worker
//! pool with a reorder buffer.

use rayon::iter::IntoParallelIterator;
use rayon::iter::ParallelIterator;
use vstd::prelude::*;

use crate::block::{
    spec_block_matches_header, spec_compress_to_chunk, BlockIndex, UncompressedBlock,
    UncompressedBlockModel,
};
use crate::chunk::{result_model, spec_chunk_encodable, Chunk, ChunkModel};
use crate::error::{Error, ErrorModel};
use crate::math::Vec2;
use crate::meta::{spec_total_chunks, Header, LineOrder, MetaData};
use crate::write::{
    lemma_write_fold_error, spec_flat_len, spec_write_chunk_step, spec_write_chunks_fold,
    ChunkWriter, ChunkWriterModel,
};

verus! {

/// How many blocks may be compressing on the worker pool at once.
pub const MAX_PARALLEL_COMPRESSIONS: usize = 12;

/// The block of layer `layer` with increasing-y index `j`.
pub open spec fn spec_block_index_of(headers: Seq<Header>, layer: int, j: int) -> BlockIndex {
    let h = headers[layer];
    let tc = h.spec_block_coords(j);
    let b = h.spec_absolute_bounds(tc);
    BlockIndex {
        layer: layer as usize,
        pixel_position: b.position,
        pixel_size: b.size,
        level: Vec2 { x: 0, y: 0 },
    }
}

/// The increasing-y index of the block that stands at file position `k`
/// within its layer: positions run backwards for decreasing line order.
pub open spec fn spec_ordered_y_index(h: Header, k: int) -> int {
    if h.line_order is Decreasing {
        h.spec_chunk_count() - 1 - k
    } else {
        k
    }
}

/// The write-order enumeration of one layer's blocks: file position `k`
/// maps to the block at its ordered increasing-y index.
pub open spec fn spec_layer_enumeration(headers: Seq<Header>, layer: int) -> Seq<
    (usize, BlockIndex),
> {
    Seq::new(
        headers[layer].spec_chunk_count() as nat,
        |k: int|
            (
                (spec_ordered_y_index(headers[layer], k) as usize),
                spec_block_index_of(headers, layer, spec_ordered_y_index(headers[layer], k)),
            ),
    )
}

/// The write-order enumeration of the first `upto` layers' blocks.
pub open spec fn spec_enumeration(headers: Seq<Header>, upto: int) -> Seq<(usize, BlockIndex)>
    decreases upto,
{
    if upto <= 0 {
        Seq::<(usize, BlockIndex)>::empty()
    } else {
        spec_enumeration(headers, upto - 1) + spec_layer_enumeration(headers, upto - 1)
    }
}

/// Enumerate every block of every layer in the order the file wants them
/// written: layers in order; within a layer, file order per its line
/// order. Each entry carries the block's increasing-y index.
#[verifier::loop_isolation(false)]
#[verifier::rlimit(100)]
pub fn enumerate_ordered_header_block_indices(headers: &Vec<Header>) -> (r: Vec<
    (usize, BlockIndex),
>)
    requires
        crate::meta::spec_headers_valid(headers@),
    ensures
        r@ == spec_enumeration(headers@, headers@.len() as int),
{
    let mut out: Vec<(usize, BlockIndex)> = Vec::new();
    let hn: usize = headers.len();
    let mut layer: usize = 0;
    proof {
        assert(out@ =~= spec_enumeration(headers@, 0));
    }
    while layer < hn
        invariant
            layer <= hn,
            out@ == spec_enumeration(headers@, layer as int),
        decreases hn - layer,
    {
        proof {
            headers@[layer as int].lemma_grid_bounds();
        }
        let header = &headers[layer];
        let count: usize = header.chunk_count();
        let decreasing = match header.line_order {
            LineOrder::Decreasing => true,
            _ => false,
        };
        let ghost out_head = out@;
        let mut k: usize = 0;
        while k < count
            invariant
                layer < hn,
                k <= count,
                header == &headers@[layer as int],
                count == header.spec_chunk_count(),
                decreasing == (header.line_order is Decreasing),
                out@ == out_head + spec_layer_enumeration(headers@, layer as int).take(k as int),
            decreases count - k,
        {
            let j: usize = if decreasing {
                count - 1 - k
            } else {
                k
            };
            let tile = header.block_coords(j);
            let bounds = match header.get_absolute_block_pixel_coordinates(tile) {
                Ok(b) => b,
                Err(_) => {
                    proof {
                        assert(false);
                    }
                    return out;
                },
            };
            let block = BlockIndex {
                layer,
                pixel_position: bounds.position,
                pixel_size: bounds.size,
                level: Vec2 { x: 0, y: 0 },
            };
            out.push((j, block));
            k = k + 1;
            proof {
                assert(out@ =~= out_head + spec_layer_enumeration(headers@, layer as int).take(
                    k as int,
                ));
            }
        }
        layer = layer + 1;
        proof {
            assert(spec_layer_enumeration(headers@, layer - 1).take(count as int)
                =~= spec_layer_enumeration(headers@, layer - 1));
            assert(out@ =~= spec_enumeration(headers@, layer as int));
        }
    }
    out
}

/// The enumeration covers exactly the file's chunk total.
pub proof fn lemma_enumeration_len(headers: Seq<Header>, upto: int)
    requires
        forall|i: int| 0 <= i < headers.len() ==> (#[trigger] headers[i]).valid(),
        0 <= upto <= headers.len(),
    ensures
        spec_enumeration(headers, upto).len() == spec_total_chunks(headers.take(upto)),
    decreases upto,
{
    if upto > 0 {
        lemma_enumeration_len(headers, upto - 1);
        assert(headers.take(upto).drop_last() =~= headers.take(upto - 1));
        assert(headers.take(upto).last() == headers[upto - 1]);
    }
}

/// Buffers chunks that arrive out of order and hands them back in strictly
/// increasing target order.
pub struct SortedBlocksWriter {
    pending_chunks: Vec<Option<(usize, Chunk)>>,
    next_unwritten_index: usize,
}

impl SortedBlocksWriter {
    /// The buffered chunks by target position, and each one's
    /// increasing-y index within its layer.
    pub closed spec fn spec_pending(&self) -> Seq<Option<(usize, Chunk)>> {
        self.pending_chunks@
    }

    /// The next target position that may be handed back.
    pub closed spec fn spec_next_unwritten(&self) -> int {
        self.next_unwritten_index as int
    }

    /// The buffer's structural invariant: no drained slot stays filled,
    /// and everything stashed can be serialized.
    pub closed spec fn wf(&self) -> bool {
        &&& self.next_unwritten_index <= self.pending_chunks@.len()
        &&& forall|i: int|
            0 <= i < self.next_unwritten_index ==> (#[trigger] self.pending_chunks@[i]) is None
        &&& forall|i: int|
            0 <= i < self.pending_chunks@.len() ==> ((#[trigger] self.pending_chunks@[i])
                matches Some(p) ==> spec_chunk_encodable(p.1.model()))
    }

    /// A reorder buffer for `total_chunk_count` chunks, or nothing when no
    /// header demands an explicit order.
    pub fn new(total_chunk_count: usize, headers: &Vec<Header>) -> (r: Option<SortedBlocksWriter>)
        ensures
            (exists|i: int|
                0 <= i < headers@.len() && !((#[trigger] headers@[i].line_order)
                    is Unspecified)) <==> r is Some,
            r matches Some(w) ==> (w.wf() && w.spec_next_unwritten() == 0 && w.spec_pending().len()
                == total_chunk_count && (forall|i: int|
                0 <= i < total_chunk_count ==> (#[trigger] w.spec_pending()[i]) is None)),
    {
        let mut requires_sorting = false;
        let hn: usize = headers.len();
        let mut i: usize = 0;
        while i < hn
            invariant
                i <= hn,
                hn == headers@.len(),
                requires_sorting == (exists|a: int|
                    0 <= a < i && !((#[trigger] headers@[a].line_order) is Unspecified)),
            decreases hn - i,
        {
            let this_sorts = match headers[i].line_order {
                LineOrder::Unspecified => false,
                _ => true,
            };
            requires_sorting = requires_sorting || this_sorts;
            i = i + 1;
        }
        if requires_sorting {
            let mut pending: Vec<Option<(usize, Chunk)>> = Vec::new();
            let mut k: usize = 0;
            while k < total_chunk_count
                invariant
                    k <= total_chunk_count,
                    pending@.len() == k,
                    forall|a: int| 0 <= a < k ==> (#[trigger] pending@[a]) is None,
                decreases total_chunk_count - k,
            {
                pending.push(None);
                k = k + 1;
            }
            Some(SortedBlocksWriter { pending_chunks: pending, next_unwritten_index: 0 })
        } else {
            None
        }
    }

    /// Stash `compressed_chunk` for target position `chunk_index`, then
    /// hand back every chunk that is now ready: the consecutive run of
    /// stashed chunks starting at the next unwritten position, in strictly
    /// increasing target order.
    pub fn write_or_stash_chunk(
        &mut self,
        chunk_index: usize,
        index_in_header: usize,
        compressed_chunk: Chunk,
    ) -> (drained: Vec<(usize, Chunk)>)
        requires
            old(self).wf(),
            chunk_index < old(self).spec_pending().len(),
            old(self).spec_next_unwritten() <= chunk_index,
            old(self).spec_pending()[chunk_index as int] is None,
            spec_chunk_encodable(compressed_chunk.model()),
        ensures
            final(self).wf(),
            forall|d: int|
                0 <= d < drained@.len() ==> spec_chunk_encodable(
                    (#[trigger] drained@[d]).1.model(),
                ),
            final(self).spec_pending().len() == old(self).spec_pending().len(),
            final(self).spec_next_unwritten() == old(self).spec_next_unwritten()
                + drained@.len(),
            // what comes out is exactly what was stashed at the drained positions
            forall|d: int|
                0 <= d < drained@.len() ==> (#[trigger] drained@[d])
                    == if old(self).spec_next_unwritten() + d == chunk_index {
                    (index_in_header, compressed_chunk)
                } else {
                    old(self).spec_pending()[old(self).spec_next_unwritten() + d]->Some_0
                },
            forall|d: int|
                0 <= d < drained@.len() ==> (old(self).spec_next_unwritten() + d == chunk_index
                    || (#[trigger] old(self).spec_pending()[old(self).spec_next_unwritten()
                    + d]) is Some),
            // the drain is maximal: it stops only at the end or at a hole
            final(self).spec_next_unwritten() == final(self).spec_pending().len()
                || final(self).spec_pending()[final(self).spec_next_unwritten()] is None,
            // every position before the new next is now empty, later stashes stay
            forall|i: int|
                final(self).spec_next_unwritten() <= i < final(self).spec_pending().len() ==> (
                #[trigger] final(self).spec_pending()[i]) == if i == chunk_index {
                    Some((index_in_header, compressed_chunk))
                } else {
                    old(self).spec_pending()[i]
                },
    {
        self.pending_chunks[chunk_index] = Some((index_in_header, compressed_chunk));
        let ghost stashed = self.pending_chunks@;
        let ghost start = self.next_unwritten_index as int;
        proof {
            assert forall|i: int|
                0 <= i < stashed.len() implies ((#[trigger] stashed[i]) matches Some(p)
                ==> spec_chunk_encodable(p.1.model())) by {
                if i != chunk_index {
                    assert(stashed[i] == old(self).spec_pending()[i]);
                }
            }
        }
        let mut drained: Vec<(usize, Chunk)> = Vec::new();
        let total: usize = self.pending_chunks.len();
        while self.next_unwritten_index < total && self.pending_chunks[
            self.next_unwritten_index
        ].is_some()
            invariant
                total == self.pending_chunks@.len(),
                start <= self.next_unwritten_index <= total,
                drained@.len() == self.next_unwritten_index - start,
                forall|d: int|
                    0 <= d < drained@.len() ==> ((#[trigger] drained@[d]) == stashed[start
                        + d]->Some_0 && stashed[start + d] is Some),
                forall|i: int|
                    self.next_unwritten_index <= i < total ==> (#[trigger] self.pending_chunks@[i])
                        == stashed[i],
                forall|i: int|
                    0 <= i < self.next_unwritten_index ==> (#[trigger] self.pending_chunks@[i])
                        is None,
            decreases total - self.next_unwritten_index,
    {
            let taken = self.take_slot(self.next_unwritten_index);
            match taken {
                Some(pair) => {
                    drained.push(pair);
                },
                None => {
                    proof {
                        assert(false);
                    }
                },
            }
            self.next_unwritten_index = self.next_unwritten_index + 1;
        }
        proof {
            assert forall|d: int| 0 <= d < drained@.len() implies (#[trigger] drained@[d])
                == if start + d == chunk_index {
                (index_in_header, compressed_chunk)
            } else {
                old(self).spec_pending()[start + d]->Some_0
            } by {
                if start + d != chunk_index {
                    assert(stashed[start + d] == old(self).spec_pending()[start + d]);
                }
            }
            assert forall|d: int| 0 <= d < drained@.len() implies (start + d == chunk_index || (
            #[trigger] old(self).spec_pending()[start + d]) is Some) by {
                assert(drained@[d] == stashed[start + d]->Some_0);
                assert(stashed[start + d] is Some);
                if start + d != chunk_index {
                    assert(stashed[start + d] == old(self).spec_pending()[start + d]);
                }
            }
        }
        drained
    }

    /// Take the stashed chunk at `i` out of the buffer, leaving the slot
    /// empty.
    fn take_slot(&mut self, i: usize) -> (r: Option<(usize, Chunk)>)
        requires
            i < old(self).pending_chunks@.len(),
        ensures
            r == old(self).pending_chunks@[i as int],
            final(self).pending_chunks@ == old(self).pending_chunks@.update(
                i as int,
                None::<(usize, Chunk)>,
            ),
            final(self).next_unwritten_index == old(self).next_unwritten_index,
    {
        let slot: &mut Option<(usize, Chunk)> = &mut self.pending_chunks[i];
        let taken = slot.take();
        taken
    }

    /// The next target position that may be handed back.
    pub fn next_unwritten(&self) -> (r: usize)
        ensures
            r == self.spec_next_unwritten(),
    {
        self.next_unwritten_index
    }

    /// Whether the slot for target position `i` is still empty.
    pub fn slot_is_empty(&self, i: usize) -> (r: bool)
        requires
            i < self.spec_pending().len(),
        ensures
            r == (self.spec_pending()[i as int] is None),
    {
        self.pending_chunks[i].is_none()
    }

    /// How many chunks the buffer was sized for.
    pub fn capacity(&self) -> (r: usize)
        ensures
            r == self.spec_pending().len(),
    {
        self.pending_chunks.len()
    }

    /// How many target positions have not yet been handed back.
    pub fn unwritten_count(&self) -> (r: usize)
        requires
            self.wf(),
        ensures
            r == self.spec_pending().len() - self.spec_next_unwritten(),
    {
        self.pending_chunks.len() - self.next_unwritten_index
    }
}

/// The models of `(increasing-y index, block)` pairs.
pub open spec fn spec_pair_models(v: Seq<(usize, UncompressedBlock)>) -> Seq<
    (usize, UncompressedBlockModel),
> {
    Seq::new(v.len(), |i: int| (v[i].0, v[i].1.model()))
}

/// Whether a block may be handed to the compressor at all: its layer
/// exists, its data has exactly the block's pixel bytes, and its position
/// fits the machine.
pub open spec fn spec_block_compressible(b: UncompressedBlockModel, headers: Seq<Header>) -> bool {
    &&& b.index.layer < headers.len()
    &&& headers[b.index.layer as int].valid()
    &&& b.data.len() == b.index.pixel_size.x * b.index.pixel_size.y * headers[
        b.index.layer as int
    ].spec_bytes_per_pixel()
    &&& b.index.pixel_position.y + headers[b.index.layer as int].layer_position.y <= usize::MAX
}

/// The position within its layer's file order at which the block with
/// increasing-y index `y` must stand: positions run backwards for
/// decreasing line order.
pub open spec fn spec_target_within(h: Header, y: int) -> int {
    if h.line_order is Decreasing {
        h.spec_chunk_count() - 1 - y
    } else {
        y
    }
}

/// The file position of one `(increasing-y index, block)` pair: the
/// blocks of earlier layers come first, then the layer's own file order.
pub open spec fn spec_item_target(
    headers: Seq<Header>,
    item: (usize, UncompressedBlockModel),
) -> int {
    crate::reader::spec_flat_slot(
        headers,
        item.1.index.layer as int,
        spec_target_within(headers[item.1.index.layer as int], item.0 as int),
    )
}

/// Whether some layer demands an explicit line order.
pub open spec fn spec_sorting_required(headers: Seq<Header>) -> bool {
    exists|i: int| 0 <= i < headers.len() && !((#[trigger] headers[i].line_order) is Unspecified)
}

/// Whether `items` is a permutation of the canonical block enumeration:
/// one grid-aligned block per file position, each position hit exactly
/// once.
#[verifier::opaque]
pub open spec fn spec_canonical_permutation(
    headers: Seq<Header>,
    items: Seq<(usize, UncompressedBlockModel)>,
) -> bool {
    &&& items.len() == spec_total_chunks(headers)
    &&& forall|k: int|
        0 <= k < items.len() ==> {
            let (y, b) = #[trigger] items[k];
            &&& b.index.layer < headers.len()
            &&& y < headers[b.index.layer as int].spec_chunk_count()
            &&& spec_block_compressible(b, headers)
            &&& spec_block_matches_header(b.index, headers[b.index.layer as int])
        }
    &&& forall|k1: int, k2: int|
        0 <= k1 < items.len() && 0 <= k2 < items.len() && k1 != k2 ==> spec_item_target(
            headers,
            #[trigger] items[k1],
        ) != spec_item_target(headers, #[trigger] items[k2])
    &&& forall|t: int|
        #![trigger spec_source_of(headers, items, t)]
        0 <= t < spec_total_chunks(headers) ==> exists|k: int|
            0 <= k < items.len() && spec_item_target(headers, #[trigger] items[k]) == t
}

/// Whether one of the first `upto` pairs targets file position `t`.
pub open spec fn spec_has_source(
    headers: Seq<Header>,
    items: Seq<(usize, UncompressedBlockModel)>,
    upto: int,
    t: int,
) -> bool {
    exists|k: int| 0 <= k < upto && spec_item_target(headers, #[trigger] items[k]) == t
}

/// The index of the pair that stands at file position `t`.
pub open spec fn spec_source_of(
    headers: Seq<Header>,
    items: Seq<(usize, UncompressedBlockModel)>,
    t: int,
) -> int {
    choose|k: int| 0 <= k < items.len() && spec_item_target(headers, items[k]) == t
}

/// The chunks of a permutation arranged in canonical file order: at each
/// file position, the compressed form of the pair that belongs there.
pub open spec fn spec_canon_items(
    headers: Seq<Header>,
    items: Seq<(usize, UncompressedBlockModel)>,
) -> Seq<(usize, crate::chunk::ChunkModel)> {
    Seq::new(
        spec_total_chunks(headers) as nat,
        |t: int|
            (
                items[spec_source_of(headers, items, t)].0,
                spec_compress_to_chunk(
                    items[spec_source_of(headers, items, t)].1,
                    headers,
                )->Ok_0,
            ),
    )
}

/// A pair of a permutation lands strictly inside the file's slot range.
pub proof fn lemma_item_target_in_range(
    headers: Seq<Header>,
    items: Seq<(usize, UncompressedBlockModel)>,
    k: int,
)
    requires
        forall|i: int| 0 <= i < headers.len() ==> (#[trigger] headers[i]).valid(),
        0 <= k < items.len(),
        items[k].1.index.layer < headers.len(),
        items[k].0 < headers[items[k].1.index.layer as int].spec_chunk_count(),
    ensures
        0 <= spec_item_target(headers, items[k]) < spec_total_chunks(headers),
{
    let layer = items[k].1.index.layer as int;
    let within = spec_target_within(headers[layer], items[k].0 as int);
    headers[layer].lemma_grid_bounds();
    crate::meta::lemma_total_chunks_bounds(headers.take(layer));
    crate::meta::lemma_total_chunks_take_monotone(headers, layer + 1, headers.len() as int);
    assert(headers.take(layer + 1).drop_last() =~= headers.take(layer));
    assert(headers.take(layer + 1).last() == headers[layer]);
    assert(headers.take(headers.len() as int) =~= headers);
}

/// The mid-run state of the reorder path: every stashed slot holds the
/// compressed chunk of the one inserted pair that targets it, every slot
/// before the next unwritten position was inserted, and the writer is
/// the canonical fold up to that position.
#[verifier::opaque]
pub open spec fn spec_reorder_inv(
    headers: Seq<Header>,
    items: Seq<(usize, UncompressedBlockModel)>,
    m0: ChunkWriterModel,
    sw: SortedBlocksWriter,
    writer: ChunkWriterModel,
    inserted: int,
) -> bool {
    &&& sw.wf()
    &&& sw.spec_pending().len() == spec_total_chunks(headers)
    &&& 0 <= inserted <= items.len()
    &&& 0 <= sw.spec_next_unwritten() <= spec_total_chunks(headers)
    &&& forall|t: int|
        #![trigger sw.spec_pending()[t]]
        sw.spec_next_unwritten() <= t < sw.spec_pending().len() ==> {
            &&& (sw.spec_pending()[t] is Some <==> spec_has_source(headers, items, inserted, t))
            &&& (sw.spec_pending()[t] matches Some(p) ==> (p.0 == items[
                spec_source_of(headers, items, t)
            ].0 && p.1.model() == spec_compress_to_chunk(
                items[spec_source_of(headers, items, t)].1,
                headers,
            )->Ok_0))
        }
    &&& forall|t: int|
        0 <= t < sw.spec_next_unwritten() ==> #[trigger] spec_has_source(
            headers,
            items,
            inserted,
            t,
        )
    &&& spec_write_chunks_fold(
        m0,
        spec_canon_items(headers, items).take(sw.spec_next_unwritten()),
    ) == Ok::<ChunkWriterModel, ErrorModel>(writer)
    &&& (inserted > 0 ==> (sw.spec_next_unwritten() == sw.spec_pending().len()
        || sw.spec_pending()[sw.spec_next_unwritten()] is None))
}

/// What compressing one pair and writing its chunk does to the writer.
pub open spec fn spec_compress_write_step(
    m: ChunkWriterModel,
    headers: Seq<Header>,
    item: (usize, UncompressedBlockModel),
) -> Result<ChunkWriterModel, ErrorModel> {
    match spec_compress_to_chunk(item.1, headers) {
        Ok(cm) => spec_write_chunk_step(m, item.0 as int, cm),
        Err(em) => Err(em),
    }
}

/// What compressing and writing a whole pair list does to the writer,
/// first pair first, stopping at the first failure.
pub open spec fn spec_compress_write_fold(
    m: ChunkWriterModel,
    headers: Seq<Header>,
    items: Seq<(usize, UncompressedBlockModel)>,
) -> Result<ChunkWriterModel, ErrorModel>
    decreases items.len(),
{
    if items.len() == 0 {
        Ok(m)
    } else {
        match spec_compress_write_fold(m, headers, items.drop_last()) {
            Ok(m2) => spec_compress_write_step(m2, headers, items.last()),
            Err(em) => Err(em),
        }
    }
}

/// Relies on rayon's `IntoParallelIterator`, `ParallelIterator::map` and
/// `collect`: the closure runs once per block on the worker pool, and
/// `collect` keeps the input order; the closure only calls this crate's
/// verified `compress_to_chunk`.
#[verifier::external_body]
fn par_compress_batch(blocks: Vec<UncompressedBlock>, headers: &Vec<Header>) -> (r: Vec<
    Result<Chunk, Error>,
>)
    requires
        headers@.len() <= crate::meta::MAX_HEADERS,
        forall|i: int|
            0 <= i < blocks@.len() ==> spec_block_compressible(
                (#[trigger] blocks@[i]).model(),
                headers@,
            ),
    ensures
        r@.len() == blocks@.len(),
        forall|i: int|
            0 <= i < blocks@.len() ==> result_model(#[trigger] r@[i]) == spec_compress_to_chunk(
                blocks@[i].model(),
                headers@,
            ) && (r@[i] matches Ok(c) ==> spec_chunk_encodable(c.model())),
{
    blocks.into_par_iter().map(|b| UncompressedBlock::compress_to_chunk(b, headers)).collect()
}

/// Compresses blocks into chunks and routes them to the chunk writer.
pub struct BlocksWriter {
    meta: MetaData,
    chunks_writer: ChunkWriter,
}

impl BlocksWriter {
    /// The metadata being written.
    pub closed spec fn spec_meta(&self) -> MetaData {
        self.meta
    }

    /// The wrapped chunk writer's state.
    pub closed spec fn spec_writer(&self) -> ChunkWriterModel {
        self.chunks_writer.model()
    }

    /// The writer's structural invariant.
    pub closed spec fn wf(&self) -> bool {
        &&& self.chunks_writer.wf()
        &&& self.meta.valid()
    }

    /// A block writer over `chunks_writer` for the image `meta` describes.
    pub fn new(meta: MetaData, chunks_writer: ChunkWriter) -> (r: BlocksWriter)
        requires
            meta.valid(),
            chunks_writer.wf(),
        ensures
            r.wf(),
            r.spec_meta() == meta,
            r.spec_writer() == chunks_writer.model(),
    {
        BlocksWriter { meta, chunks_writer }
    }

    /// This is where the compressed chunks are written to.
    pub fn inner_chunks_writer(&self) -> (r: &ChunkWriter)
        ensures
            r.model() == self.spec_writer(),
    {
        &self.chunks_writer
    }

    /// Give up the block writer and hand back the chunk writer, ready for
    /// `complete_meta_data`.
    pub fn into_chunks_writer(self) -> (r: ChunkWriter)
        ensures
            r.model() == self.spec_writer(),
            self.wf() ==> r.wf(),
    {
        self.chunks_writer
    }

    /// Compress one block and write its chunk at the given increasing-y
    /// slot.
    pub fn compress_block(
        &mut self,
        index_in_header_increasing_y: usize,
        block: UncompressedBlock,
    ) -> (r: Result<(), Error>)
        requires
            old(self).wf(),
            spec_block_compressible(block.model(), old(self).spec_meta().headers@),
        ensures
            final(self).wf(),
            final(self).spec_meta() == old(self).spec_meta(),
            match spec_compress_write_step(
                old(self).spec_writer(),
                old(self).spec_meta().headers@,
                (index_in_header_increasing_y, block.model()),
            ) {
                Ok(m2) => r is Ok && final(self).spec_writer() == m2,
                Err(em) => (r matches Err(e) && e.model() == em && final(self).spec_writer()
                    == old(self).spec_writer()),
            },
    {
        let chunk = match block.compress_to_chunk(&self.meta.headers) {
            Ok(c) => c,
            Err(e) => {
                return Err(e);
            },
        };
        self.chunks_writer.write_chunk(index_in_header_increasing_y, chunk)
    }

    /// Compress and write every pair, in the order given. The caller is
    /// responsible for supplying the order each layer's line order
    /// demands.
    #[verifier::loop_isolation(false)]
    #[verifier::spinoff_prover]
    #[verifier::rlimit(100)]
    pub fn compress_all_blocks_sequential(self, blocks: Vec<(usize, UncompressedBlock)>) -> (r:
        Result<BlocksWriter, Error>)
        requires
            self.wf(),
            forall|i: int|
                0 <= i < blocks@.len() ==> spec_block_compressible(
                    (#[trigger] blocks@[i]).1.model(),
                    self.spec_meta().headers@,
                ),
        ensures
            match spec_compress_write_fold(
                self.spec_writer(),
                self.spec_meta().headers@,
                spec_pair_models(blocks@),
            ) {
                Ok(m2) => (r matches Ok(w) && w.wf() && w.spec_meta() == self.spec_meta()
                    && w.spec_writer() == m2),
                Err(em) => (r matches Err(e) && e.model() == em),
            },
    {
        let ghost items = spec_pair_models(blocks@);
        let mut this = self;
        let mut blocks = blocks;
        let ghost mut done: int = 0;
        while blocks.len() > 0
            invariant
                this.wf(),
                this.spec_meta() == self.spec_meta(),
                0 <= done <= items.len(),
                blocks@.len() == items.len() - done,
                forall|k: int|
                    0 <= k < blocks@.len() ==> (#[trigger] items[done + k]) == (
                    blocks@[k].0,
                    blocks@[k].1.model(),
                    ),
                forall|k: int|
                    0 <= k < blocks@.len() ==> spec_block_compressible(
                        (#[trigger] blocks@[k]).1.model(),
                        self.spec_meta().headers@,
                    ),
                spec_compress_write_fold(
                    self.spec_writer(),
                    self.spec_meta().headers@,
                    items.take(done),
                ) == Ok::<ChunkWriterModel, ErrorModel>(this.spec_writer()),
            decreases blocks@.len(),
        {
            proof {
                assert(items.take(done + 1).drop_last() =~= items.take(done));
                assert(items.take(done + 1).last() == items[done]);
            }
            let ghost bprev = blocks@;
            let (index_in_header, block) = blocks.remove(0);
            match this.compress_block(index_in_header, block) {
                Ok(_) => {},
                Err(e) => {
                    proof {
                        lemma_fold_error_propagates(
                            self.spec_writer(),
                            self.spec_meta().headers@,
                            items,
                            done,
                        );
                    }
                    return Err(e);
                },
            }
            proof {
                done = done + 1;
                assert forall|k: int| 0 <= k < blocks@.len() implies (#[trigger] items[done + k])
                    == (blocks@[k].0, blocks@[k].1.model()) by {
                    assert(blocks@ == bprev.remove(0));
                    assert(blocks@[k] == bprev[k + 1]);
                    assert(items[(done - 1) + (k + 1)] == (bprev[k + 1].0, bprev[k + 1].1.model()));
                }
            }
        }
        proof {
            assert(items.take(done) =~= items);
        }
        Ok(this)
    }
}

/// Everything that holds right after a stash: the released run matches
/// the canonical order, and the buffer again satisfies the mid-run state
/// for one more inserted pair.
#[verifier::opaque]
pub open spec fn spec_flush_ready(
    hs: Seq<Header>,
    items: Seq<(usize, UncompressedBlockModel)>,
    m0: ChunkWriterModel,
    writer: ChunkWriterModel,
    sw: SortedBlocksWriter,
    dr0: Seq<(usize, Chunk)>,
    t0: int,
    inserted: int,
) -> bool {
    let canon = spec_canon_items(hs, items);
    &&& 0 < inserted + 1 <= items.len()
    &&& 0 <= t0
    &&& t0 + dr0.len() == sw.spec_next_unwritten()
    &&& sw.spec_next_unwritten() <= spec_total_chunks(hs)
    &&& sw.spec_pending().len() == spec_total_chunks(hs)
    &&& t0 + dr0.len() <= canon.len()
    &&& spec_write_chunks_fold(m0, canon.take(t0)) == Ok::<ChunkWriterModel, ErrorModel>(writer)
    &&& (forall|d: int|
        0 <= d < dr0.len() ==> ((#[trigger] dr0[d]).0 == canon[t0 + d].0 && dr0[d].1.model()
            == canon[t0 + d].1))
    &&& (forall|t: int|
        #![trigger sw.spec_pending()[t]]
        sw.spec_next_unwritten() <= t < sw.spec_pending().len() ==> {
            &&& (sw.spec_pending()[t] is Some <==> spec_has_source(hs, items, inserted + 1, t))
            &&& (sw.spec_pending()[t] matches Some(p) ==> (p.0 == items[
                spec_source_of(hs, items, t)
            ].0 && p.1.model() == spec_compress_to_chunk(
                items[spec_source_of(hs, items, t)].1,
                hs,
            )->Ok_0))
        })
    &&& (forall|t: int|
        0 <= t < sw.spec_next_unwritten() ==> #[trigger] spec_has_source(
            hs,
            items,
            inserted + 1,
            t,
        ))
    &&& (sw.spec_next_unwritten() == sw.spec_pending().len() || sw.spec_pending()[
        sw.spec_next_unwritten()
    ] is None)
}

/// After stashing the pair at `inserted`, every drained entry is the
/// canonical chunk of its file position, and the buffer again holds, at
/// every waiting position, the compressed chunk of the one inserted pair
/// that targets it.
#[verifier::spinoff_prover]
#[verifier::rlimit(100)]
proof fn lemma_reorder_after_stash(
    hs: Seq<Header>,
    items: Seq<(usize, UncompressedBlockModel)>,
    m0: ChunkWriterModel,
    writer: ChunkWriterModel,
    old_sw: SortedBlocksWriter,
    new_sw: SortedBlocksWriter,
    old_pending: Seq<Option<(usize, Chunk)>>,
    old_next: int,
    new_pending: Seq<Option<(usize, Chunk)>>,
    new_next: int,
    dr0: Seq<(usize, Chunk)>,
    inserted: int,
    target: int,
    y: usize,
    chunk: Chunk,
)
    requires
        spec_canonical_permutation(hs, items),
        spec_reorder_inv(hs, items, m0, old_sw, writer, inserted),
        old_pending == old_sw.spec_pending(),
        old_next == old_sw.spec_next_unwritten(),
        old_sw.wf(),
        0 <= inserted < items.len(),
        target == spec_item_target(hs, items[inserted]),
        y == items[inserted].0,
        chunk.model() == spec_compress_to_chunk(items[inserted].1, hs)->Ok_0,
        0 <= old_next <= target < old_pending.len(),
        old_pending[target] is None,
        new_pending.len() == old_pending.len(),
        new_next == old_next + dr0.len(),
        new_next <= old_pending.len(),
        forall|d: int|
            0 <= d < dr0.len() ==> (#[trigger] dr0[d]) == if old_next + d == target {
                (y, chunk)
            } else {
                old_pending[old_next + d]->Some_0
            },
        forall|d: int|
            0 <= d < dr0.len() ==> (old_next + d == target || (#[trigger] old_pending[old_next
                + d]) is Some),
        forall|i: int|
            new_next <= i < new_pending.len() ==> (#[trigger] new_pending[i]) == if i == target {
                Some((y, chunk))
            } else {
                old_pending[i]
            },
        new_sw.spec_pending() == new_pending,
        new_sw.spec_next_unwritten() == new_next,
        new_next == new_pending.len() || new_pending[new_next] is None,
    ensures
        spec_flush_ready(hs, items, m0, writer, new_sw, dr0, old_next, inserted),
{
    reveal(spec_canonical_permutation);
    reveal(spec_reorder_inv);
    let canon = spec_canon_items(hs, items);
    // every stashed or freshly drained position comes from a unique pair
    assert forall|t: int|
        old_next <= t < old_pending.len() && (old_pending[t] is Some || t == target) implies {
        &&& spec_has_source(hs, items, inserted + 1, t)
        &&& (t == target ==> spec_source_of(hs, items, t) == inserted)
    } by {
        if t == target {
            assert(spec_item_target(hs, items[inserted]) == t);
            let src = spec_source_of(hs, items, t);
            assert(spec_item_target(hs, items[src]) == t);
            if src != inserted {
                assert(false);
            }
        }
    }
    assert forall|d: int| 0 <= d < dr0.len() implies ((#[trigger] dr0[d]).0 == canon[old_next
        + d].0 && dr0[d].1.model() == canon[old_next + d].1) by {
        let tt = old_next + d;
        assert(canon[tt] == (
            items[spec_source_of(hs, items, tt)].0,
            spec_compress_to_chunk(items[spec_source_of(hs, items, tt)].1, hs)->Ok_0,
        ));
        if tt == target {
            assert(spec_source_of(hs, items, tt) == inserted);
        } else {
            assert(old_next + d == target || old_pending[old_next + d] is Some);
            assert(old_pending[tt] is Some);
            assert(dr0[d] == old_pending[tt]->Some_0);
        }
    }
    assert forall|t: int|
        new_next <= t < new_pending.len() implies {
        &&& (new_pending[t] is Some <==> spec_has_source(hs, items, inserted + 1, t))
        &&& (new_pending[t] matches Some(p) ==> (p.0 == items[spec_source_of(hs, items, t)].0
            && p.1.model() == spec_compress_to_chunk(
            items[spec_source_of(hs, items, t)].1,
            hs,
        )->Ok_0))
    } by {
        if t == target {
            assert(spec_item_target(hs, items[inserted]) == t);
            assert(spec_has_source(hs, items, inserted + 1, t));
            assert(spec_source_of(hs, items, t) == inserted);
        } else {
            if spec_has_source(hs, items, inserted + 1, t) {
                let k = choose|k: int|
                    0 <= k < inserted + 1 && spec_item_target(hs, #[trigger] items[k]) == t;
                if k == inserted {
                    assert(t == target);
                }
                assert(spec_has_source(hs, items, inserted, t)) by {
                    assert(0 <= k < inserted && spec_item_target(hs, items[k]) == t);
                }
            }
            if spec_has_source(hs, items, inserted, t) {
                let k = choose|k: int|
                    0 <= k < inserted && spec_item_target(hs, #[trigger] items[k]) == t;
                assert(spec_has_source(hs, items, inserted + 1, t)) by {
                    assert(0 <= k < inserted + 1 && spec_item_target(hs, items[k]) == t);
                }
            }
        }
    }
    assert forall|t: int| 0 <= t < new_next implies #[trigger] spec_has_source(
        hs,
        items,
        inserted + 1,
        t,
    ) by {
        if t < old_next {
            assert(spec_has_source(hs, items, inserted, t));
            let k = choose|k: int|
                0 <= k < inserted && spec_item_target(hs, #[trigger] items[k]) == t;
            assert(0 <= k < inserted + 1 && spec_item_target(hs, items[k]) == t);
        } else {
            if t == target {
                assert(spec_item_target(hs, items[inserted]) == t);
            } else {
                let d = t - old_next;
                assert(old_next + d == target || old_pending[old_next + d] is Some);
                assert(old_pending[t] is Some);
                assert(spec_has_source(hs, items, inserted, t));
                let k = choose|k: int|
                    0 <= k < inserted && spec_item_target(hs, #[trigger] items[k]) == t;
                assert(0 <= k < inserted + 1 && spec_item_target(hs, items[k]) == t);
            }
        }
    }
    assert(spec_flush_ready(hs, items, m0, writer, new_sw, dr0, old_next, inserted)) by {
        reveal(spec_flush_ready);
    }
}

/// Packaging the pieces of the mid-run state back into the invariant.
#[verifier::spinoff_prover]
proof fn lemma_reorder_assemble(
    hs: Seq<Header>,
    items: Seq<(usize, UncompressedBlockModel)>,
    m0: ChunkWriterModel,
    sw: SortedBlocksWriter,
    writer: ChunkWriterModel,
    inserted: int,
)
    requires
        sw.wf(),
        sw.spec_pending().len() == spec_total_chunks(hs),
        0 <= inserted <= items.len(),
        0 <= sw.spec_next_unwritten() <= spec_total_chunks(hs),
        forall|t: int|
            #![trigger sw.spec_pending()[t]]
            sw.spec_next_unwritten() <= t < sw.spec_pending().len() ==> {
                &&& (sw.spec_pending()[t] is Some <==> spec_has_source(hs, items, inserted, t))
                &&& (sw.spec_pending()[t] matches Some(p) ==> (p.0 == items[
                    spec_source_of(hs, items, t)
                ].0 && p.1.model() == spec_compress_to_chunk(
                    items[spec_source_of(hs, items, t)].1,
                    hs,
                )->Ok_0))
            },
        forall|t: int|
            0 <= t < sw.spec_next_unwritten() ==> #[trigger] spec_has_source(
                hs,
                items,
                inserted,
                t,
            ),
        spec_write_chunks_fold(
            m0,
            spec_canon_items(hs, items).take(sw.spec_next_unwritten()),
        ) == Ok::<ChunkWriterModel, ErrorModel>(writer),
        inserted > 0 ==> (sw.spec_next_unwritten() == sw.spec_pending().len()
            || sw.spec_pending()[sw.spec_next_unwritten()] is None),
    ensures
        spec_reorder_inv(hs, items, m0, sw, writer, inserted),
{
    reveal(spec_reorder_inv);
}

/// Once every pair of a permutation has been routed, the reorder buffer
/// has released everything: the writer is the full canonical fold.
#[verifier::spinoff_prover]
#[verifier::rlimit(100)]
proof fn lemma_reorder_complete(
    hs: Seq<Header>,
    items: Seq<(usize, UncompressedBlockModel)>,
    m0: ChunkWriterModel,
    sw: SortedBlocksWriter,
    writer: ChunkWriterModel,
)
    requires
        spec_canonical_permutation(hs, items),
        items.len() > 0,
        spec_reorder_inv(hs, items, m0, sw, writer, items.len() as int),
    ensures
        spec_write_chunks_fold(m0, spec_canon_items(hs, items)) == Ok::<
            ChunkWriterModel,
            ErrorModel,
        >(writer),
{
    reveal(spec_reorder_inv);
    reveal(spec_canonical_permutation);
    let canon = spec_canon_items(hs, items);
    if sw.spec_next_unwritten() < canon.len() {
        let nx = sw.spec_next_unwritten();
        assert(spec_source_of(hs, items, nx) == spec_source_of(hs, items, nx));
        assert(spec_has_source(hs, items, items.len() as int, nx));
        assert(sw.spec_pending()[nx] is Some);
        assert(sw.spec_pending()[nx] is None);
    }
    assert(canon.take(sw.spec_next_unwritten()) =~= canon);
}

impl BlocksWriter {
    /// Route one compressed chunk through the reorder buffer: stash it at
    /// its file position and write every chunk the buffer releases.
    ///
    /// On a run that feeds a permutation of the canonical enumeration,
    /// success advances the canonical fold by the released run, and any
    /// failure is the canonical fold's own failure.
    #[verifier::loop_isolation(false)]
    #[verifier::spinoff_prover]
    #[verifier::rlimit(100)]
    fn route_sorted_chunk(
        &mut self,
        sw: &mut SortedBlocksWriter,
        starts: &Vec<usize>,
        index_in_header: usize,
        chunk: Chunk,
        Ghost(items): Ghost<Seq<(usize, UncompressedBlockModel)>>,
        Ghost(m0): Ghost<ChunkWriterModel>,
        Ghost(inserted): Ghost<int>,
        Ghost(hyp_perm): Ghost<bool>,
    ) -> (r: Result<(), Error>)
        requires
            old(self).wf(),
            spec_chunk_encodable(chunk.model()),
            old(sw).wf(),
            starts@.len() == old(self).spec_meta().headers@.len(),
            forall|i: int|
                0 <= i < starts@.len() ==> (#[trigger] starts@[i]) == spec_total_chunks(
                    old(self).spec_meta().headers@.take(i),
                ),
            hyp_perm ==> (spec_canonical_permutation(old(self).spec_meta().headers@, items) && 0
                <= inserted < items.len() && chunk.model() == spec_compress_to_chunk(
                items[inserted].1,
                old(self).spec_meta().headers@,
            )->Ok_0 && index_in_header == items[inserted].0 && spec_reorder_inv(
                old(self).spec_meta().headers@,
                items,
                m0,
                *old(sw),
                old(self).spec_writer(),
                inserted,
            )),
        ensures
            final(self).wf(),
            final(self).spec_meta() == old(self).spec_meta(),
            final(sw).wf(),
            final(sw).spec_pending().len() == old(sw).spec_pending().len(),
            hyp_perm && r is Ok ==> spec_reorder_inv(
                old(self).spec_meta().headers@,
                items,
                m0,
                *final(sw),
                final(self).spec_writer(),
                inserted + 1,
            ),
            hyp_perm ==> (r matches Err(e) ==> spec_write_chunks_fold(
                m0,
                spec_canon_items(old(self).spec_meta().headers@, items),
            ) == Err::<ChunkWriterModel, ErrorModel>(e.model())),
    {
        proof {
            if hyp_perm {
                reveal(spec_canonical_permutation);
                assert(spec_block_matches_header(
                    items[inserted].1.index,
                    self.spec_meta().headers@[items[inserted].1.index.layer as int],
                ));
                assert(spec_compress_to_chunk(items[inserted].1, self.spec_meta().headers@)
                    is Ok);
                assert(chunk.layer_index == items[inserted].1.index.layer);
            }
        }
        let target: usize = match self.locate_target(
            sw,
            starts,
            index_in_header,
            chunk.layer_index,
            Ghost(items),
            Ghost(m0),
            Ghost(inserted),
            Ghost(hyp_perm),
        ) {
            Ok(t) => t,
            Err(e) => {
                return Err(e);
            },
        };
        self.stash_and_flush(
            sw,
            target,
            index_in_header,
            chunk,
            Ghost(items),
            Ghost(m0),
            Ghost(inserted),
            Ghost(hyp_perm),
        )
    }

    /// Stash one located chunk and write what the buffer releases.
    #[verifier::spinoff_prover]
    #[verifier::rlimit(100)]
    fn stash_and_flush(
        &mut self,
        sw: &mut SortedBlocksWriter,
        target: usize,
        index_in_header: usize,
        chunk: Chunk,
        Ghost(items): Ghost<Seq<(usize, UncompressedBlockModel)>>,
        Ghost(m0): Ghost<ChunkWriterModel>,
        Ghost(inserted): Ghost<int>,
        Ghost(hyp_perm): Ghost<bool>,
    ) -> (r: Result<(), Error>)
        requires
            old(self).wf(),
            spec_chunk_encodable(chunk.model()),
            old(sw).wf(),
            old(sw).spec_next_unwritten() <= target < old(sw).spec_pending().len(),
            old(sw).spec_pending()[target as int] is None,
            hyp_perm ==> (spec_canonical_permutation(old(self).spec_meta().headers@, items) && 0
                <= inserted < items.len() && chunk.model() == spec_compress_to_chunk(
                items[inserted].1,
                old(self).spec_meta().headers@,
            )->Ok_0 && index_in_header == items[inserted].0 && target == spec_item_target(
                old(self).spec_meta().headers@,
                items[inserted],
            ) && spec_reorder_inv(
                old(self).spec_meta().headers@,
                items,
                m0,
                *old(sw),
                old(self).spec_writer(),
                inserted,
            )),
        ensures
            final(self).wf(),
            final(self).spec_meta() == old(self).spec_meta(),
            final(sw).wf(),
            final(sw).spec_pending().len() == old(sw).spec_pending().len(),
            hyp_perm && r is Ok ==> spec_reorder_inv(
                old(self).spec_meta().headers@,
                items,
                m0,
                *final(sw),
                final(self).spec_writer(),
                inserted + 1,
            ),
            hyp_perm ==> (r matches Err(e) ==> spec_write_chunks_fold(
                m0,
                spec_canon_items(old(self).spec_meta().headers@, items),
            ) == Err::<ChunkWriterModel, ErrorModel>(e.model())),
    {
        let ghost hs = self.spec_meta().headers@;
        let ghost t0 = sw.spec_next_unwritten();
        let ghost sw_old = *sw;
        let ghost old_pending = sw.spec_pending();
        let ghost chunk_copy = chunk;
        let mut drained = sw.write_or_stash_chunk(target, index_in_header, chunk);
        let ghost dr0 = drained@;
        proof {
            assert(sw.spec_next_unwritten() == sw.spec_pending().len() || sw.spec_pending()[
                sw.spec_next_unwritten()
            ] is None);
            if hyp_perm {
                lemma_reorder_after_stash(
                    hs,
                    items,
                    m0,
                    old(self).spec_writer(),
                    sw_old,
                    *sw,
                    old_pending,
                    t0,
                    sw.spec_pending(),
                    sw.spec_next_unwritten(),
                    dr0,
                    inserted,
                    target as int,
                    index_in_header,
                    chunk_copy,
                );
            }
        }
        self.finish_flush(
            sw,
            drained,
            Ghost(items),
            Ghost(m0),
            Ghost(t0),
            Ghost(dr0),
            Ghost(inserted),
            Ghost(hyp_perm),
        )
    }

    /// Write out the released run and re-establish the mid-run state.
    #[verifier::spinoff_prover]
    #[verifier::rlimit(100)]
    fn finish_flush(
        &mut self,
        sw: &mut SortedBlocksWriter,
        drained: Vec<(usize, Chunk)>,
        Ghost(items): Ghost<Seq<(usize, UncompressedBlockModel)>>,
        Ghost(m0): Ghost<ChunkWriterModel>,
        Ghost(t0): Ghost<int>,
        Ghost(dr0): Ghost<Seq<(usize, Chunk)>>,
        Ghost(inserted): Ghost<int>,
        Ghost(hyp_perm): Ghost<bool>,
    ) -> (r: Result<(), Error>)
        requires
            old(self).wf(),
            old(sw).wf(),
            drained@ == dr0,
            forall|d: int|
                0 <= d < dr0.len() ==> spec_chunk_encodable((#[trigger] dr0[d]).1.model()),
            hyp_perm ==> spec_flush_ready(
                old(self).spec_meta().headers@,
                items,
                m0,
                old(self).spec_writer(),
                *old(sw),
                dr0,
                t0,
                inserted,
            ),
        ensures
            final(self).wf(),
            final(self).spec_meta() == old(self).spec_meta(),
            final(sw).wf(),
            *final(sw) == *old(sw),
            final(sw).spec_pending().len() == old(sw).spec_pending().len(),
            hyp_perm && r is Ok ==> spec_reorder_inv(
                old(self).spec_meta().headers@,
                items,
                m0,
                *final(sw),
                final(self).spec_writer(),
                inserted + 1,
            ),
            hyp_perm ==> (r matches Err(e) ==> spec_write_chunks_fold(
                m0,
                spec_canon_items(old(self).spec_meta().headers@, items),
            ) == Err::<ChunkWriterModel, ErrorModel>(e.model())),
    {
        let ghost hs = self.spec_meta().headers@;
        let ghost canon = spec_canon_items(hs, items);
        proof {
            if hyp_perm {
                reveal(spec_flush_ready);
            }
        }
        match self.write_released(
            drained,
            Ghost(canon),
            Ghost(m0),
            Ghost(t0),
            Ghost(dr0),
            Ghost(hyp_perm),
        ) {
            Ok(_) => {},
            Err(e) => {
                return Err(e);
            },
        }
        proof {
            if hyp_perm {
                lemma_reorder_assemble(
                    hs,
                    items,
                    m0,
                    *sw,
                    self.spec_writer(),
                    inserted + 1,
                );
            }
        }
        Ok(())
    }

    /// Find the file position a chunk must stand at, checking that its
    /// slot is still free.
    #[verifier::spinoff_prover]
    #[verifier::rlimit(100)]
    fn locate_target(
        &self,
        sw: &SortedBlocksWriter,
        starts: &Vec<usize>,
        index_in_header: usize,
        layer: usize,
        Ghost(items): Ghost<Seq<(usize, UncompressedBlockModel)>>,
        Ghost(m0): Ghost<ChunkWriterModel>,
        Ghost(inserted): Ghost<int>,
        Ghost(hyp_perm): Ghost<bool>,
    ) -> (r: Result<usize, Error>)
        requires
            self.wf(),
            sw.wf(),
            starts@.len() == self.spec_meta().headers@.len(),
            forall|i: int|
                0 <= i < starts@.len() ==> (#[trigger] starts@[i]) == spec_total_chunks(
                    self.spec_meta().headers@.take(i),
                ),
            hyp_perm ==> (spec_canonical_permutation(self.spec_meta().headers@, items) && 0
                <= inserted < items.len() && layer == items[inserted].1.index.layer
                && index_in_header == items[inserted].0 && spec_reorder_inv(
                self.spec_meta().headers@,
                items,
                m0,
                *sw,
                self.spec_writer(),
                inserted,
            )),
        ensures
            r matches Ok(t) ==> (sw.spec_next_unwritten() <= t < sw.spec_pending().len()
                && sw.spec_pending()[t as int] is None),
            hyp_perm ==> (r matches Ok(t) && t == spec_item_target(
                self.spec_meta().headers@,
                items[inserted],
            )),
    {
        let ghost hs = self.spec_meta().headers@;
        let hn: usize = self.meta.headers.len();
        if layer >= hn {
            proof {
                reveal(spec_canonical_permutation);
                assert(!hyp_perm);
            }
            return Err(Error::Invalid("chunk layer index"));
        }
        proof {
            self.meta.headers@[layer as int].lemma_grid_bounds();
        }
        let count = self.meta.headers[layer].chunk_count();
        if index_in_header >= count {
            proof {
                reveal(spec_canonical_permutation);
                assert(!hyp_perm);
            }
            return Err(Error::Invalid("too large chunk index"));
        }
        let within: usize = match self.meta.headers[layer].line_order {
            LineOrder::Decreasing => count - 1 - index_in_header,
            _ => index_in_header,
        };
        proof {
            crate::meta::lemma_total_chunks_bounds(hs.take(layer as int));
        }
        let target64: u64 = starts[layer] as u64 + within as u64;
        proof {
            if hyp_perm {
                reveal(spec_canonical_permutation);
                lemma_item_target_in_range(hs, items, inserted);
                assert(target64 == spec_item_target(hs, items[inserted]));
                reveal(spec_reorder_inv);
                assert(sw.spec_pending().len() == spec_total_chunks(hs));
            }
        }
        if target64 >= sw.capacity() as u64 {
            proof {
                assert(!hyp_perm);
            }
            return Err(Error::Invalid("too large chunk index"));
        }
        let target: usize = target64 as usize;
        if target < sw.next_unwritten() || !sw.slot_is_empty(target) {
            proof {
                if hyp_perm {
                    reveal(spec_reorder_inv);
                    reveal(spec_canonical_permutation);
                    assert(spec_has_source(hs, items, inserted, target as int));
                    let prior = choose|k: int|
                        0 <= k < inserted && spec_item_target(hs, #[trigger] items[k])
                            == target as int;
                    assert(spec_item_target(hs, items[prior]) == spec_item_target(
                        hs,
                        items[inserted],
                    ));
                    assert(false);
                }
            }
            return Err(Error::Invalid("chunk at this index is already written"));
        }
        Ok(target)
    }

    /// Write the chunks the reorder buffer released, in order.
    #[verifier::loop_isolation(false)]
    #[verifier::spinoff_prover]
    #[verifier::rlimit(100)]
    fn write_released(
        &mut self,
        drained: Vec<(usize, Chunk)>,
        Ghost(canon): Ghost<Seq<(usize, ChunkModel)>>,
        Ghost(m0): Ghost<ChunkWriterModel>,
        Ghost(t0): Ghost<int>,
        Ghost(dr0): Ghost<Seq<(usize, Chunk)>>,
        Ghost(hyp_perm): Ghost<bool>,
    ) -> (r: Result<(), Error>)
        requires
            old(self).wf(),
            drained@ == dr0,
            forall|d: int|
                0 <= d < dr0.len() ==> spec_chunk_encodable((#[trigger] dr0[d]).1.model()),
            hyp_perm ==> (0 <= t0 && t0 + dr0.len() <= canon.len() && spec_write_chunks_fold(
                m0,
                canon.take(t0),
            ) == Ok::<ChunkWriterModel, ErrorModel>(old(self).spec_writer()) && (forall|d: int|
                0 <= d < dr0.len() ==> ((#[trigger] dr0[d]).0 == canon[t0 + d].0 && dr0[
                    d
                ].1.model() == canon[t0 + d].1))),
        ensures
            final(self).wf(),
            final(self).spec_meta() == old(self).spec_meta(),
            hyp_perm && r is Ok ==> spec_write_chunks_fold(m0, canon.take(t0 + dr0.len()))
                == Ok::<ChunkWriterModel, ErrorModel>(final(self).spec_writer()),
            hyp_perm ==> (r matches Err(e) ==> spec_write_chunks_fold(m0, canon) == Err::<
                ChunkWriterModel,
                ErrorModel,
            >(e.model())),
    {
        let mut drained = drained;
        let ghost mut widx: int = 0;
        while drained.len() > 0
            invariant
                self.wf(),
                self.spec_meta() == old(self).spec_meta(),
                0 <= widx <= dr0.len(),
                drained@.len() == dr0.len() - widx,
                forall|d: int|
                    0 <= d < drained@.len() ==> (#[trigger] drained@[d]) == dr0[widx + d],
                forall|d: int|
                    0 <= d < dr0.len() ==> spec_chunk_encodable((#[trigger] dr0[d]).1.model()),
                hyp_perm ==> spec_write_chunks_fold(m0, canon.take(t0 + widx)) == Ok::<
                    ChunkWriterModel,
                    ErrorModel,
                >(self.spec_writer()),
            decreases drained@.len(),
        {
            let ghost dprev = drained@;
            let (yy, cc) = drained.remove(0);
            proof {
                assert forall|d: int| 0 <= d < drained@.len() implies (#[trigger] drained@[d])
                    == dr0[widx + 1 + d] by {
                    assert(drained@[d] == dprev[d + 1]);
                }
                assert(dprev[0] == dr0[widx]);
                if hyp_perm {
                    assert(canon.take(t0 + widx + 1).drop_last() =~= canon.take(t0 + widx));
                    assert(canon.take(t0 + widx + 1).last() == canon[t0 + widx]);
                }
            }
            match self.chunks_writer.write_chunk(yy, cc) {
                Ok(_) => {},
                Err(e) => {
                    proof {
                        if hyp_perm {
                            lemma_write_fold_error(m0, canon, t0 + widx);
                        }
                    }
                    return Err(e);
                },
            }
            proof {
                widx = widx + 1;
            }
        }
        proof {
            if hyp_perm {
                assert(widx == dr0.len());
            }
        }
        Ok(())
    }
}

impl BlocksWriter {
    /// Compress and write every pair using the worker pool.
    ///
    /// When any layer demands an explicit line order, a reorder buffer
    /// holds chunks that arrive ahead of their file position and releases
    /// them in file order: a permutation of the canonical block
    /// enumeration ends in exactly the writer state that writing the
    /// canonical order produces. Without such a layer, chunks are written
    /// in arrival order, exactly as the sequential path writes them. An
    /// image with no compressed layer takes the sequential path
    /// unchanged.
    #[verifier::loop_isolation(false)]
    #[verifier::spinoff_prover]
    #[verifier::rlimit(100)]
    pub fn compress_all_blocks_parallel(self, blocks: Vec<(usize, UncompressedBlock)>) -> (r:
        Result<BlocksWriter, Error>)
        requires
            self.wf(),
            forall|i: int|
                0 <= i < blocks@.len() ==> spec_block_compressible(
                    (#[trigger] blocks@[i]).1.model(),
                    self.spec_meta().headers@,
                ),
        ensures
            r matches Ok(w) ==> (w.wf() && w.spec_meta() == self.spec_meta()),
            (forall|i: int|
                0 <= i < self.spec_meta().headers@.len() ==> (#[trigger] self.spec_meta().headers@[
                    i
                ].compression) is Uncompressed) ==> match spec_compress_write_fold(
                self.spec_writer(),
                self.spec_meta().headers@,
                spec_pair_models(blocks@),
            ) {
                Ok(m2) => (r matches Ok(w) && w.spec_writer() == m2),
                Err(em) => (r matches Err(e) && e.model() == em),
            },
            (forall|i: int|
                0 <= i < self.spec_meta().headers@.len() ==> (#[trigger] self.spec_meta().headers@[
                    i
                ].line_order) is Unspecified) ==> match spec_compress_write_fold(
                self.spec_writer(),
                self.spec_meta().headers@,
                spec_pair_models(blocks@),
            ) {
                Ok(m2) => (r matches Ok(w) && w.spec_writer() == m2),
                Err(em) => (r matches Err(e) && e.model() == em),
            },
            spec_sorting_required(self.spec_meta().headers@) && (exists|i: int|
                0 <= i < self.spec_meta().headers@.len() && !((#[trigger] self.spec_meta().headers@[
                    i
                ].compression) is Uncompressed)) && spec_flat_len(self.spec_writer().tables)
                == spec_total_chunks(self.spec_meta().headers@) && spec_canonical_permutation(
                self.spec_meta().headers@,
                spec_pair_models(blocks@),
            ) ==> match spec_write_chunks_fold(
                self.spec_writer(),
                spec_canon_items(self.spec_meta().headers@, spec_pair_models(blocks@)),
            ) {
                Ok(m2) => (r matches Ok(w) && w.spec_writer() == m2),
                Err(em) => (r matches Err(e) && e.model() == em),
            },
    {
        let ghost hs = self.spec_meta().headers@;
        let ghost items = spec_pair_models(blocks@);
        let ghost m0 = self.spec_writer();
        let ghost hyp_nosort: bool = forall|i: int|
            0 <= i < hs.len() ==> (#[trigger] hs[i].line_order) is Unspecified;
        let hn: usize = self.meta.headers.len();
        let mut has_compression = false;
        let mut hi: usize = 0;
        while hi < hn
            invariant
                hi <= hn,
                has_compression == !(forall|i: int|
                    0 <= i < hi ==> (#[trigger] hs[i].compression) is Uncompressed),
            decreases hn - hi,
        {
            let compressed_here = match self.meta.headers[hi].compression {
                crate::meta::Compression::Uncompressed => false,
                _ => true,
            };
            has_compression = has_compression || compressed_here;
            hi = hi + 1;
        }
        if !has_compression {
            return self.compress_all_blocks_sequential(blocks);
        }
        let ghost hyp_perm: bool = spec_sorting_required(hs) && spec_flat_len(m0.tables)
            == spec_total_chunks(hs) && spec_canonical_permutation(hs, items);
        let ghost canon = spec_canon_items(hs, items);
        let total: usize = self.chunks_writer.total_chunks_count();
        let mut sorted_blocks_writer = SortedBlocksWriter::new(total, &self.meta.headers);
        proof {
            crate::meta::lemma_total_chunks_bounds(hs);
        }
        let mut starts: Vec<usize> = Vec::new();
        let mut li: usize = 0;
        while li < hn
            invariant
                li <= hn,
                self.wf(),
                starts@.len() == li,
                forall|i: int|
                    0 <= i < li ==> (#[trigger] starts@[i]) == spec_total_chunks(hs.take(i)),
            decreases hn - li,
        {
            let mut sum: usize = 0;
            if li > 0 {
                proof {
                    crate::meta::lemma_total_chunks_bounds(hs.take(li - 1));
                    crate::meta::lemma_total_chunks_prefix(hs, li as int);
                    hs[li - 1].lemma_grid_bounds();
                    assert(hs.take(li as int).drop_last() =~= hs.take(li - 1));
                    assert(hs.take(li as int).last() == hs[li - 1]);
                }
                sum = starts[li - 1] + self.meta.headers[li - 1].chunk_count();
            }
            starts.push(sum);
            li = li + 1;
        }
        let mut this = self;
        let mut remaining = blocks;
        let ghost mut inserted: int = 0;
        proof {
            reveal(spec_reorder_inv);
            assert(spec_canon_items(hs, items).take(0) =~= Seq::<(usize, ChunkModel)>::empty());
            assert(items.take(0) =~= Seq::<(usize, UncompressedBlockModel)>::empty());
            if hyp_perm {
                reveal(spec_canonical_permutation);
                assert(spec_has_source(hs, items, 0, 0) == spec_has_source(hs, items, 0, 0));
            }
        }
        while remaining.len() > 0
            invariant
                this.wf(),
                this.spec_meta() == self.spec_meta(),
                starts@.len() == hn,
                forall|i: int|
                    0 <= i < hn ==> (#[trigger] starts@[i]) == spec_total_chunks(hs.take(i)),
                0 <= inserted <= items.len(),
                inserted + remaining@.len() == items.len(),
                forall|q: int|
                    0 <= q < remaining@.len() ==> ((#[trigger] remaining@[q]).0, remaining@[
                        q
                    ].1.model()) == items[inserted + q],
                forall|q: int|
                    0 <= q < remaining@.len() ==> spec_block_compressible(
                        (#[trigger] remaining@[q]).1.model(),
                        hs,
                    ),
                spec_sorting_required(hs) <==> sorted_blocks_writer is Some,
                sorted_blocks_writer matches Some(sw) ==> sw.wf(),
                hyp_nosort ==> (sorted_blocks_writer is None && spec_compress_write_fold(
                    m0,
                    hs,
                    items.take(inserted),
                ) == Ok::<ChunkWriterModel, ErrorModel>(this.spec_writer())),
                hyp_perm ==> (sorted_blocks_writer matches Some(sw) && spec_reorder_inv(
                    hs,
                    items,
                    m0,
                    sw,
                    this.spec_writer(),
                    inserted,
                )),
            decreases remaining@.len(),
        {
            let mut batch_blocks: Vec<UncompressedBlock> = Vec::new();
            let mut batch_ys: Vec<usize> = Vec::new();
            let ghost base = inserted;
            let ghost rem0 = remaining@.len() as int;
            let mut t: usize = 0;
            while t < MAX_PARALLEL_COMPRESSIONS && remaining.len() > 0
                invariant
                    t <= MAX_PARALLEL_COMPRESSIONS,
                    remaining@.len() + t == rem0,
                    base + t <= items.len(),
                    batch_blocks@.len() == t,
                    batch_ys@.len() == t,
                    forall|q: int|
                        0 <= q < remaining@.len() ==> ((#[trigger] remaining@[q]).0, remaining@[
                            q
                        ].1.model()) == items[base + t + q],
                    forall|q: int|
                        0 <= q < remaining@.len() ==> spec_block_compressible(
                            (#[trigger] remaining@[q]).1.model(),
                            hs,
                        ),
                    forall|q: int|
                        0 <= q < t ==> ((#[trigger] batch_ys@[q]) == items[base + q].0),
                    forall|q: int|
                        0 <= q < t ==> ((#[trigger] batch_blocks@[q]).model() == items[base
                            + q].1),
                decreases MAX_PARALLEL_COMPRESSIONS - t,
            {
                let ghost rprev = remaining@;
                let (y, block) = remaining.remove(0);
                proof {
                    assert forall|q: int| 0 <= q < remaining@.len() implies ((
                    #[trigger] remaining@[q]).0, remaining@[q].1.model()) == items[base + t + 1
                        + q] && spec_block_compressible(remaining@[q].1.model(), hs) by {
                        assert(remaining@[q] == rprev[q + 1]);
                    }
                }
                batch_ys.push(y);
                batch_blocks.push(block);
                t = t + 1;
            }
            let batch_len: usize = batch_ys.len();
            let mut compressed = par_compress_batch(batch_blocks, &this.meta.headers);
            let mut ci: usize = 0;
            while ci < batch_len
                invariant
                    ci <= batch_len,
                    inserted == base + ci,
                    base + batch_len <= items.len(),
                    this.wf(),
                    this.spec_meta() == self.spec_meta(),
                    compressed@.len() == batch_len - ci,
                    forall|q: int|
                        0 <= q < compressed@.len() ==> (result_model(#[trigger] compressed@[q])
                            == spec_compress_to_chunk(items[inserted + q].1, hs) && (compressed@[
                            q
                        ] matches Ok(c) ==> spec_chunk_encodable(c.model()))),
                    forall|q: int|
                        0 <= q < batch_len ==> ((#[trigger] batch_ys@[q]) == items[base + q].0),
                    spec_sorting_required(hs) <==> sorted_blocks_writer is Some,
                    sorted_blocks_writer matches Some(sw) ==> sw.wf(),
                    hyp_nosort ==> (sorted_blocks_writer is None && spec_compress_write_fold(
                        m0,
                        hs,
                        items.take(inserted),
                    ) == Ok::<ChunkWriterModel, ErrorModel>(this.spec_writer())),
                    hyp_perm ==> (sorted_blocks_writer matches Some(sw) && spec_reorder_inv(
                        hs,
                        items,
                        m0,
                        sw,
                        this.spec_writer(),
                        inserted,
                    )),
                decreases batch_len - ci,
            {
                let ghost cprev = compressed@;
                let item = compressed.remove(0);
                proof {
                    assert forall|q: int| 0 <= q < compressed@.len() implies (result_model(
                        #[trigger] compressed@[q],
                    ) == spec_compress_to_chunk(items[inserted + 1 + q].1, hs) && (compressed@[
                    q] matches Ok(c) ==> spec_chunk_encodable(c.model()))) by {
                        assert(compressed@[q] == cprev[q + 1]);
                    }
                    if hyp_perm {
                        reveal(spec_canonical_permutation);
                        assert(spec_block_matches_header(
                            items[inserted].1.index,
                            hs[items[inserted].1.index.layer as int],
                        ));
                        assert(spec_compress_to_chunk(items[inserted].1, hs) is Ok);
                    }
                    if hyp_nosort {
                        assert(items.take(inserted + 1).drop_last() =~= items.take(inserted));
                        assert(items.take(inserted + 1).last() == items[inserted]);
                    }
                }
                let chunk = match item {
                    Ok(c) => c,
                    Err(e) => {
                        proof {
                            if hyp_nosort {
                                lemma_fold_error_propagates(m0, hs, items, inserted);
                            }
                        }
                        return Err(e);
                    },
                };
                let index_in_header = batch_ys[ci];
                match &mut sorted_blocks_writer {
                    Some(sw) => {
                        match this.route_sorted_chunk(
                            sw,
                            &starts,
                            index_in_header,
                            chunk,
                            Ghost(items),
                            Ghost(m0),
                            Ghost(inserted),
                            Ghost(hyp_perm),
                        ) {
                            Ok(_) => {},
                            Err(e) => {
                                return Err(e);
                            },
                        }
                        proof {
                            inserted = inserted + 1;
                        }
                    },
                    None => {
                        match this.chunks_writer.write_chunk(index_in_header, chunk) {
                            Ok(_) => {},
                            Err(e) => {
                                proof {
                                    if hyp_nosort {
                                        lemma_fold_error_propagates(m0, hs, items, inserted);
                                    }
                                }
                                return Err(e);
                            },
                        }
                        proof {
                            inserted = inserted + 1;
                        }
                    },
                }
                ci = ci + 1;
            }
        }
        proof {
            if hyp_nosort {
                assert(items.take(inserted) =~= items);
            }
            if hyp_perm {
                reveal(spec_reorder_inv);
                reveal(spec_canonical_permutation);
                let sw = sorted_blocks_writer->Some_0;
                if items.len() == 0 {
                    assert(canon.take(sw.spec_next_unwritten()) =~= canon);
                } else {
                    lemma_reorder_complete(hs, items, m0, sw, this.spec_writer());
                }
            }
        }
        Ok(this)
    }
}

/// Once one step of the fold fails, the whole fold fails the same way./// Once one step of the fold fails, the whole fold fails the same way.
proof fn lemma_fold_error_propagates(
    m: ChunkWriterModel,
    headers: Seq<Header>,
    items: Seq<(usize, UncompressedBlockModel)>,
    i: int,
)
    requires
        0 <= i < items.len(),
        spec_compress_write_fold(m, headers, items.take(i)) is Ok,
        spec_compress_write_step(
            spec_compress_write_fold(m, headers, items.take(i))->Ok_0,
            headers,
            items[i],
        ) is Err,
    ensures
        spec_compress_write_fold(m, headers, items) == spec_compress_write_step(
            spec_compress_write_fold(m, headers, items.take(i))->Ok_0,
            headers,
            items[i],
        ),
    decreases items.len(),
{
    if items.len() - 1 == i {
        assert(items.take(i) =~= items.drop_last());
        assert(items.last() == items[i]);
    } else {
        assert(items.drop_last().take(i) =~= items.take(i));
        assert(items.drop_last()[i] == items[i]);
        lemma_fold_error_propagates(m, headers, items.drop_last(), i);
    }
}

} // verus!
