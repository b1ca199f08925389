//! Decompressor drivers: sequential in-thread decompression, and a
//! parallel driver that decompresses bounded batches of chunks on a
//! worker pool.
//!
//! Both drivers produce the same blocks: each one's output is pinned to
//! the same mapping of the reader's chunk sequence through
//! `spec_decompress_chunk`.

use rayon::iter::IntoParallelIterator;
use rayon::iter::ParallelIterator;
use vstd::prelude::*;

use crate::block::{
    spec_decompress_chunk, ub_result_model, UncompressedBlock, UncompressedBlockModel,
};
use crate::chunk::{Chunk, ChunkModel};
use crate::error::Error;
use crate::meta::{Header, MetaData};
use crate::reader::ChunksReader;

verus! {

/// How many chunks may be in flight on the worker pool at once.
pub const MAX_PARALLEL_BLOCKS: usize = 4;

/// What one emitted chunk item decompresses to: the block for a chunk
/// that decompresses cleanly, nothing for an unreadable or undecodable
/// item.
pub open spec fn spec_decompressed_item(
    oc: Option<ChunkModel>,
    headers: Seq<Header>,
    pedantic: bool,
) -> Option<UncompressedBlockModel> {
    match oc {
        Some(c) => match spec_decompress_chunk(c, headers, pedantic) {
            Ok(b) => Some(b),
            Err(_) => None,
        },
        None => None,
    }
}

/// What a whole emitted chunk sequence decompresses to, item by item.
pub open spec fn spec_decompressed_emit(
    emit: Seq<Option<ChunkModel>>,
    headers: Seq<Header>,
    pedantic: bool,
) -> Seq<Option<UncompressedBlockModel>> {
    Seq::new(emit.len(), |i: int| spec_decompressed_item(emit[i], headers, pedantic))
}

/// Relies on rayon's `IntoParallelIterator`, `ParallelIterator::map` and
/// `collect`: the closure runs once per chunk on the worker pool, and
/// `collect` keeps the input order; the closure only calls this crate's
/// verified `decompress_chunk`.
#[verifier::external_body]
fn par_decompress_batch(chunks: Vec<Chunk>, meta_data: &MetaData, pedantic: bool) -> (r: Vec<
    Result<UncompressedBlock, Error>,
>)
    requires
        meta_data.valid(),
    ensures
        r@.len() == chunks@.len(),
        forall|i: int|
            0 <= i < chunks@.len() ==> ub_result_model(#[trigger] r@[i]) == spec_decompress_chunk(
                chunks@[i].model(),
                meta_data.headers@,
                pedantic,
            ),
{
    chunks.into_par_iter().map(
        |c| UncompressedBlock::decompress_chunk(c, meta_data, pedantic),
    ).collect()
}

/// Pulls chunks from the reader and decompresses each on the calling
/// thread, in order.
pub struct SequentialBlockDecompressor<R: ChunksReader> {
    remaining_chunks_reader: R,
    pedantic: bool,
}

impl<R: ChunksReader> SequentialBlockDecompressor<R> {
    /// The reader's structural invariant carries over.
    pub closed spec fn wf(&self) -> bool {
        self.remaining_chunks_reader.wf()
    }

    /// The blocks still to come.
    pub closed spec fn emit(&self) -> Seq<Option<UncompressedBlockModel>> {
        spec_decompressed_emit(
            self.remaining_chunks_reader.emit(),
            self.remaining_chunks_reader.meta().headers@,
            self.pedantic,
        )
    }

    /// The chunk items still to come from the wrapped reader.
    pub closed spec fn spec_inner_emit(&self) -> Seq<Option<ChunkModel>> {
        self.remaining_chunks_reader.emit()
    }

    /// The metadata of the file being read.
    pub closed spec fn spec_meta(&self) -> MetaData {
        self.remaining_chunks_reader.meta()
    }

    /// Wrap `reader` for in-order, in-thread decompression.
    pub fn new(reader: R, pedantic: bool) -> (r: SequentialBlockDecompressor<R>)
        requires
            reader.wf(),
        ensures
            r.wf(),
            r.spec_meta() == reader.meta(),
            r.spec_inner_emit() == reader.emit(),
            r.emit() == spec_decompressed_emit(
                reader.emit(),
                reader.meta().headers@,
                pedantic,
            ),
    {
        SequentialBlockDecompressor { remaining_chunks_reader: reader, pedantic }
    }

    /// The metadata of the file being read.
    pub fn meta_data(&self) -> (r: &MetaData)
        requires
            self.wf(),
        ensures
            *r == self.spec_meta(),
            r.valid(),
    {
        self.remaining_chunks_reader.meta_data()
    }

    /// Read and decompress the next block.
    pub fn decompress_next_block(&mut self) -> (r: Option<Result<UncompressedBlock, Error>>)
        requires
            old(self).wf(),
        ensures
            final(self).wf(),
            final(self).spec_meta() == old(self).spec_meta(),
            old(self).emit().len() == 0 ==> (r is None && final(self).emit() == old(self).emit()),
            old(self).emit().len() > 0 ==> (final(self).emit() == old(self).emit().skip(1) && (r
                matches Some(item) && (old(self).spec_inner_emit()[0] matches Some(c)
                ==> ub_result_model(item) == spec_decompress_chunk(
                c,
                old(self).spec_meta().headers@,
                old(self).spec_pedantic(),
            )) && (old(self).emit()[0] matches Some(b) ==> (item matches Ok(block)
                && block.model() == b)) && (old(self).emit()[0] is None ==> item is Err))),
    {
        let item = match self.remaining_chunks_reader.read_next_chunk() {
            Some(i) => i,
            None => {
                return None;
            },
        };
        proof {
            assert(old(self).emit().len() == old(self).spec_inner_emit().len());
            assert(self.emit() =~= old(self).emit().skip(1));
        }
        let compressed_chunk = match item {
            Ok(c) => c,
            Err(e) => {
                return Some(Err(e));
            },
        };
        Some(
            UncompressedBlock::decompress_chunk(
                compressed_chunk,
                self.remaining_chunks_reader.meta_data(),
                self.pedantic,
            ),
        )
    }

    /// Whether codec-internal checks are enabled.
    pub closed spec fn spec_pedantic(&self) -> bool {
        self.pedantic
    }
}

/// Pulls bounded batches of chunks from the reader and decompresses each
/// batch on the worker pool; blocks come out in reading order.
pub struct ParallelBlockDecompressor<R: ChunksReader> {
    remaining_chunks: R,
    pedantic: bool,
    pending: Vec<Result<UncompressedBlock, Error>>,
}

impl<R: ChunksReader> ParallelBlockDecompressor<R> {
    /// The blocks already decompressed and waiting to be handed out.
    pub closed spec fn spec_pending_models(&self) -> Seq<Option<UncompressedBlockModel>> {
        Seq::new(
            self.pending@.len(),
            |i: int|
                match self.pending@[i] {
                    Ok(b) => Some(b.model()),
                    Err(_) => None,
                },
        )
    }

    /// The blocks still to come: what waits in the batch buffer, then
    /// what the reader still holds.
    pub closed spec fn emit(&self) -> Seq<Option<UncompressedBlockModel>> {
        self.spec_pending_models() + spec_decompressed_emit(
            self.remaining_chunks.emit(),
            self.remaining_chunks.meta().headers@,
            self.pedantic,
        )
    }

    /// The reader's structural invariant carries over.
    pub closed spec fn wf(&self) -> bool {
        self.remaining_chunks.wf()
    }

    /// The metadata of the file being read.
    pub closed spec fn spec_meta(&self) -> MetaData {
        self.remaining_chunks.meta()
    }

    /// Whether codec-internal checks are enabled.
    pub closed spec fn spec_pedantic(&self) -> bool {
        self.pedantic
    }

    /// Wrap `chunks` for batched parallel decompression. No task is
    /// spawned until the first block is asked for.
    pub fn new(chunks: R, pedantic: bool) -> (r: ParallelBlockDecompressor<R>)
        requires
            chunks.wf(),
        ensures
            r.wf(),
            r.spec_meta() == chunks.meta(),
            r.emit() == spec_decompressed_emit(
                chunks.emit(),
                chunks.meta().headers@,
                pedantic,
            ),
    {
        let r = ParallelBlockDecompressor {
            remaining_chunks: chunks,
            pedantic,
            pending: Vec::new(),
        };
        proof {
            assert(r.spec_pending_models() =~= Seq::<Option<UncompressedBlockModel>>::empty());
            assert(r.emit() =~= spec_decompressed_emit(
                chunks.emit(),
                chunks.meta().headers@,
                pedantic,
            ));
        }
        r
    }

    /// The metadata of the file being read.
    pub fn meta_data(&self) -> (r: &MetaData)
        requires
            self.wf(),
        ensures
            *r == self.spec_meta(),
            r.valid(),
    {
        self.remaining_chunks.meta_data()
    }

    /// Refill the batch buffer from the reader if it ran dry, then hand
    /// out the next block.
    #[verifier::loop_isolation(false)]
    #[verifier::rlimit(100)]
    pub fn decompress_next_block(&mut self) -> (r: Option<Result<UncompressedBlock, Error>>)
        requires
            old(self).wf(),
        ensures
            final(self).wf(),
            final(self).spec_meta() == old(self).spec_meta(),
            old(self).emit().len() == 0 ==> (r is None && final(self).emit() == old(self).emit()),
            old(self).emit().len() > 0 ==> (final(self).emit() == old(self).emit().skip(1) && (r
                matches Some(item) && (old(self).emit()[0] matches Some(b) ==> (item matches Ok(
                block,
            ) && block.model() == b)) && (old(self).emit()[0] is None ==> item is Err))),
    {
        let ghost headers = self.remaining_chunks.meta().headers@;
        if self.pending.len() == 0 {
            // drain phase done: refill with a fresh batch
            let mut batch: Vec<Chunk> = Vec::new();
            let mut stopped: Option<Error> = None;
            let mut done = false;
            let ghost emit0 = self.remaining_chunks.emit();
            let mut taken: usize = 0;
            while taken < MAX_PARALLEL_BLOCKS && stopped.is_none() && !done
                invariant
                    self.remaining_chunks.wf(),
                    self.remaining_chunks.meta() == old(self).spec_meta(),
                    self.pedantic == old(self).spec_pedantic(),
                    self.pending@ == old(self).pending@,
                    taken <= MAX_PARALLEL_BLOCKS,
                    batch@.len() + (if stopped is Some {
                        1int
                    } else {
                        0int
                    }) == taken,
                    taken <= emit0.len(),
                    self.remaining_chunks.emit() == emit0.skip(taken as int),
                    forall|i: int|
                        0 <= i < batch@.len() ==> ((#[trigger] emit0[i]) matches Some(c) && c
                            == batch@[i].model()),
                    stopped is Some ==> emit0[taken - 1] is None,
                    done ==> taken == emit0.len(),
                decreases MAX_PARALLEL_BLOCKS - taken, (if done {
                    0int
                } else {
                    1int
                }),
            {
                match self.remaining_chunks.read_next_chunk() {
                    Some(item) => {
                        proof {
                            assert(emit0.skip(taken as int).len() > 0);
                            assert(emit0.skip(taken as int).skip(1) =~= emit0.skip(taken + 1));
                            assert(emit0.skip(taken as int)[0] == emit0[taken as int]);
                        }
                        match item {
                            Ok(c) => {
                                batch.push(c);
                            },
                            Err(e) => {
                                stopped = Some(e);
                            },
                        }
                        taken = taken + 1;
                    },
                    None => {
                        proof {
                            assert(emit0.skip(taken as int).len() == 0);
                        }
                        done = true;
                    },
                }
            }
            let ghost batch_view = batch@;
            let results = par_decompress_batch(
                batch,
                self.remaining_chunks.meta_data(),
                self.pedantic,
            );
            let mut pending = results;
            match stopped {
                Some(e) => {
                    pending.push(Err(e));
                },
                None => {},
            }
            self.pending = pending;
            proof {
                assert(self.spec_pending_models() =~= spec_decompressed_emit(
                    emit0,
                    headers,
                    self.pedantic,
                ).take(taken as int));
                assert(spec_decompressed_emit(
                    emit0.skip(taken as int),
                    headers,
                    self.pedantic,
                ) =~= spec_decompressed_emit(emit0, headers, self.pedantic).skip(taken as int));
                assert(self.emit() =~= old(self).emit());
            }
        }
        proof {
            assert(old(self).emit().len() == self.emit().len());
        }
        if self.pending.len() == 0 {
            proof {
                assert(self.emit() =~= old(self).emit());
            }
            return None;
        }
        let ghost before = *self;
        let item = self.pending.remove(0);
        proof {
            assert(self.emit() =~= before.emit().skip(1));
            assert(before.emit()[0] == before.spec_pending_models()[0]);
        }
        Some(item)
    }
}

/// Whether every item of a decompressed emission is a block.
pub open spec fn spec_emit_all_ok(s: Seq<Option<UncompressedBlockModel>>) -> bool {
    forall|i: int| 0 <= i < s.len() ==> (#[trigger] s[i]) is Some
}

/// Decompress every block of `reader` on the calling thread, in order,
/// stopping at the first error.
#[verifier::loop_isolation(false)]
pub fn decompress_sequential<R: ChunksReader>(reader: R, pedantic: bool) -> (r: Result<
    Vec<UncompressedBlock>,
    Error,
>)
    requires
        reader.wf(),
    ensures
        ({
            let s = spec_decompressed_emit(reader.emit(), reader.meta().headers@, pedantic);
            &&& (spec_emit_all_ok(s) ==> (r matches Ok(v) && v@.len() == s.len() && (forall|i: int|
                0 <= i < s.len() ==> (#[trigger] v@[i]).model() == s[i]->Some_0)))
            &&& (!spec_emit_all_ok(s) ==> r is Err)
        }),
{
    let ghost s = spec_decompressed_emit(reader.emit(), reader.meta().headers@, pedantic);
    let mut decompressor = SequentialBlockDecompressor::new(reader, pedantic);
    let mut out: Vec<UncompressedBlock> = Vec::new();
    loop
        invariant
            decompressor.wf(),
            out@.len() + decompressor.emit().len() == s.len(),
            decompressor.emit() == s.skip(out@.len() as int),
            forall|i: int| 0 <= i < out@.len() ==> (#[trigger] s[i]) is Some,
            forall|i: int|
                0 <= i < out@.len() ==> (#[trigger] out@[i]).model() == s[i]->Some_0,
        decreases decompressor.emit().len(),
    {
        let ghost done = out@.len() as int;
        match decompressor.decompress_next_block() {
            Some(item) => {
                proof {
                    assert(decompressor.emit() =~= s.skip(done + 1));
                    assert(s.skip(done)[0] == s[done]);
                }
                match item {
                    Ok(block) => {
                        proof {
                            assert(s[done] is Some);
                            assert(block.model() == s[done]->Some_0);
                        }
                        out.push(block);
                        proof {
                            assert(out@[done] == block);
                            assert(forall|i: int|
                                0 <= i < done ==> (#[trigger] out@[i]) == out@.drop_last()[i]);
                        }
                    },
                    Err(e) => {
                        proof {
                            assert(s[done] is None);
                            assert(!spec_emit_all_ok(s));
                        }
                        return Err(e);
                    },
                }
            },
            None => {
                proof {
                    assert(s.skip(done).len() == 0);
                    assert(out@.len() == s.len());
                    assert(spec_emit_all_ok(s));
                }
                return Ok(out);
            },
        }
    }
}

/// Decompress every block of `reader` on the worker pool, stopping at the
/// first error. The blocks are exactly those of sequential decompression:
/// for every reader the two drivers' outputs are pinned to the same
/// sequence, so they carry the same multiset of indexed blocks.
#[verifier::loop_isolation(false)]
pub fn decompress_parallel<R: ChunksReader>(reader: R, pedantic: bool) -> (r: Result<
    Vec<UncompressedBlock>,
    Error,
>)
    requires
        reader.wf(),
    ensures
        ({
            let s = spec_decompressed_emit(reader.emit(), reader.meta().headers@, pedantic);
            &&& (spec_emit_all_ok(s) ==> (r matches Ok(v) && v@.len() == s.len() && (forall|i: int|
                0 <= i < s.len() ==> (#[trigger] v@[i]).model() == s[i]->Some_0)))
            &&& (!spec_emit_all_ok(s) ==> r is Err)
        }),
{
    let ghost s = spec_decompressed_emit(reader.emit(), reader.meta().headers@, pedantic);
    let mut decompressor = ParallelBlockDecompressor::new(reader, pedantic);
    let mut out: Vec<UncompressedBlock> = Vec::new();
    loop
        invariant
            decompressor.wf(),
            out@.len() + decompressor.emit().len() == s.len(),
            decompressor.emit() == s.skip(out@.len() as int),
            forall|i: int| 0 <= i < out@.len() ==> (#[trigger] s[i]) is Some,
            forall|i: int|
                0 <= i < out@.len() ==> (#[trigger] out@[i]).model() == s[i]->Some_0,
        decreases decompressor.emit().len(),
    {
        let ghost done = out@.len() as int;
        match decompressor.decompress_next_block() {
            Some(item) => {
                proof {
                    assert(decompressor.emit() =~= s.skip(done + 1));
                    assert(s.skip(done)[0] == s[done]);
                }
                match item {
                    Ok(block) => {
                        proof {
                            assert(s[done] is Some);
                            assert(block.model() == s[done]->Some_0);
                        }
                        out.push(block);
                        proof {
                            assert(out@[done] == block);
                            assert(forall|i: int|
                                0 <= i < done ==> (#[trigger] out@[i]) == out@.drop_last()[i]);
                        }
                    },
                    Err(e) => {
                        proof {
                            assert(s[done] is None);
                            assert(!spec_emit_all_ok(s));
                        }
                        return Err(e);
                    },
                }
            },
            None => {
                proof {
                    assert(s.skip(done).len() == 0);
                    assert(out@.len() == s.len());
                    assert(spec_emit_all_ok(s));
                }
                return Ok(out);
            },
        }
    }
}

/// Parallel decompression returns the same blocks as sequential
/// decompression over the same chunk stream: any two outputs pinned to
/// the same decompressed emission are equal element by element, and so
/// carry the same multiset of located blocks.
pub proof fn lemma_parallel_sequential_agree(
    s: Seq<Option<UncompressedBlockModel>>,
    sequential: Seq<UncompressedBlockModel>,
    parallel: Seq<UncompressedBlockModel>,
)
    requires
        sequential.len() == s.len(),
        parallel.len() == s.len(),
        forall|i: int| 0 <= i < s.len() ==> (#[trigger] sequential[i]) == s[i]->Some_0,
        forall|i: int| 0 <= i < s.len() ==> (#[trigger] parallel[i]) == s[i]->Some_0,
    ensures
        sequential == parallel,
        sequential.to_multiset() == parallel.to_multiset(),
{
    assert(sequential =~= parallel);
}

} // verus!
