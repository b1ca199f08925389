//! The two-pass chunk writer.
//!
//! Construction writes the metadata section and reserves a zeroed region
//! for the offset tables. Each `write_chunk` call appends one chunk and
//! records its absolute byte position in the table slot for its block.
//! `complete_meta_data` refuses to finish while any slot is unwritten,
//! then seeks back and patches the reserved region with the real tables.

use vstd::prelude::*;

use crate::bytes::{u64_le_bytes, write_u64_le};
use crate::chunk::{spec_chunk_bytes, spec_chunk_encodable, Chunk, ChunkModel};
use crate::error::{Error, ErrorModel};
use crate::io::{spec_write_at, ByteSink};
use crate::meta::{spec_total_chunks, Header, MetaData};
use crate::meta_io::{encode_meta_data, spec_meta_bytes};

verus! {

/// The mathematical shadow of a [`ChunkWriter`]: the file bytes so far and
/// the offset tables being filled.
pub struct ChunkWriterModel {
    /// The file bytes written so far.
    pub bytes: Seq<u8>,
    /// One offset table per layer, slot zero meaning "not yet written".
    pub tables: Seq<Seq<u64>>,
    /// Whether chunks carry a layer index field.
    pub multi: bool,
    /// Where the reserved offset-table region starts.
    pub table_start: int,
    /// Where the reserved offset-table region ends and chunks begin.
    pub table_end: int,
}

/// What one `write_chunk` call does to the writer: record the position,
/// append the chunk, or fail without changing anything.
pub open spec fn spec_write_chunk_step(
    m: ChunkWriterModel,
    index_in_header: int,
    c: ChunkModel,
) -> Result<ChunkWriterModel, ErrorModel> {
    if !(0 <= c.layer < m.tables.len()) {
        Err(ErrorModel::Invalid("chunk layer index"@))
    } else if index_in_header >= m.tables[c.layer].len() {
        Err(ErrorModel::Invalid("too large chunk index"@))
    } else if m.tables[c.layer][index_in_header] != 0 {
        Err(ErrorModel::Invalid("chunk at this index is already written"@))
    } else if !(c.block is ScanLine || c.block is Tile) {
        Err(ErrorModel::NotSupported("deep data not supported yet"@))
    } else if m.bytes.len() + spec_chunk_bytes(c, m.multi).len() > usize::MAX {
        Err(ErrorModel::Io("file too large for this machine"@))
    } else {
        Ok(
            ChunkWriterModel {
                bytes: m.bytes + spec_chunk_bytes(c, m.multi),
                tables: m.tables.update(
                    c.layer,
                    m.tables[c.layer].update(index_in_header, m.bytes.len() as u64),
                ),
                ..m
            },
        )
    }
}

/// The flat little-endian bytes of one offset table.
pub open spec fn spec_table_bytes(t: Seq<u64>) -> Seq<u8>
    decreases t.len(),
{
    if t.len() == 0 {
        Seq::<u8>::empty()
    } else {
        spec_table_bytes(t.drop_last()) + u64_le_bytes(t.last())
    }
}

/// The flat little-endian bytes of all offset tables, header order.
pub open spec fn spec_tables_bytes(ts: Seq<Seq<u64>>) -> Seq<u8>
    decreases ts.len(),
{
    if ts.len() == 0 {
        Seq::<u8>::empty()
    } else {
        spec_tables_bytes(ts.drop_last()) + spec_table_bytes(ts.last())
    }
}

/// Whether every slot of every table has been written.
pub open spec fn spec_tables_complete(ts: Seq<Seq<u64>>) -> bool {
    forall|i: int, j: int|
        0 <= i < ts.len() && 0 <= j < ts[i].len() ==> (#[trigger] ts[i][j]) != 0
}

/// Whether every written slot points into the chunk region
/// `[table_end, eof)`.
pub open spec fn spec_slots_in_range(ts: Seq<Seq<u64>>, table_end: int, eof: int) -> bool {
    forall|i: int, j: int|
        0 <= i < ts.len() && 0 <= j < ts[i].len() && (#[trigger] ts[i][j]) != 0 ==> table_end <= ts[i][j] < eof
}

/// Writes chunks at increasing positions and patches the offset tables on
/// completion.
pub struct ChunkWriter {
    header_count: usize,
    byte_writer: ByteSink,
    table_start: u64,
    table_end: u64,
    chunk_indices_increasing_y: Vec<Vec<u64>>,
    chunk_count: usize,
}

impl ChunkWriter {
    /// The mathematical shadow of this writer.
    pub closed spec fn model(&self) -> ChunkWriterModel {
        ChunkWriterModel {
            bytes: self.byte_writer.bytes(),
            tables: Seq::new(
                self.chunk_indices_increasing_y@.len(),
                |i: int| self.chunk_indices_increasing_y@[i]@,
            ),
            multi: self.header_count > 1,
            table_start: self.table_start as int,
            table_end: self.table_end as int,
        }
    }

    /// The writer's structural invariant: the sink appends at its end, the
    /// reserved region lies before every written chunk, and every written
    /// slot points into the chunk region.
    pub closed spec fn wf(&self) -> bool {
        &&& self.byte_writer.wf()
        &&& self.byte_writer.pos() == self.byte_writer.bytes().len()
        &&& self.header_count == self.chunk_indices_increasing_y@.len()
        &&& 1 <= self.header_count <= crate::meta::MAX_HEADERS
        &&& self.table_start <= self.table_end <= self.byte_writer.bytes().len()
        &&& self.table_end - self.table_start == 8 * self.spec_total_slots()
        &&& self.chunk_count == self.spec_total_slots()
        &&& 1 <= self.chunk_count <= crate::meta::MAX_TOTAL_CHUNKS
        &&& spec_slots_in_range(
            self.model().tables,
            self.table_end as int,
            self.byte_writer.bytes().len() as int,
        )
    }

    /// How many table slots there are over all layers.
    pub closed spec fn spec_total_slots(&self) -> int {
        spec_flat_len(self.model().tables)
    }

    /// The total number of chunks that the complete file will contain.
    pub fn total_chunks_count(&self) -> (r: usize)
        requires
            self.wf(),
        ensures
            r == spec_flat_len(self.model().tables),
    {
        self.chunk_count
    }
}

/// The summed length of a list of tables.
pub open spec fn spec_flat_len(ts: Seq<Seq<u64>>) -> int
    decreases ts.len(),
{
    if ts.len() == 0 {
        0
    } else {
        spec_flat_len(ts.drop_last()) + ts.last().len()
    }
}

/// Replacing one table by one of the same length keeps the slot total.
pub proof fn lemma_flat_len_update(ts: Seq<Seq<u64>>, i: int, row: Seq<u64>)
    requires
        0 <= i < ts.len(),
        row.len() == ts[i].len(),
    ensures
        spec_flat_len(ts.update(i, row)) == spec_flat_len(ts),
    decreases ts.len(),
{
    if i == ts.len() - 1 {
        assert(ts.update(i, row).drop_last() =~= ts.drop_last());
    } else {
        assert(ts.update(i, row).drop_last() =~= ts.drop_last().update(i, row));
        lemma_flat_len_update(ts.drop_last(), i, row);
    }
}

/// One table's bytes are eight per slot.
pub proof fn lemma_table_bytes_len(t: Seq<u64>)
    ensures
        spec_table_bytes(t).len() == 8 * t.len(),
    decreases t.len(),
{
    if t.len() > 0 {
        lemma_table_bytes_len(t.drop_last());
    }
}

/// All tables' bytes are eight per slot over all tables.
pub proof fn lemma_tables_bytes_len(ts: Seq<Seq<u64>>)
    ensures
        spec_tables_bytes(ts).len() == 8 * spec_flat_len(ts),
        spec_flat_len(ts) >= 0,
    decreases ts.len(),
{
    if ts.len() > 0 {
        lemma_tables_bytes_len(ts.drop_last());
        lemma_table_bytes_len(ts.last());
    }
}

/// A row of `count` empty table slots.
fn zero_row(count: usize) -> (r: Vec<u64>)
    ensures
        r@ == Seq::new(count as nat, |i: int| 0u64),
{
    let mut v: Vec<u64> = Vec::new();
    let mut i: usize = 0;
    while i < count
        invariant
            i <= count,
            v@ == Seq::new(i as nat, |k: int| 0u64),
        decreases count - i,
    {
        v.push(0);
        i = i + 1;
        proof {
            assert(v@ =~= Seq::new(i as nat, |k: int| 0u64));
        }
    }
    v
}

impl ChunkWriter {
    /// Write the metadata section, reserve a zeroed offset-table region,
    /// and return the writer parked at the first chunk position.
    #[verifier::loop_isolation(false)]
    pub fn new_for_buffered(headers: Vec<Header>, pedantic: bool) -> (r: Result<
        (MetaData, ChunkWriter),
        Error,
    >)
        ensures
            !crate::meta::spec_headers_valid(headers@) ==> (r matches Err(e) && e.is_invalid_with(
                "headers"@,
            )),
            crate::meta::spec_headers_valid(headers@) ==> (r matches Ok(p) && {
                let (meta, w) = p;
                &&& meta.headers@ == headers@
                &&& w.wf()
                &&& w.model().multi == (headers@.len() > 1)
                &&& w.model().table_start == spec_meta_bytes(headers@).len()
                &&& w.model().table_end == w.model().table_start + 8 * spec_total_chunks(
                    headers@,
                )
                &&& w.model().bytes == spec_meta_bytes(headers@) + crate::io::zero_bytes(
                    8 * spec_total_chunks(headers@),
                )
                &&& w.model().tables.len() == headers@.len()
                &&& forall|i: int|
                    0 <= i < headers@.len() ==> (#[trigger] w.model().tables[i]) == Seq::new(
                        headers@[i].spec_chunk_count() as nat,
                        |k: int| 0u64,
                    )
            }),
    {
        let _ = pedantic;
        let meta = MetaData { headers };
        if !meta.is_valid() {
            return Err(Error::Invalid("headers"));
        }
        let encoded = encode_meta_data(&meta);
        let mut sink = ByteSink::new();
        let result = sink.write_all(&encoded);
        proof {
            assert(result is Ok);
            assert(sink.bytes() =~= spec_meta_bytes(meta.headers@));
        }
        let table_start: u64 = sink.byte_position() as u64;
        let total: usize = meta.total_chunk_count();
        let table_end: u64 = table_start + 8 * (total as u64);
        let seek_result = sink.seek_write_to(table_end);
        proof {
            assert(seek_result is Ok);
        }
        let header_count: usize = meta.headers.len();
        let mut tables: Vec<Vec<u64>> = Vec::new();
        let mut i: usize = 0;
        while i < header_count
            invariant
                i <= header_count,
                meta.valid(),
                header_count == meta.headers@.len(),
                tables@.len() == i,
                forall|k: int|
                    0 <= k < i ==> (#[trigger] tables@[k])@ == Seq::new(
                        meta.headers@[k].spec_chunk_count() as nat,
                        |j: int| 0u64,
                    ),
                spec_flat_len(Seq::new(tables@.len(), |k: int| tables@[k]@))
                    == spec_total_chunks(meta.headers@.take(i as int)),
            decreases header_count - i,
        {
            proof {
                meta.headers@[i as int].lemma_grid_bounds();
            }
            let ghost ts_old = Seq::new(tables@.len(), |k: int| tables@[k]@);
            let count = meta.headers[i].chunk_count();
            let row = zero_row(count);
            tables.push(row);
            i = i + 1;
            proof {
                let ts = Seq::new(tables@.len(), |k: int| tables@[k]@);
                assert(ts.drop_last() =~= ts_old);
                assert(ts.last() == row@);
                assert(spec_flat_len(ts) == spec_flat_len(ts_old) + count);
                assert(meta.headers@.take(i as int).drop_last() =~= meta.headers@.take(i - 1));
                assert(meta.headers@.take(i as int).last() == meta.headers@[i - 1]);
            }
        }
        proof {
            assert(meta.headers@.take(header_count as int) =~= meta.headers@);
            crate::meta::lemma_total_chunks_bounds(meta.headers@);
            crate::meta::lemma_total_chunks_bounds(meta.headers@.drop_last());
            meta.headers@.last().lemma_grid_bounds();
            assert(spec_total_chunks(meta.headers@) >= 1);
        }
        let w = ChunkWriter {
            header_count,
            byte_writer: sink,
            table_start,
            table_end,
            chunk_indices_increasing_y: tables,
            chunk_count: total,
        };
        proof {
            assert(w.model().tables =~= Seq::new(
                w.chunk_indices_increasing_y@.len(),
                |i: int| w.chunk_indices_increasing_y@[i]@,
            ));
            assert forall|i: int, j: int|
                0 <= i < w.model().tables.len() && 0 <= j < w.model().tables[i].len() && (
                #[trigger] w.model().tables[i][j]) != 0 implies w.table_end
                <= w.model().tables[i][j] < w.byte_writer.bytes().len() by {}
        }
        Ok((meta, w))
    }

    /// Append one chunk and record its byte position in the table slot
    /// `index_in_header_increasing_y` of its layer.
    ///
    /// Fails when the slot does not exist, when it was already written,
    /// and on deep blocks; a failure changes nothing.
    #[verifier::spinoff_prover]
    #[verifier::rlimit(100)]
    pub fn write_chunk(&mut self, index_in_header_increasing_y: usize, chunk: Chunk) -> (r: Result<
        (),
        Error,
    >)
        requires
            old(self).wf(),
            spec_chunk_encodable(chunk.model()),
        ensures
            final(self).wf(),
            match spec_write_chunk_step(
                old(self).model(),
                index_in_header_increasing_y as int,
                chunk.model(),
            ) {
                Ok(m2) => r is Ok && final(self).model() == m2,
                Err(em) => (r matches Err(e) && e.model() == em && final(self).model() == old(
                    self,
                ).model()),
            },
    {
        let layer = chunk.layer_index;
        if layer >= self.chunk_indices_increasing_y.len() {
            return Err(Error::Invalid("chunk layer index"));
        }
        if index_in_header_increasing_y >= self.chunk_indices_increasing_y[layer].len() {
            return Err(Error::Invalid("too large chunk index"));
        }
        if self.chunk_indices_increasing_y[layer][index_in_header_increasing_y] != 0 {
            return Err(Error::Invalid("chunk at this index is already written"));
        }
        let position: u64 = self.byte_writer.byte_position() as u64;
        let multi = self.header_count > 1;
        match chunk.write(&mut self.byte_writer, multi) {
            Ok(_) => {},
            Err(e) => {
                return Err(e);
            },
        }
        self.chunk_indices_increasing_y[layer][index_in_header_increasing_y] = position;
        proof {
            lemma_flat_len_update(
                old(self).model().tables,
                layer as int,
                self.model().tables[layer as int],
            );
            let m2 = spec_write_chunk_step(
                old(self).model(),
                index_in_header_increasing_y as int,
                chunk.model(),
            )->Ok_0;
            assert(self.model().tables =~= m2.tables);
            assert(self.model() == m2);
            assert forall|i: int, j: int|
                0 <= i < self.model().tables.len() && 0 <= j < self.model().tables[i].len() && (
                #[trigger] self.model().tables[i][j]) != 0 implies self.table_end
                <= self.model().tables[i][j] < self.byte_writer.bytes().len() by {
                if !(i == layer && j == index_in_header_increasing_y) {
                    assert(self.model().tables[i][j] == old(self).model().tables[i][j]);
                }
            }
        }
        Ok(())
    }

    /// Patch the reserved region with the offset tables and hand back the
    /// finished file bytes.
    ///
    /// Fails, changing nothing, while any slot is still unwritten. On
    /// success every slot is non-zero and points into the chunk region
    /// between the offset tables and the end of the file.
    #[verifier::loop_isolation(false)]
    #[verifier::spinoff_prover]
    #[verifier::rlimit(100)]
    pub fn complete_meta_data(self) -> (r: Result<Vec<u8>, Error>)
        requires
            self.wf(),
        ensures
            !spec_tables_complete(self.model().tables) ==> (r matches Err(e) && e.is_invalid_with(
                "some chunks are not written yet"@,
            )),
            spec_tables_complete(self.model().tables) ==> (r matches Ok(out) && {
                let m = self.model();
                &&& out@ == spec_write_at(m.bytes, m.table_start, spec_tables_bytes(m.tables))
                &&& out@.len() == m.bytes.len()
                &&& out@.subrange(m.table_start, m.table_end) == spec_tables_bytes(m.tables)
                &&& spec_tables_complete(m.tables)
                &&& spec_slots_in_range(m.tables, m.table_end, out@.len() as int)
            }),
    {
        let n: usize = self.chunk_indices_increasing_y.len();
        let mut i: usize = 0;
        while i < n
            invariant
                n == self.chunk_indices_increasing_y@.len(),
                i <= n,
                forall|a: int, b: int|
                    0 <= a < i && 0 <= b < self.model().tables[a].len() ==> (
                    #[trigger] self.model().tables[a][b]) != 0,
            decreases n - i,
        {
            let row_len: usize = self.chunk_indices_increasing_y[i].len();
            let mut j: usize = 0;
            while j < row_len
                invariant
                    n == self.chunk_indices_increasing_y@.len(),
                    i < n,
                    row_len == self.model().tables[i as int].len(),
                    j <= row_len,
                    forall|a: int, b: int|
                        0 <= a < i && 0 <= b < self.model().tables[a].len() ==> (
                        #[trigger] self.model().tables[a][b]) != 0,
                    forall|b: int|
                        0 <= b < j ==> (#[trigger] self.model().tables[i as int][b]) != 0,
                decreases row_len - j,
            {
                if self.chunk_indices_increasing_y[i][j] == 0 {
                    return Err(Error::Invalid("some chunks are not written yet"));
                }
                j = j + 1;
            }
            i = i + 1;
        }
        proof {
            lemma_tables_bytes_len(self.model().tables);
        }
        let mut flat: Vec<u8> = Vec::new();
        let mut a: usize = 0;
        while a < n
            invariant
                n == self.chunk_indices_increasing_y@.len(),
                a <= n,
                flat@ == spec_tables_bytes(self.model().tables.take(a as int)),
                flat@.len() <= 8 * spec_flat_len(self.model().tables),
            decreases n - a,
        {
            let row_len: usize = self.chunk_indices_increasing_y[a].len();
            let ghost flat_head = flat@;
            let mut b: usize = 0;
            while b < row_len
                invariant
                    n == self.chunk_indices_increasing_y@.len(),
                    a < n,
                    row_len == self.model().tables[a as int].len(),
                    b <= row_len,
                    flat_head == spec_tables_bytes(self.model().tables.take(a as int)),
                    flat@ == flat_head + spec_table_bytes(
                        self.model().tables[a as int].take(b as int),
                    ),
                    flat@.len() <= 8 * spec_flat_len(self.model().tables),
                decreases row_len - b,
            {
                proof {
                    lemma_flat_prefix_bound(self.model().tables, a as int, b as int);
                }
                write_u64_le(&mut flat, self.chunk_indices_increasing_y[a][b]);
                b = b + 1;
                proof {
                    let row = self.model().tables[a as int];
                    assert(row.take(b as int).drop_last() =~= row.take(b - 1));
                    assert(row.take(b as int).last() == row[b - 1]);
                    assert(flat@ =~= flat_head + spec_table_bytes(row.take(b as int)));
                }
            }
            a = a + 1;
            proof {
                let ts = self.model().tables;
                assert(ts[a - 1].take(row_len as int) =~= ts[a - 1]);
                assert(ts.take(a as int).drop_last() =~= ts.take(a - 1));
                assert(ts.take(a as int).last() == ts[a - 1]);
                assert(flat@ =~= spec_tables_bytes(ts.take(a as int)));
            }
        }
        proof {
            assert(self.model().tables.take(n as int) =~= self.model().tables);
        }
        let mut writer = self.byte_writer;
        proof {
            writer.lemma_bounds();
        }
        let seek_result = writer.seek_write_to(self.table_start);
        proof {
            assert(seek_result is Ok);
        }
        let write_result = writer.write_all(&flat);
        proof {
            assert(write_result is Ok);
        }
        let flush_result = writer.flush();
        proof {
            assert(flush_result is Ok);
        }
        let out = writer.into_bytes();
        proof {
            let m = self.model();
            assert(out@.subrange(m.table_start, m.table_end) =~= spec_tables_bytes(m.tables));
        }
        Ok(out)
    }
}

/// The models of `(increasing-y index, chunk)` pairs.
pub open spec fn spec_chunk_pair_models(v: Seq<(usize, Chunk)>) -> Seq<(usize, ChunkModel)> {
    Seq::new(v.len(), |i: int| (v[i].0, v[i].1.model()))
}

/// What writing a whole pair list does to the writer, first pair first,
/// stopping at the first failure.
pub open spec fn spec_write_chunks_fold(
    m: ChunkWriterModel,
    items: Seq<(usize, ChunkModel)>,
) -> Result<ChunkWriterModel, ErrorModel>
    decreases items.len(),
{
    if items.len() == 0 {
        Ok(m)
    } else {
        match spec_write_chunks_fold(m, items.drop_last()) {
            Ok(m2) => spec_write_chunk_step(m2, items.last().0 as int, items.last().1),
            Err(em) => Err(em),
        }
    }
}

/// Once one write of the list fails, the whole list fails the same way.
pub proof fn lemma_write_fold_error(m: ChunkWriterModel, items: Seq<(usize, ChunkModel)>, i: int)
    requires
        0 <= i < items.len(),
        spec_write_chunks_fold(m, items.take(i)) is Ok,
        spec_write_chunk_step(
            spec_write_chunks_fold(m, items.take(i))->Ok_0,
            items[i].0 as int,
            items[i].1,
        ) is Err,
    ensures
        spec_write_chunks_fold(m, items) == spec_write_chunk_step(
            spec_write_chunks_fold(m, items.take(i))->Ok_0,
            items[i].0 as int,
            items[i].1,
        ),
    decreases items.len(),
{
    if items.len() - 1 == i {
        assert(items.take(i) =~= items.drop_last());
        assert(items.last() == items[i]);
    } else {
        assert(items.drop_last().take(i) =~= items.take(i));
        assert(items.drop_last()[i] == items[i]);
        lemma_write_fold_error(m, items.drop_last(), i);
    }
}

/// Write a whole file in one call: write the metadata, every given chunk
/// at its slot, and the patched offset tables, returning the file bytes.
#[verifier::loop_isolation(false)]
#[verifier::rlimit(100)]
pub fn write_chunks_with(headers: Vec<Header>, pedantic: bool, chunks: Vec<(usize, Chunk)>) -> (r:
    Result<Vec<u8>, Error>)
    requires
        forall|i: int|
            0 <= i < chunks@.len() ==> spec_chunk_encodable((#[trigger] chunks@[i]).1.model()),
    ensures
        !crate::meta::spec_headers_valid(headers@) ==> (r matches Err(e) && e.is_invalid_with(
            "headers"@,
        )),
        crate::meta::spec_headers_valid(headers@) ==> {
            let m0 = ChunkWriterModel {
                bytes: spec_meta_bytes(headers@) + crate::io::zero_bytes(
                    8 * spec_total_chunks(headers@),
                ),
                tables: Seq::new(
                    headers@.len(),
                    |i: int|
                        Seq::new(headers@[i].spec_chunk_count() as nat, |k: int| 0u64),
                ),
                multi: headers@.len() > 1,
                table_start: spec_meta_bytes(headers@).len() as int,
                table_end: spec_meta_bytes(headers@).len() + 8 * spec_total_chunks(headers@),
            };
            match spec_write_chunks_fold(m0, spec_chunk_pair_models(chunks@)) {
                Ok(m2) => if spec_tables_complete(m2.tables) {
                    r matches Ok(out) && out@ == spec_write_at(
                        m2.bytes,
                        m2.table_start,
                        spec_tables_bytes(m2.tables),
                    ) && spec_slots_in_range(m2.tables, m2.table_end, out@.len() as int)
                } else {
                    r matches Err(e) && e.is_invalid_with("some chunks are not written yet"@)
                },
                Err(em) => (r matches Err(e) && e.model() == em),
            }
        },
{
    let (meta, writer) = match ChunkWriter::new_for_buffered(headers, pedantic) {
        Ok(p) => p,
        Err(e) => {
            return Err(e);
        },
    };
    let ghost m0 = writer.model();
    let ghost items = spec_chunk_pair_models(chunks@);
    proof {
        assert(m0.tables =~= Seq::new(
            meta.headers@.len(),
            |i: int| Seq::new(meta.headers@[i].spec_chunk_count() as nat, |k: int| 0u64),
        ));
    }
    let mut writer = writer;
    let mut chunks = chunks;
    let ghost mut done: int = 0;
    while chunks.len() > 0
        invariant
            writer.wf(),
            0 <= done <= items.len(),
            chunks@.len() == items.len() - done,
            forall|k: int|
                0 <= k < chunks@.len() ==> (#[trigger] items[done + k]) == (
                chunks@[k].0,
                chunks@[k].1.model(),
                ),
            forall|k: int|
                0 <= k < chunks@.len() ==> spec_chunk_encodable((#[trigger] chunks@[k]).1.model()),
            spec_write_chunks_fold(m0, items.take(done)) == Ok::<ChunkWriterModel, ErrorModel>(
                writer.model(),
            ),
        decreases chunks@.len(),
    {
        proof {
            assert(items.take(done + 1).drop_last() =~= items.take(done));
            assert(items.take(done + 1).last() == items[done]);
        }
        let ghost cprev = chunks@;
        let (index_in_header, chunk) = chunks.remove(0);
        match writer.write_chunk(index_in_header, chunk) {
            Ok(_) => {},
            Err(e) => {
                proof {
                    lemma_write_fold_error(m0, items, done);
                }
                return Err(e);
            },
        }
        proof {
            done = done + 1;
            assert forall|k: int| 0 <= k < chunks@.len() implies (#[trigger] items[done + k]) == (
            chunks@[k].0,
            chunks@[k].1.model(),
            ) by {
                assert(chunks@[k] == cprev[k + 1]);
                assert(items[(done - 1) + (k + 1)] == (cprev[k + 1].0, cprev[k + 1].1.model()));
            }
        }
    }
    proof {
        assert(items.take(done) =~= items);
    }
    writer.complete_meta_data()
}

/// Reports progress to a sink around an inner chunk writer: nothing done
/// before the first chunk, and the running count after each one.
pub struct OnProgressChunkWriter<P> {
    chunk_writer: ChunkWriter,
    written_chunks: usize,
    on_progress: P,
}

impl<P: crate::reader::ProgressSink> OnProgressChunkWriter<P> {
    /// The wrapped writer's state.
    pub closed spec fn spec_writer(&self) -> ChunkWriterModel {
        self.chunk_writer.model()
    }

    /// How many chunks have been written through this decorator.
    pub closed spec fn spec_written(&self) -> int {
        self.written_chunks as int
    }

    /// The decorator's structural invariant.
    pub closed spec fn wf(&self) -> bool {
        self.chunk_writer.wf()
    }

    /// Wrap `chunk_writer` so that `on_progress` hears about every chunk.
    pub fn new(chunk_writer: ChunkWriter, on_progress: P) -> (r: OnProgressChunkWriter<P>)
        requires
            chunk_writer.wf(),
        ensures
            r.wf(),
            r.spec_writer() == chunk_writer.model(),
            r.spec_written() == 0,
    {
        OnProgressChunkWriter { chunk_writer, written_chunks: 0, on_progress }
    }

    /// Write one chunk through the inner writer, reporting progress to
    /// the sink before the first chunk and after every successful one.
    pub fn write_chunk(&mut self, index_in_header_increasing_y: usize, chunk: Chunk) -> (r: Result<
        (),
        Error,
    >)
        requires
            old(self).wf(),
            spec_chunk_encodable(chunk.model()),
        ensures
            final(self).wf(),
            match spec_write_chunk_step(
                old(self).spec_writer(),
                index_in_header_increasing_y as int,
                chunk.model(),
            ) {
                Ok(m2) => r is Ok && final(self).spec_writer() == m2 && (old(self).spec_written()
                    < usize::MAX ==> final(self).spec_written() == old(self).spec_written() + 1),
                Err(em) => (r matches Err(e) && e.model() == em && final(self).spec_writer()
                    == old(self).spec_writer()),
            },
    {
        let total = self.chunk_writer.total_chunks_count();
        if self.written_chunks == 0 {
            self.on_progress.on_progress(0, total);
        }
        match self.chunk_writer.write_chunk(index_in_header_increasing_y, chunk) {
            Ok(_) => {},
            Err(e) => {
                return Err(e);
            },
        }
        if self.written_chunks < usize::MAX {
            self.written_chunks = self.written_chunks + 1;
        }
        self.on_progress.on_progress(self.written_chunks, total);
        Ok(())
    }

    /// The total number of chunks that the complete file will contain.
    pub fn total_chunks_count(&self) -> (r: usize)
        requires
            self.wf(),
        ensures
            r == spec_flat_len(self.spec_writer().tables),
    {
        self.chunk_writer.total_chunks_count()
    }

    /// Give up the decorator and hand back the inner writer.
    pub fn into_inner(self) -> (r: ChunkWriter)
        ensures
            r.model() == self.spec_writer(),
            self.wf() ==> r.wf(),
    {
        self.chunk_writer
    }
}

/// The bytes of a prefix of the tables never outrun the whole region.
proof fn lemma_flat_prefix_bound(ts: Seq<Seq<u64>>, a: int, b: int)
    requires
        0 <= a < ts.len(),
        0 <= b <= ts[a].len(),
    ensures
        spec_tables_bytes(ts.take(a)).len() + spec_table_bytes(ts[a].take(b)).len() + 8 <= 8
            * spec_flat_len(ts) || b == ts[a].len(),
        spec_tables_bytes(ts.take(a)).len() + spec_table_bytes(ts[a].take(b)).len() <= 8
            * spec_flat_len(ts),
    decreases ts.len(),
{
    lemma_tables_bytes_len(ts.take(a));
    lemma_table_bytes_len(ts[a].take(b));
    lemma_flat_len_parts(ts, a);
}

/// The slots before table `a`, the slots of table `a`, and the slots after
/// it sum to the whole.
proof fn lemma_flat_len_parts(ts: Seq<Seq<u64>>, a: int)
    requires
        0 <= a < ts.len(),
    ensures
        spec_flat_len(ts.take(a)) + ts[a].len() <= spec_flat_len(ts),
        spec_flat_len(ts.take(a)) == spec_tables_bytes(ts.take(a)).len() / 8,
    decreases ts.len(),
{
    lemma_tables_bytes_len(ts.take(a));
    if a + 1 == ts.len() {
        assert(ts.drop_last() =~= ts.take(a));
    } else {
        lemma_flat_len_parts(ts.drop_last(), a);
        assert(ts.drop_last().take(a) =~= ts.take(a));
        assert(ts[a] == ts.drop_last()[a]);
    }
}

} // verus!
