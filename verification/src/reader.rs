//! Reading a file: the metadata-holding reader, offset tables, and the
//! chunk readers that enumerate a file's chunks in file order or filtered
//! by a caller predicate.

use vstd::multiset::Multiset;
use vstd::prelude::*;

use crate::bytes::le_u64_at;
use crate::chunk::{spec_chunk_parse_ok, spec_parsed_chunk, Chunk, ChunkModel};
use crate::error::Error;
use crate::io::ByteSource;
use crate::meta::{
    spec_total_chunks, BlockDescription, Header, MetaData, TileCoordinates,
};
use crate::meta_io::{read_meta_data, spec_meta_bytes, spec_meta_record_at};
use crate::block::BlockIndex;

verus! {

broadcast use vstd::seq_lib::group_to_multiset_ensures;

/// Whether `s` never decreases.
pub open spec fn spec_sorted(s: Seq<u64>) -> bool {
    forall|i: int, j: int| 0 <= i < j < s.len() ==> s[i] <= s[j]
}

/// Whether `s` strictly increases: sorted with no duplicates.
pub open spec fn spec_strictly_sorted(s: Seq<u64>) -> bool {
    forall|i: int, j: int| 0 <= i < j < s.len() ==> s[i] < s[j]
}

/// Sort byte offsets ascending; the result holds exactly the given
/// offsets, each as often as it was given.
pub fn sort_ascending(v: Vec<u64>) -> (r: Vec<u64>)
    ensures
        spec_sorted(r@),
        r@.to_multiset() == v@.to_multiset(),
        r@.len() == v@.len(),
{
    let mut rest = v;
    let ghost orig = rest@;
    let mut out: Vec<u64> = Vec::new();
    while rest.len() > 0
        invariant
            spec_sorted(out@),
            forall|i: int, j: int|
                0 <= i < out@.len() && 0 <= j < rest@.len() ==> out@[i] <= rest@[j],
            out@.to_multiset().add(rest@.to_multiset()) =~= orig.to_multiset(),
            out@.len() + rest@.len() == orig.len(),
        decreases rest@.len(),
    {
        let n: usize = rest.len();
        let mut m: usize = 0;
        let mut k: usize = 1;
        while k < n
            invariant
                m < k <= n,
                n == rest@.len(),
                forall|j: int| 0 <= j < k ==> rest@[m as int] <= rest@[j],
            decreases n - k,
        {
            if rest[k] < rest[m] {
                m = k;
            }
            k = k + 1;
        }
        let ghost rest_before = rest@;
        let ghost out_before = out@;
        let val = rest.remove(m);
        out.push(val);
        proof {
            assert(rest@ == rest_before.remove(m as int));
            assert(rest_before[m as int] == val);
            assert(rest_before.remove(m as int).to_multiset() =~= rest_before.to_multiset().remove(
                val,
            ));
            assert(out@ == out_before.push(val));
            assert(out_before.push(val).to_multiset() =~= out_before.to_multiset().insert(val));
            assert(rest_before.to_multiset().count(val) > 0) by {
                assert(rest_before.contains(val)) by {
                    assert(rest_before[m as int] == val);
                }
            }
            assert(out@.to_multiset().add(rest@.to_multiset()) =~= orig.to_multiset());
            assert forall|i: int, j: int|
                0 <= i < out@.len() && 0 <= j < rest@.len() implies out@[i] <= rest@[j] by {
                if j < m {
                    assert(rest@[j] == rest_before[j]);
                } else {
                    assert(rest@[j] == rest_before[j + 1]);
                }
                if i < out_before.len() {
                    assert(out@[i] == out_before[i]);
                }
            }
        }
    }
    proof {
        assert(rest@.to_multiset() =~= Multiset::<u64>::empty());
        assert(out@.to_multiset() =~= orig.to_multiset());
    }
    out
}

/// The flat slot index of block `j` of layer `i`: the blocks of earlier
/// layers come first.
pub open spec fn spec_flat_slot(headers: Seq<Header>, i: int, j: int) -> int {
    spec_total_chunks(headers.take(i)) + j
}

/// Flat slots decompose uniquely into a layer and a block index.
pub proof fn lemma_flat_slot_unique(headers: Seq<Header>, a: int, b: int, i: int, j: int)
    requires
        forall|k: int| 0 <= k < headers.len() ==> (#[trigger] headers[k]).valid(),
        0 <= a < headers.len(),
        0 <= b < headers[a].spec_chunk_count(),
        0 <= i < headers.len(),
        0 <= j < headers[i].spec_chunk_count(),
        spec_flat_slot(headers, a, b) == spec_flat_slot(headers, i, j),
    ensures
        a == i,
        b == j,
{
    if a < i {
        crate::meta::lemma_total_chunks_take_monotone(headers, a + 1, i);
        assert(headers.take(a + 1).drop_last() =~= headers.take(a));
        assert(headers.take(a + 1).last() == headers[a]);
        headers[a].lemma_grid_bounds();
        assert(false);
    } else if i < a {
        crate::meta::lemma_total_chunks_take_monotone(headers, i + 1, a);
        assert(headers.take(i + 1).drop_last() =~= headers.take(i));
        assert(headers.take(i + 1).last() == headers[i]);
        headers[i].lemma_grid_bounds();
        assert(false);
    }
}

/// The offset stored for flat slot `k` of a table region starting at
/// `tstart`.
pub open spec fn spec_offset_entry(bytes: Seq<u8>, tstart: int, k: int) -> int {
    le_u64_at(bytes, tstart + 8 * k)
}

/// Whether every stored offset lies between the first chunk byte and the
/// largest file position the layers could ever need.
pub open spec fn spec_offsets_in_bounds(
    tables: Seq<Seq<u64>>,
    chunks_start: int,
    max_pixel_bytes: int,
) -> bool {
    forall|i: int, j: int|
        0 <= i < tables.len() && 0 <= j < tables[i].len() ==> chunks_start <= (
        #[trigger] tables[i][j]) <= chunks_start + max_pixel_bytes
}

/// The offset tables as they stand in the file bytes at `tstart`: one
/// table per header, eight bytes per entry, header order.
pub open spec fn spec_window_tables(bytes: Seq<u8>, tstart: int, headers: Seq<Header>) -> Seq<
    Seq<u64>,
> {
    Seq::new(
        headers.len(),
        |i: int|
            Seq::new(
                headers[i].spec_chunk_count() as nat,
                |j: int| spec_offset_entry(bytes, tstart, spec_flat_slot(headers, i, j)) as u64,
            ),
    )
}

/// Whether the offset tables stored at `tstart` all point between the
/// first chunk byte and the largest position the layers could need.
pub open spec fn spec_tables_in_bounds(bytes: Seq<u8>, tstart: int, headers: Seq<Header>) -> bool {
    spec_offsets_in_bounds(
        spec_window_tables(bytes, tstart, headers),
        tstart + 8 * spec_total_chunks(headers),
        spec_sum_max_pixel_bytes(headers),
    )
}

/// The offsets selected by the decisions `d` over the first `upto` flat
/// block slots, in slot order: entry `k` is kept exactly when `d[k]`.
pub open spec fn spec_selected_offsets(
    bytes: Seq<u8>,
    tstart: int,
    d: Seq<bool>,
    upto: int,
) -> Seq<u64>
    decreases upto,
{
    if upto <= 0 {
        Seq::<u64>::empty()
    } else {
        spec_selected_offsets(bytes, tstart, d, upto - 1) + if 0 <= upto - 1 < d.len() && d[upto
            - 1] {
            seq![spec_offset_entry(bytes, tstart, upto - 1) as u64]
        } else {
            Seq::<u64>::empty()
        }
    }
}

/// The selection only reads decisions below `upto`.
proof fn lemma_selected_offsets_prefix(
    bytes: Seq<u8>,
    tstart: int,
    d1: Seq<bool>,
    d2: Seq<bool>,
    upto: int,
)
    requires
        0 <= upto <= d1.len(),
        upto <= d2.len(),
        forall|a: int| 0 <= a < upto ==> d1[a] == d2[a],
    ensures
        spec_selected_offsets(bytes, tstart, d1, upto) == spec_selected_offsets(
            bytes,
            tstart,
            d2,
            upto,
        ),
    decreases upto,
{
    if upto > 0 {
        lemma_selected_offsets_prefix(bytes, tstart, d1, d2, upto - 1);
    }
}

/// Whether `d` records, for every block of every layer in increasing-y
/// order, an answer the filter can give for that block's coordinates.
pub open spec fn spec_filter_decisions<F: Fn(&MetaData, TileCoordinates, BlockIndex) -> bool>(
    filter: F,
    m: &MetaData,
    d: Seq<bool>,
) -> bool {
    &&& d.len() == spec_total_chunks(m.headers@)
    &&& forall|i: int, j: int|
        #![trigger m.headers@[i].spec_block_coords(j)]
        0 <= i < m.headers@.len() && 0 <= j < m.headers@[i].spec_chunk_count() ==> call_ensures(
            filter,
            (m, m.headers@[i].spec_block_coords(j), crate::blocks::spec_block_index_of(
                m.headers@,
                i,
                j,
            )),
            d[spec_flat_slot(m.headers@, i, j)],
        )
}

/// The summed upper bound on chunk bytes over all layers.
pub open spec fn spec_sum_max_pixel_bytes(headers: Seq<Header>) -> int
    decreases headers.len(),
{
    if headers.len() == 0 {
        0
    } else {
        spec_sum_max_pixel_bytes(headers.drop_last())
            + headers.last().spec_max_pixel_file_bytes()
    }
}

/// The summed bound of valid headers stays within a machine word.
pub proof fn lemma_sum_max_pixel_bytes_bound(headers: Seq<Header>)
    requires
        forall|i: int| 0 <= i < headers.len() ==> (#[trigger] headers[i]).valid(),
    ensures
        0 <= spec_sum_max_pixel_bytes(headers) <= headers.len() * 0x10000000000000,
    decreases headers.len(),
{
    if headers.len() > 0 {
        lemma_sum_max_pixel_bytes_bound(headers.drop_last());
        headers.last().lemma_grid_bounds();
        assert(headers.drop_last().len() * 0x10000000000000 + 0x10000000000000 == headers.len()
            * 0x10000000000000) by (nonlinear_arith)
            requires
                headers.len() >= 1,
                headers.drop_last().len() == headers.len() - 1,
        ;
    }
}

/// Check that every recorded offset points between the first chunk byte
/// and the largest position the layers could need.
#[verifier::loop_isolation(false)]
pub fn validate_offset_tables(
    headers: &Vec<Header>,
    offset_tables: &Vec<Vec<u64>>,
    chunks_start_byte: u64,
) -> (r: Result<(), Error>)
    requires
        crate::meta::spec_headers_valid(headers@),
    ensures
        spec_offsets_in_bounds(
            Seq::new(offset_tables@.len(), |i: int| offset_tables@[i]@),
            chunks_start_byte as int,
            spec_sum_max_pixel_bytes(headers@),
        ) ==> r is Ok,
        !spec_offsets_in_bounds(
            Seq::new(offset_tables@.len(), |i: int| offset_tables@[i]@),
            chunks_start_byte as int,
            spec_sum_max_pixel_bytes(headers@),
        ) ==> (r matches Err(e) && e.is_invalid_with("offset table"@)),
{
    proof {
        lemma_sum_max_pixel_bytes_bound(headers@);
    }
    let hn: usize = headers.len();
    let mut max_pixel_bytes: u64 = 0;
    let mut h: usize = 0;
    while h < hn
        invariant
            h <= hn,
            hn == headers@.len(),
            max_pixel_bytes == spec_sum_max_pixel_bytes(headers@.take(h as int)),
            0 <= max_pixel_bytes <= h * 0x10000000000000,
        decreases hn - h,
    {
        proof {
            lemma_sum_max_pixel_bytes_bound(headers@.take(h as int));
            headers@[h as int].lemma_grid_bounds();
            assert(headers@.take(h + 1).drop_last() =~= headers@.take(h as int));
            assert(headers@.take(h + 1).last() == headers@[h as int]);
        }
        let hd = &headers[h];
        let count: u64 = hd.chunk_count() as u64;
        let bpp: u64 = hd.bytes_per_pixel() as u64;
        proof {
            hd.lemma_grid_bounds();
            assert((hd.layer_size.x as int) * (hd.layer_size.y as int) <= 0x10000000000)
                by (nonlinear_arith)
                requires
                    1 <= hd.layer_size.x <= crate::meta::MAX_LAYER_EXTENT,
                    1 <= hd.layer_size.y <= crate::meta::MAX_LAYER_EXTENT,
            ;
            assert((hd.layer_size.x as int) * (hd.layer_size.y as int) * (bpp as int)
                <= 0x10000000000 * 1020) by (nonlinear_arith)
                requires
                    0 <= (hd.layer_size.x as int) * (hd.layer_size.y as int) <= 0x10000000000,
                    0 <= bpp <= 1020,
            ;
        }
        let total_pixel: u64 = (hd.layer_size.x as u64) * (hd.layer_size.y as u64) * bpp;
        let this_max: u64 = 64 * count + 2 * total_pixel;
        max_pixel_bytes = max_pixel_bytes + this_max;
        h = h + 1;
    }
    proof {
        assert(headers@.take(hn as int) =~= headers@);
    }
    let tn: usize = offset_tables.len();
    let mut i: usize = 0;
    while i < tn
        invariant
            i <= tn,
            tn == offset_tables@.len(),
            max_pixel_bytes == spec_sum_max_pixel_bytes(headers@),
            forall|a: int, b: int|
                0 <= a < i && 0 <= b < offset_tables@[a]@.len() ==> chunks_start_byte <= (
                #[trigger] offset_tables@[a]@[b]) <= chunks_start_byte + max_pixel_bytes,
        decreases tn - i,
    {
        let row_len: usize = offset_tables[i].len();
        let mut j: usize = 0;
        while j < row_len
            invariant
                i < tn,
                tn == offset_tables@.len(),
                row_len == offset_tables@[i as int]@.len(),
                j <= row_len,
                max_pixel_bytes == spec_sum_max_pixel_bytes(headers@),
                forall|a: int, b: int|
                    0 <= a < i && 0 <= b < offset_tables@[a]@.len() ==> chunks_start_byte <= (
                    #[trigger] offset_tables@[a]@[b]) <= chunks_start_byte + max_pixel_bytes,
                forall|b: int|
                    0 <= b < j ==> chunks_start_byte <= (#[trigger] offset_tables@[i as int]@[b])
                        <= chunks_start_byte + max_pixel_bytes,
            decreases row_len - j,
        {
            let entry: u64 = offset_tables[i][j];
            if entry < chunks_start_byte {
                proof {
                    assert(Seq::new(offset_tables@.len(), |k: int| offset_tables@[k]@)[i as int][j as int]
                        == entry);
                }
                return Err(Error::Invalid("offset table"));
            }
            if chunks_start_byte <= u64::MAX - max_pixel_bytes && entry > chunks_start_byte
                + max_pixel_bytes {
                proof {
                    assert(Seq::new(offset_tables@.len(), |k: int| offset_tables@[k]@)[i as int][j as int]
                        == entry);
                }
                return Err(Error::Invalid("offset table"));
            }
            j = j + 1;
        }
        i = i + 1;
    }
    Ok(())
}

/// Read the offset tables that follow the metadata section: one table per
/// header, `chunk_count` eight-byte entries each, in header order.
#[verifier::loop_isolation(false)]
#[verifier::rlimit(60)]
pub fn read_offset_tables(source: &mut ByteSource, meta: &MetaData) -> (r: Result<
    Vec<Vec<u64>>,
    Error,
>)
    requires
        old(source).wf(),
        meta.valid(),
    ensures
        final(source).wf(),
        final(source).bytes() == old(source).bytes(),
        old(source).pos() + 8 * spec_total_chunks(meta.headers@) <= old(source).bytes().len()
            ==> (r matches Ok(t) && t@.len() == meta.headers@.len() && final(source).pos() == old(source).pos() + 8 * spec_total_chunks(meta.headers@) && (forall|i: int|
            0 <= i < t@.len() ==> (#[trigger] t@[i])@.len()
                == meta.headers@[i].spec_chunk_count()) && (forall|i: int, j: int|
            0 <= i < t@.len() && 0 <= j < t@[i]@.len() ==> (#[trigger] t@[i]@[j])
                == spec_offset_entry(
                old(source).bytes(),
                old(source).pos(),
                spec_flat_slot(meta.headers@, i, j),
            ))),
        old(source).pos() + 8 * spec_total_chunks(meta.headers@) > old(source).bytes().len()
            ==> (r matches Err(e) && e matches Error::Io(_) && final(source).pos() == old(source).pos()),
        r is Ok ==> old(source).pos() + 8 * spec_total_chunks(meta.headers@) <= old(
            source,
        ).bytes().len(),
{
    let ghost bs = old(source).bytes();
    let ghost p0 = old(source).pos();
    proof {
        source.lemma_bounds();
        crate::meta::lemma_total_chunks_bounds(meta.headers@);
    }
    let start: usize = source.byte_position();
    let hn: usize = meta.headers.len();
    let mut tables: Vec<Vec<u64>> = Vec::new();
    let mut i: usize = 0;
    while i < hn
        invariant
            source.wf(),
            source.bytes() == bs,
            i <= hn,
            tables@.len() == i,
            source.pos() == p0 + 8 * spec_total_chunks(meta.headers@.take(i as int)),
            0 <= spec_total_chunks(meta.headers@.take(i as int)) <= spec_total_chunks(
                meta.headers@,
            ),
            forall|a: int|
                0 <= a < i ==> (#[trigger] tables@[a])@.len()
                    == meta.headers@[a].spec_chunk_count(),
            forall|a: int, b: int|
                0 <= a < i && 0 <= b < tables@[a]@.len() ==> (#[trigger] tables@[a]@[b])
                    == spec_offset_entry(bs, p0, spec_flat_slot(meta.headers@, a, b)),
        decreases hn - i,
    {
        proof {
            crate::meta::lemma_total_chunks_prefix(meta.headers@, i + 1);
            crate::meta::lemma_total_chunks_bounds(meta.headers@.take(i as int));
            meta.headers@[i as int].lemma_grid_bounds();
            assert(meta.headers@.take(i + 1).drop_last() =~= meta.headers@.take(i as int));
            assert(meta.headers@.take(i + 1).last() == meta.headers@[i as int]);
        }
        let count: usize = meta.headers[i].chunk_count();
        let mut row: Vec<u64> = Vec::new();
        let mut j: usize = 0;
        while j < count
            invariant
                source.wf(),
                source.bytes() == bs,
                j <= count,
                i < hn,
                count == meta.headers@[i as int].spec_chunk_count(),
                row@.len() == j,
                source.pos() == p0 + 8 * (spec_total_chunks(meta.headers@.take(i as int)) + j),
                forall|b: int|
                    0 <= b < j ==> (#[trigger] row@[b]) == spec_offset_entry(
                        bs,
                        p0,
                        spec_flat_slot(meta.headers@, i as int, b),
                    ),
            decreases count - j,
        {
            let entry: u64;
            match source.read_u64_le() {
                Ok(v) => {
                    entry = v;
                },
                Err(e) => {
                    let restore = source.skip_to(start as u64);
                    proof {
                        assert(restore is Ok);
                        assert(spec_total_chunks(meta.headers@.take(i as int)) + j
                            < spec_total_chunks(meta.headers@)) by {
                            crate::meta::lemma_total_chunks_prefix(meta.headers@, i + 1);
                        }
                        assert(p0 + 8 * spec_total_chunks(meta.headers@) > bs.len());
                    }
                    return Err(e);
                },
            }
            row.push(entry);
            j = j + 1;
        }
        tables.push(row);
        i = i + 1;
        proof {
            assert(row@.len() == count);
        }
    }
    proof {
        assert(meta.headers@.take(hn as int) =~= meta.headers@);
        source.lemma_bounds();
    }
    Ok(tables)
}

/// Skip past the offset tables without reading them; returns the total
/// chunk count of the file.
pub fn skip_offset_tables(source: &mut ByteSource, meta: &MetaData) -> (r: Result<usize, Error>)
    requires
        old(source).wf(),
        meta.valid(),
    ensures
        final(source).wf(),
        final(source).bytes() == old(source).bytes(),
        old(source).pos() + 8 * spec_total_chunks(meta.headers@) <= old(source).bytes().len()
            ==> (r == Ok::<usize, Error>((spec_total_chunks(meta.headers@) as usize)) && final(source).pos() == old(source).pos() + 8 * spec_total_chunks(meta.headers@)),
        old(source).pos() + 8 * spec_total_chunks(meta.headers@) > old(source).bytes().len()
            ==> (r matches Err(e) && e matches Error::Io(_) && final(source).pos() == old(source).pos()),
        r is Ok ==> old(source).pos() + 8 * spec_total_chunks(meta.headers@) <= old(
            source,
        ).bytes().len(),
{
    proof {
        source.lemma_bounds();
        crate::meta::lemma_total_chunks_bounds(meta.headers@);
    }
    let total: usize = meta.total_chunk_count();
    let here: u64 = source.byte_position() as u64;
    if here > u64::MAX - 8 * (total as u64) {
        return Err(Error::Io("unexpected end of file"));
    }
    let target: u64 = here + 8 * (total as u64);
    match source.skip_to(target) {
        Ok(_) => Ok(total),
        Err(e) => Err(e),
    }
}

/// Holds the decoded metadata and the byte source, positioned just after
/// the metadata section.
pub struct Reader {
    meta_data: MetaData,
    remaining_reader: ByteSource,
}

impl Reader {
    /// The decoded metadata.
    pub closed spec fn spec_meta(&self) -> MetaData {
        self.meta_data
    }

    /// The whole file bytes.
    pub closed spec fn spec_bytes(&self) -> Seq<u8> {
        self.remaining_reader.bytes()
    }

    /// The current read position.
    pub closed spec fn spec_pos(&self) -> int {
        self.remaining_reader.pos()
    }

    /// The reader's structural invariant.
    pub closed spec fn wf(&self) -> bool {
        &&& self.remaining_reader.wf()
        &&& self.meta_data.valid()
    }

    /// Decode the metadata from a complete in-memory file and keep the
    /// source parked at the first offset-table byte.
    pub fn read_from_buffered(read: Vec<u8>, pedantic: bool) -> (r: Result<Reader, Error>)
        ensures
            r matches Ok(rd) ==> (rd.wf() && rd.spec_bytes() == read@ && rd.spec_meta().valid()
                && read@.subrange(0, rd.spec_pos()) == spec_meta_bytes(rd.spec_meta().headers@)
                && rd.spec_pos() == spec_meta_bytes(rd.spec_meta().headers@).len()),
            forall|hs2: Seq<Header>|
                spec_meta_record_at(read@, 0, hs2) ==> (r matches Ok(rd)
                    && crate::meta::headers_like(rd.spec_meta().headers@, hs2)),
    {
        let _ = pedantic;
        let mut source = ByteSource::new(read);
        let meta_data = match read_meta_data(&mut source) {
            Ok(m) => m,
            Err(e) => {
                return Err(e);
            },
        };
        Ok(Reader { meta_data, remaining_reader: source })
    }

    /// The decoded metadata of the file.
    pub fn meta_data(&self) -> (r: &MetaData)
        ensures
            *r == self.spec_meta(),
    {
        &self.meta_data
    }

    /// The decoded headers of the file.
    pub fn headers(&self) -> (r: &Vec<Header>)
        ensures
            r@ == self.spec_meta().headers@,
    {
        &self.meta_data.headers
    }

    /// Give up the reader and keep only the metadata.
    pub fn into_meta_data(self) -> (r: MetaData)
        ensures
            r == self.spec_meta(),
    {
        self.meta_data
    }
}

/// What the next chunks of a file are, parsing `remaining` chunks one
/// after another from `pos`; an unparsable chunk yields `None` and leaves
/// the position where it was, and in pedantic mode a trailing byte after
/// the last chunk yields one final `None`.
pub open spec fn spec_all_emit(
    bytes: Seq<u8>,
    pos: int,
    meta: MetaData,
    remaining: nat,
    pedantic: bool,
) -> Seq<Option<ChunkModel>>
    decreases remaining,
{
    if remaining == 0 {
        if pedantic && pos < bytes.len() {
            seq![None]
        } else {
            Seq::<Option<ChunkModel>>::empty()
        }
    } else {
        if spec_chunk_parse_ok(bytes, pos, meta) {
            seq![Some(spec_parsed_chunk(bytes, pos, meta))] + spec_all_emit(
                bytes,
                crate::chunk::spec_chunk_end(bytes, pos, meta),
                meta,
                (remaining - 1) as nat,
                pedantic,
            )
        } else {
            seq![None] + spec_all_emit(bytes, pos, meta, (remaining - 1) as nat, pedantic)
        }
    }
}

/// What the next chunks of a filtered read are: one item per remaining
/// offset, each parsed at its absolute offset.
pub open spec fn spec_filtered_emit(bytes: Seq<u8>, meta: MetaData, offsets: Seq<u64>) -> Seq<
    Option<ChunkModel>,
>
    decreases offsets.len(),
{
    if offsets.len() == 0 {
        Seq::<Option<ChunkModel>>::empty()
    } else {
        let o = offsets[0] as int;
        let item: Option<ChunkModel> = if o <= bytes.len() && spec_chunk_parse_ok(bytes, o, meta) {
            Some(spec_parsed_chunk(bytes, o, meta))
        } else {
            None
        };
        seq![item] + spec_filtered_emit(bytes, meta, offsets.skip(1))
    }
}

/// A finite, exact-size, fallible source of chunks with a metadata
/// accessor: the capability every chunk reader offers.
pub trait ChunksReader: Sized {
    /// The metadata of the file being read.
    spec fn meta(&self) -> MetaData;

    /// How many chunks this reader was set up to return.
    spec fn expected(&self) -> int;

    /// The chunks still to come: `Some` for a chunk that will parse,
    /// `None` for an item that will surface as an error.
    spec fn emit(&self) -> Seq<Option<ChunkModel>>;

    /// The reader's structural invariant.
    spec fn wf(&self) -> bool;

    /// The metadata of the file being read.
    fn meta_data(&self) -> (r: &MetaData)
        requires
            self.wf(),
        ensures
            *r == self.meta(),
            r.valid(),
    ;

    /// How many chunks this reader was set up to return.
    fn expected_chunk_count(&self) -> (r: usize)
        requires
            self.wf(),
        ensures
            r == self.expected(),
    ;

    /// Read the next compressed chunk, or nothing once all are read.
    fn read_next_chunk(&mut self) -> (r: Option<Result<Chunk, Error>>)
        requires
            old(self).wf(),
        ensures
            final(self).wf(),
            final(self).meta() == old(self).meta(),
            final(self).expected() == old(self).expected(),
            old(self).emit().len() == 0 ==> (r is None && final(self).emit() == old(self).emit()),
            old(self).emit().len() > 0 ==> (final(self).emit() == old(self).emit().skip(1) && (r
                matches Some(item) && (old(self).emit()[0] matches Some(c) ==> (item matches Ok(ch)
                && ch.model() == c)) && (old(self).emit()[0] is None ==> item is Err))),
    ;
}

/// Reads every chunk of the file in file order, without seeking.
pub struct AllChunksReader {
    meta_data: MetaData,
    total_chunks: usize,
    remaining_chunks: usize,
    remaining_bytes: ByteSource,
    pedantic: bool,
    finished: bool,
}

impl ChunksReader for AllChunksReader {
    closed spec fn meta(&self) -> MetaData {
        self.meta_data
    }

    closed spec fn expected(&self) -> int {
        self.total_chunks as int
    }

    closed spec fn emit(&self) -> Seq<Option<ChunkModel>> {
        if self.finished {
            Seq::<Option<ChunkModel>>::empty()
        } else {
            spec_all_emit(
                self.remaining_bytes.bytes(),
                self.remaining_bytes.pos(),
                self.meta_data,
                self.remaining_chunks as nat,
                self.pedantic,
            )
        }
    }

    closed spec fn wf(&self) -> bool {
        &&& self.remaining_bytes.wf()
        &&& self.meta_data.valid()
    }

    fn meta_data(&self) -> (r: &MetaData) {
        &self.meta_data
    }

    fn expected_chunk_count(&self) -> (r: usize) {
        self.total_chunks
    }

    fn read_next_chunk(&mut self) -> (r: Option<Result<Chunk, Error>>) {
        if self.finished {
            return None;
        }
        if self.remaining_chunks == 0 {
            self.finished = true;
            if self.pedantic && self.remaining_bytes.has_remaining() {
                return Some(Err(Error::Invalid("end of file expected")));
            }
            return None;
        }
        self.remaining_chunks = self.remaining_chunks - 1;
        let item = Chunk::read(&mut self.remaining_bytes, &self.meta_data);
        Some(item)
    }
}

/// Reads only the chunks at a sorted list of byte offsets, seeking to
/// each in turn.
pub struct FilteredChunksReader {
    meta_data: MetaData,
    expected_filtered_chunk_count: usize,
    remaining_filtered_chunk_offsets: Vec<u64>,
    next_offset: usize,
    remaining_bytes: ByteSource,
}

impl FilteredChunksReader {
    /// The offsets still to be visited, in order.
    pub closed spec fn spec_remaining_offsets(&self) -> Seq<u64> {
        self.remaining_filtered_chunk_offsets@.skip(self.next_offset as int)
    }

    /// All offsets this reader was constructed with.
    pub closed spec fn spec_all_offsets(&self) -> Seq<u64> {
        self.remaining_filtered_chunk_offsets@
    }
}

impl ChunksReader for FilteredChunksReader {
    closed spec fn meta(&self) -> MetaData {
        self.meta_data
    }

    closed spec fn expected(&self) -> int {
        self.expected_filtered_chunk_count as int
    }

    closed spec fn emit(&self) -> Seq<Option<ChunkModel>> {
        spec_filtered_emit(
            self.remaining_bytes.bytes(),
            self.meta_data,
            self.remaining_filtered_chunk_offsets@.skip(self.next_offset as int),
        )
    }

    closed spec fn wf(&self) -> bool {
        &&& self.remaining_bytes.wf()
        &&& self.meta_data.valid()
        &&& self.next_offset <= self.remaining_filtered_chunk_offsets@.len()
    }

    fn meta_data(&self) -> (r: &MetaData) {
        &self.meta_data
    }

    fn expected_chunk_count(&self) -> (r: usize) {
        self.expected_filtered_chunk_count
    }

    fn read_next_chunk(&mut self) -> (r: Option<Result<Chunk, Error>>) {
        proof {
            let offs = self.remaining_filtered_chunk_offsets@.skip(self.next_offset as int);
            if offs.len() > 0 {
                assert(self.emit().len() == 1 + spec_filtered_emit(
                    self.remaining_bytes.bytes(),
                    self.meta_data,
                    offs.skip(1),
                ).len());
            }
        }
        if self.next_offset >= self.remaining_filtered_chunk_offsets.len() {
            return None;
        }
        let next_chunk_location: u64 =
            self.remaining_filtered_chunk_offsets[self.next_offset];
        self.next_offset = self.next_offset + 1;
        proof {
            let offs_before = self.remaining_filtered_chunk_offsets@.skip(
                self.next_offset - 1,
            );
            assert(offs_before[0] == next_chunk_location);
            assert(offs_before.skip(1) =~= self.remaining_filtered_chunk_offsets@.skip(
                self.next_offset as int,
            ));
        }
        match self.remaining_bytes.skip_to(next_chunk_location) {
            Ok(_) => {},
            Err(e) => {
                return Some(Err(e));
            },
        }
        Some(Chunk::read(&mut self.remaining_bytes, &self.meta_data))
    }
}

impl Reader {
    /// Prepare to read every chunk of the file in file order. In pedantic
    /// mode the offset tables are read and checked; otherwise they are
    /// skipped.
    pub fn all_chunks(self, pedantic: bool) -> (r: Result<AllChunksReader, Error>)
        requires
            self.wf(),
        ensures
            r matches Ok(a) ==> (a.wf() && a.meta() == self.spec_meta() && a.expected()
                == spec_total_chunks(self.spec_meta().headers@) && a.emit() == spec_all_emit(
                self.spec_bytes(),
                self.spec_pos() + 8 * spec_total_chunks(self.spec_meta().headers@),
                self.spec_meta(),
                spec_total_chunks(self.spec_meta().headers@) as nat,
                pedantic,
            )),
            self.spec_pos() + 8 * spec_total_chunks(self.spec_meta().headers@)
                > self.spec_bytes().len() ==> (r matches Err(e) && e matches Error::Io(_)),
            self.spec_pos() + 8 * spec_total_chunks(self.spec_meta().headers@)
                <= self.spec_bytes().len() && (pedantic ==> spec_tables_in_bounds(
                self.spec_bytes(),
                self.spec_pos(),
                self.spec_meta().headers@,
            )) ==> r is Ok,
            pedantic && self.spec_pos() + 8 * spec_total_chunks(self.spec_meta().headers@)
                <= self.spec_bytes().len() && !spec_tables_in_bounds(
                self.spec_bytes(),
                self.spec_pos(),
                self.spec_meta().headers@,
            ) ==> (r matches Err(e) && e.is_invalid_with("offset table"@)),
    {
        let Reader { meta_data, mut remaining_reader } = self;
        let total_chunk_count: usize;
        if pedantic {
            let chunks_start: u64;
            let tables = match read_offset_tables(&mut remaining_reader, &meta_data) {
                Ok(t) => t,
                Err(e) => {
                    return Err(e);
                },
            };
            chunks_start = remaining_reader.byte_position() as u64;
            proof {
                assert(Seq::new(tables@.len(), |i: int| tables@[i]@) =~= spec_window_tables(
                    self.spec_bytes(),
                    self.spec_pos(),
                    meta_data.headers@,
                )) by {
                    assert forall|i: int|
                        0 <= i < tables@.len() implies #[trigger] tables@[i]@ == spec_window_tables(
                        self.spec_bytes(),
                        self.spec_pos(),
                        meta_data.headers@,
                    )[i] by {
                        assert(tables@[i]@ =~= spec_window_tables(
                            self.spec_bytes(),
                            self.spec_pos(),
                            meta_data.headers@,
                        )[i]);
                    }
                }
            }
            match validate_offset_tables(&meta_data.headers, &tables, chunks_start) {
                Ok(_) => {},
                Err(e) => {
                    return Err(e);
                },
            }
            total_chunk_count = meta_data.total_chunk_count();
        } else {
            total_chunk_count = match skip_offset_tables(&mut remaining_reader, &meta_data) {
                Ok(t) => t,
                Err(e) => {
                    return Err(e);
                },
            };
        }
        let a = AllChunksReader {
            meta_data,
            total_chunks: total_chunk_count,
            remaining_chunks: total_chunk_count,
            remaining_bytes: remaining_reader,
            pedantic,
            finished: false,
        };
        proof {
            crate::meta::lemma_total_chunks_bounds(a.meta_data.headers@);
            let ghost t = spec_total_chunks(self.spec_meta().headers@);
            assert(a.meta_data == self.spec_meta());
            assert(a.remaining_bytes.bytes() == self.spec_bytes());
            assert(a.remaining_chunks as int == t);
            assert(a.remaining_bytes.pos() == self.spec_pos() + 8 * t);
            assert(a.emit() =~= spec_all_emit(
                self.spec_bytes(),
                self.spec_pos() + 8 * spec_total_chunks(self.spec_meta().headers@),
                self.spec_meta(),
                spec_total_chunks(self.spec_meta().headers@) as nat,
                pedantic,
            ));
        }
        Ok(a)
    }

    /// Prepare to read only the chunks whose block the caller's predicate
    /// selects, in ascending file-offset order.
    ///
    /// The selected offsets are sorted so that reading moves forward; in
    /// pedantic mode a duplicate offset is rejected.
    #[verifier::loop_isolation(false)]
    #[verifier::loop_isolation(false)]
    #[verifier::spinoff_prover]
    #[verifier::rlimit(100)]
    pub fn filter_chunks<F: Fn(&MetaData, TileCoordinates, BlockIndex) -> bool>(
        self,
        pedantic: bool,
        filter: F,
    ) -> (r: Result<FilteredChunksReader, Error>)
        requires
            self.wf(),
            forall|m: &MetaData, tc: TileCoordinates, bi: BlockIndex|
                call_requires(filter, (m, tc, bi)),
        ensures
            r matches Ok(f) ==> (f.wf() && f.meta() == self.spec_meta() && spec_sorted(
                f.spec_all_offsets(),
            ) && f.expected() == f.spec_all_offsets().len() && f.spec_remaining_offsets()
                == f.spec_all_offsets() && (pedantic ==> spec_strictly_sorted(
                f.spec_all_offsets(),
            )) && f.emit() == spec_filtered_emit(
                self.spec_bytes(),
                self.spec_meta(),
                f.spec_all_offsets(),
            ) && (exists|m: &MetaData, d: Seq<bool>|
                *m == self.spec_meta() && #[trigger] spec_filter_decisions(filter, m, d)
                    && f.spec_all_offsets().to_multiset() == spec_selected_offsets(
                    self.spec_bytes(),
                    self.spec_pos(),
                    d,
                    spec_total_chunks(self.spec_meta().headers@),
                ).to_multiset())),
            self.spec_pos() + 8 * spec_total_chunks(self.spec_meta().headers@)
                > self.spec_bytes().len() ==> (r matches Err(e) && e matches Error::Io(_)),
            pedantic && self.spec_pos() + 8 * spec_total_chunks(self.spec_meta().headers@)
                <= self.spec_bytes().len() && !spec_tables_in_bounds(
                self.spec_bytes(),
                self.spec_pos(),
                self.spec_meta().headers@,
            ) ==> (r matches Err(e) && e.is_invalid_with("offset table"@)),
            r matches Err(e) ==> (self.spec_pos() + 8 * spec_total_chunks(
                self.spec_meta().headers@,
            ) > self.spec_bytes().len() || (pedantic && !spec_tables_in_bounds(
                self.spec_bytes(),
                self.spec_pos(),
                self.spec_meta().headers@,
            )) || (pedantic && e.is_invalid_with("chunk offset table"@) && (exists|
                m: &MetaData,
                d: Seq<bool>,
            |
                *m == self.spec_meta() && #[trigger] spec_filter_decisions(filter, m, d)
                    && !spec_selected_offsets(
                    self.spec_bytes(),
                    self.spec_pos(),
                    d,
                    spec_total_chunks(self.spec_meta().headers@),
                ).no_duplicates()))),
            self.spec_pos() + 8 * spec_total_chunks(self.spec_meta().headers@)
                <= self.spec_bytes().len() && (pedantic ==> spec_tables_in_bounds(
                self.spec_bytes(),
                self.spec_pos(),
                self.spec_meta().headers@,
            )) && (pedantic ==> (forall|m: &MetaData, d: Seq<bool>|
                *m == self.spec_meta() && #[trigger] spec_filter_decisions(filter, m, d)
                    ==> spec_selected_offsets(
                    self.spec_bytes(),
                    self.spec_pos(),
                    d,
                    spec_total_chunks(self.spec_meta().headers@),
                ).no_duplicates())) ==> r is Ok,
    {
        let ghost bs = self.spec_bytes();
        let ghost p0 = self.spec_pos();
        let ghost total = spec_total_chunks(self.spec_meta().headers@);
        let Reader { meta_data, mut remaining_reader } = self;
        let offset_tables = match read_offset_tables(&mut remaining_reader, &meta_data) {
            Ok(t) => t,
            Err(e) => {
                return Err(e);
            },
        };
        proof {
            assert(Seq::new(offset_tables@.len(), |i: int| offset_tables@[i]@)
                =~= spec_window_tables(bs, p0, meta_data.headers@)) by {
                assert forall|i: int|
                    0 <= i < offset_tables@.len() implies #[trigger] offset_tables@[i]@
                    == spec_window_tables(bs, p0, meta_data.headers@)[i] by {
                    assert(offset_tables@[i]@ =~= spec_window_tables(
                        bs,
                        p0,
                        meta_data.headers@,
                    )[i]);
                }
            }
        }
        if pedantic {
            let chunks_start: u64 = remaining_reader.byte_position() as u64;
            match validate_offset_tables(&meta_data.headers, &offset_tables, chunks_start) {
                Ok(_) => {},
                Err(e) => {
                    return Err(e);
                },
            }
        }
        let mut filtered_offsets: Vec<u64> = Vec::new();
        let ghost mut decisions: Seq<bool> = Seq::empty();
        let header_count: usize = meta_data.headers.len();
        let meta_ref: &MetaData = &meta_data;
        let mut header_index: usize = 0;
        proof {
            assert forall|a: int, b: int|
                #![trigger meta_data.headers@[a].spec_block_coords(b)]
                0 <= a < header_count && 0 <= b < meta_data.headers@[a].spec_chunk_count()
                    && spec_flat_slot(meta_data.headers@, a, b) < decisions.len()
                    implies call_ensures(
                filter,
                (meta_ref, meta_data.headers@[a].spec_block_coords(b),
                crate::blocks::spec_block_index_of(meta_data.headers@, a, b)),
                decisions[spec_flat_slot(meta_data.headers@, a, b)],
            ) by {
                crate::meta::lemma_total_chunks_bounds(meta_data.headers@.take(a));
            }
        }
        while header_index < header_count
            invariant
                header_index <= header_count,
                decisions.len() == spec_total_chunks(meta_data.headers@.take(header_index as int)),
                filtered_offsets@ == spec_selected_offsets(
                    bs,
                    p0,
                    decisions,
                    decisions.len() as int,
                ),
                forall|a: int, b: int|
                    #![trigger meta_data.headers@[a].spec_block_coords(b)]
                    0 <= a < header_count && 0 <= b < meta_data.headers@[a].spec_chunk_count()
                        && spec_flat_slot(meta_data.headers@, a, b) < decisions.len()
                        ==> call_ensures(
                        filter,
                        (meta_ref, meta_data.headers@[a].spec_block_coords(b),
                        crate::blocks::spec_block_index_of(meta_data.headers@, a, b)),
                        decisions[spec_flat_slot(meta_data.headers@, a, b)],
                    ),
            decreases header_count - header_index,
        {
            let header = &meta_data.headers[header_index];
            proof {
                header.lemma_grid_bounds();
                crate::meta::lemma_total_chunks_bounds(meta_data.headers@.take(
                    header_index as int,
                ));
            }
            let block_count: usize = header.chunk_count();
            let mut block_index: usize = 0;
            while block_index < block_count
                invariant
                    header_index < header_count,
                    header == &meta_data.headers@[header_index as int],
                    block_count == header.spec_chunk_count(),
                    block_index <= block_count,
                    decisions.len() == spec_total_chunks(meta_data.headers@.take(
                        header_index as int,
                    )) + block_index,
                    filtered_offsets@ == spec_selected_offsets(
                        bs,
                        p0,
                        decisions,
                        decisions.len() as int,
                    ),
                    forall|a: int, b: int|
                        #![trigger meta_data.headers@[a].spec_block_coords(b)]
                        0 <= a < header_count && 0 <= b < meta_data.headers@[a].spec_chunk_count()
                            && spec_flat_slot(meta_data.headers@, a, b) < decisions.len()
                            ==> call_ensures(
                            filter,
                            (meta_ref, meta_data.headers@[a].spec_block_coords(b),
                            crate::blocks::spec_block_index_of(meta_data.headers@, a, b)),
                            decisions[spec_flat_slot(meta_data.headers@, a, b)],
                        ),
                decreases block_count - block_index,
            {
                let tile = header.block_coords(block_index);
                let data_indices = match header.get_absolute_block_pixel_coordinates(tile) {
                    Ok(b) => b,
                    Err(_) => {
                        proof {
                            assert(false);
                        }
                        return Err(Error::Aborted);
                    },
                };
                let block = BlockIndex {
                    layer: header_index,
                    level: tile.level_index,
                    pixel_position: data_indices.position,
                    pixel_size: data_indices.size,
                };
                let keep = filter(meta_ref, tile, block);
                if keep {
                    filtered_offsets.push(offset_tables[header_index][block_index]);
                }
                let ghost old_decisions = decisions;
                proof {
                    decisions = decisions.push(keep);
                }
                block_index = block_index + 1;
                proof {
                    lemma_selected_offsets_prefix(
                        bs,
                        p0,
                        old_decisions,
                        decisions,
                        old_decisions.len() as int,
                    );
                    assert(filtered_offsets@ =~= spec_selected_offsets(
                        bs,
                        p0,
                        decisions,
                        decisions.len() as int,
                    ));
                    assert(block == crate::blocks::spec_block_index_of(
                        meta_data.headers@,
                        header_index as int,
                        block_index - 1,
                    ));
                    assert forall|a: int, b: int|
                        #![trigger meta_data.headers@[a].spec_block_coords(b)]
                        0 <= a < header_count && 0 <= b < meta_data.headers@[
                        a].spec_chunk_count() && spec_flat_slot(meta_data.headers@, a, b)
                        < decisions.len() implies call_ensures(
                        filter,
                        (meta_ref, meta_data.headers@[a].spec_block_coords(b),
                        crate::blocks::spec_block_index_of(meta_data.headers@, a, b)),
                        decisions[spec_flat_slot(meta_data.headers@, a, b)],
                    ) by {
                        crate::meta::lemma_total_chunks_bounds(meta_data.headers@.take(a));
                        if spec_flat_slot(meta_data.headers@, a, b) < old_decisions.len() {
                        } else {
                            lemma_flat_slot_unique(
                                meta_data.headers@,
                                a,
                                b,
                                header_index as int,
                                block_index - 1,
                            );
                            assert(a == header_index && b == block_index - 1);
                        }
                    }
                }
            }
            header_index = header_index + 1;
            proof {
                assert(meta_data.headers@.take(header_index as int).drop_last()
                    =~= meta_data.headers@.take(header_index - 1));
                assert(meta_data.headers@.take(header_index as int).last() == meta_data.headers@[
                    header_index - 1
                ]);
            }
        }
        proof {
            assert(meta_data.headers@.take(header_count as int) =~= meta_data.headers@);
            assert(spec_filter_decisions(filter, meta_ref, decisions)) by {
                assert forall|i: int, j: int|
                    #![trigger meta_data.headers@[i].spec_block_coords(j)]
                    0 <= i < meta_data.headers@.len() && 0 <= j < meta_data.headers@[
                    i].spec_chunk_count() implies spec_flat_slot(meta_data.headers@, i, j)
                    < decisions.len() by {
                    crate::meta::lemma_total_chunks_take_monotone(
                        meta_data.headers@,
                        i + 1,
                        header_count as int,
                    );
                    assert(meta_data.headers@.take(i + 1).drop_last() =~= meta_data.headers@.take(
                        i,
                    ));
                    assert(meta_data.headers@.take(i + 1).last() == meta_data.headers@[i]);
                }
            }
        }
        let ghost unsorted = filtered_offsets@;
        let filtered_offsets = sort_ascending(filtered_offsets);
        if pedantic {
            let count: usize = filtered_offsets.len();
            let mut w: usize = 1;
            while w < count
                invariant
                    1 <= w <= count || count == 0,
                    count == filtered_offsets@.len(),
                    forall|a: int|
                        0 < a < w ==> filtered_offsets@[a - 1] < #[trigger] filtered_offsets@[a],
                decreases count - w,
            {
                if filtered_offsets[w - 1] == filtered_offsets[w] {
                    proof {
                        assert(!filtered_offsets@.no_duplicates());
                        if unsorted.no_duplicates() {
                            unsorted.lemma_multiset_has_no_duplicates();
                            filtered_offsets@.lemma_multiset_has_no_duplicates_conv();
                        }
                        assert(!unsorted.no_duplicates());
                    }
                    return Err(Error::Invalid("chunk offset table"));
                }
                w = w + 1;
            }
            proof {
                assert forall|i: int, j: int|
                    0 <= i < j < filtered_offsets@.len() implies filtered_offsets@[i]
                    < filtered_offsets@[j] by {
                    lemma_sorted_adjacent_strict(filtered_offsets@, i, j);
                }
            }
        }
        let expected_filtered_chunk_count: usize = filtered_offsets.len();
        let f = FilteredChunksReader {
            meta_data,
            expected_filtered_chunk_count,
            remaining_filtered_chunk_offsets: filtered_offsets,
            next_offset: 0,
            remaining_bytes: remaining_reader,
        };
        proof {
            assert(f.spec_all_offsets().skip(0) =~= f.spec_all_offsets());
            assert(f.emit() =~= spec_filtered_emit(
                self.spec_bytes(),
                self.spec_meta(),
                f.spec_all_offsets(),
            ));
        }
        Ok(f)
    }
}

/// In a sorted sequence where every neighbouring pair differs, any two
/// positions differ.
proof fn lemma_sorted_adjacent_strict(s: Seq<u64>, i: int, j: int)
    requires
        spec_sorted(s),
        forall|a: int| 0 < a < s.len() ==> s[a - 1] < #[trigger] s[a],
        0 <= i < j < s.len(),
    ensures
        s[i] < s[j],
    decreases j - i,
{
    if i + 1 == j {
        assert(s[j - 1] < s[j]);
    } else {
        lemma_sorted_adjacent_strict(s, i + 1, j);
        assert(s[i + 1 - 1] < s[i + 1]);
    }
}

/// The filtered reader will emit exactly one item per selected offset: a
/// chunk for each offset where one parses, an error otherwise.
pub proof fn lemma_filtered_emit_len(bytes: Seq<u8>, meta: MetaData, offsets: Seq<u64>)
    ensures
        spec_filtered_emit(bytes, meta, offsets).len() == offsets.len(),
    decreases offsets.len(),
{
    if offsets.len() > 0 {
        lemma_filtered_emit_len(bytes, meta, offsets.skip(1));
    }
}

/// Receives progress reports: `completed` items done of `total`.
pub trait ProgressSink {
    /// Called with the number of completed items and the total.
    fn on_progress(&mut self, completed: usize, total: usize);
}

/// Decorates a chunk reader: reports progress to a sink before each item,
/// and reports completion exactly once when the inner reader ends.
pub struct OnProgressChunksReader<R, P> {
    chunks_reader: R,
    decoded_chunks: usize,
    callback: P,
    finished: bool,
    reported: Ghost<Seq<(int, int)>>,
}

impl<R: ChunksReader, P: ProgressSink> OnProgressChunksReader<R, P> {
    /// Wrap `chunks_reader` so that `callback` hears about every item.
    pub fn new(chunks_reader: R, callback: P) -> (r: OnProgressChunksReader<R, P>)
        requires
            chunks_reader.wf(),
        ensures
            r.wf(),
            r.emit() == chunks_reader.emit(),
            r.meta() == chunks_reader.meta(),
            r.expected() == chunks_reader.expected(),
            r.spec_reported() == Seq::<(int, int)>::empty(),
    {
        let r = OnProgressChunksReader {
            chunks_reader,
            callback,
            decoded_chunks: 0,
            finished: false,
            reported: Ghost(Seq::empty()),
        };
        proof {
            assert(r.reported@ =~= Seq::new(0nat, |i: int| (i, r.chunks_reader.expected())));
        }
        r
    }

    /// The pairs `(completed, total)` handed to the sink so far, oldest
    /// first.
    pub closed spec fn spec_reported(&self) -> Seq<(int, int)> {
        self.reported@
    }

    /// How many items have been handed out so far.
    pub closed spec fn spec_decoded(&self) -> int {
        self.decoded_chunks as int
    }

    /// Whether completion has been reported.
    pub closed spec fn spec_finished(&self) -> bool {
        self.finished
    }

    /// The progress reports never go backwards: on a run whose item count
    /// stays within the expected total, the sink hears a non-decreasing
    /// sequence of completed counts, starting at zero with the first item
    /// and ending exactly once at the total when the reader finishes.
    pub proof fn lemma_progress_monotone(&self)
        requires
            self.wf(),
            self.spec_decoded() <= self.expected(),
        ensures
            forall|i: int, j: int|
                0 <= i <= j < self.spec_reported().len() ==> (#[trigger] self.spec_reported()[
                    i
                ]).0 <= (#[trigger] self.spec_reported()[j]).0,
            self.spec_decoded() >= 1 ==> (self.spec_reported().len() >= 1
                && self.spec_reported()[0] == (0int, self.expected())),
            self.spec_finished() ==> (self.spec_reported().len() >= 1
                && self.spec_reported().last() == (self.expected(), self.expected()) && (forall|
                k: int,
            |
                0 <= k < self.spec_reported().len() - 1 ==> (#[trigger] self.spec_reported()[k]).0
                    < self.expected())),
    {
        let rep = self.spec_reported();
        let d = self.spec_decoded();
        let e = self.expected();
        assert forall|i: int, j: int| 0 <= i <= j < rep.len() implies (#[trigger] rep[i]).0 <= (
        #[trigger] rep[j]).0 by {
            if i < d {
                assert(rep[i] == (i, e));
            }
            if j < d {
                assert(rep[j] == (j, e));
            }
        }
    }

    /// Give up the decorator and hand back the inner reader.
    pub fn into_inner(self) -> (r: R)
        ensures
            r == self.spec_inner(),
    {
        self.chunks_reader
    }

    /// Give up the decorator and hand back the inner reader and the sink.
    pub fn into_parts(self) -> (r: (R, P))
        ensures
            r.0 == self.spec_inner(),
    {
        (self.chunks_reader, self.callback)
    }

    /// The wrapped reader.
    pub closed spec fn spec_inner(&self) -> R {
        self.chunks_reader
    }
}

impl<R: ChunksReader, P: ProgressSink> ChunksReader for OnProgressChunksReader<R, P> {
    closed spec fn meta(&self) -> MetaData {
        self.chunks_reader.meta()
    }

    closed spec fn expected(&self) -> int {
        self.chunks_reader.expected()
    }

    closed spec fn emit(&self) -> Seq<Option<ChunkModel>> {
        self.chunks_reader.emit()
    }

    closed spec fn wf(&self) -> bool {
        &&& self.chunks_reader.wf()
        &&& self.reported@ == if self.finished {
            Seq::new(self.decoded_chunks as nat, |i: int| (i, self.expected())).push(
                (self.expected(), self.expected()),
            )
        } else {
            Seq::new(self.decoded_chunks as nat, |i: int| (i, self.expected()))
        }
    }

    fn meta_data(&self) -> (r: &MetaData) {
        self.chunks_reader.meta_data()
    }

    fn expected_chunk_count(&self) -> (r: usize) {
        self.chunks_reader.expected_chunk_count()
    }

    fn read_next_chunk(&mut self) -> (r: Option<Result<Chunk, Error>>) {
        let total = self.chunks_reader.expected_chunk_count();
        match self.chunks_reader.read_next_chunk() {
            Some(item) => {
                if !self.finished && self.decoded_chunks < usize::MAX {
                    self.callback.on_progress(self.decoded_chunks, total);
                    proof {
                        self.reported@ = self.reported@.push(
                            (self.decoded_chunks as int, total as int),
                        );
                    }
                    self.decoded_chunks = self.decoded_chunks + 1;
                    proof {
                        assert(self.reported@ =~= Seq::new(
                            self.decoded_chunks as nat,
                            |i: int| (i, self.chunks_reader.expected()),
                        ));
                    }
                }
                Some(item)
            },
            None => {
                if !self.finished {
                    self.finished = true;
                    self.callback.on_progress(total, total);
                    proof {
                        self.reported@ = self.reported@.push((total as int, total as int));
                    }
                }
                None
            },
        }
    }
}

} // verus!
