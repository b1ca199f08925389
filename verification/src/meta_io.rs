//! The metadata wire format: how the header table is laid out at the
//! start of a file, and how the offset tables that follow it are read.
//!
//! Every header record has a fixed layout — extents, position, line order,
//! compression, block kind, tile extent, channel count — followed by one
//! byte per channel. Parsing is the exact inverse of encoding: that is
//! part of the parser's contract.

use vstd::prelude::*;

use crate::bytes::{le_u32_at, le_u64_at, u32_le_bytes};
use crate::bytes::write_u32_le;
use crate::error::Error;
use crate::io::ByteSource;
use crate::math::Vec2;
use crate::meta::{
    header_like, headers_like, spec_total_chunks, BlockDescription, ChannelList, Compression,
    Header, LineOrder, MetaData, SampleType, TileDescription, MAX_CHANNELS,
};

verus! {

/// The four magic bytes at the start of every file, as one integer.
pub const MAGIC: u32 = 0x762f3101;

/// The wire byte of a line order.
pub open spec fn spec_line_order_byte(o: LineOrder) -> u8 {
    match o {
        LineOrder::Increasing => 0,
        LineOrder::Decreasing => 1,
        LineOrder::Unspecified => 2,
    }
}

/// The wire byte of a compression choice.
pub open spec fn spec_compression_byte(c: Compression) -> u8 {
    match c {
        Compression::Uncompressed => 0,
        Compression::Zip => 1,
    }
}

/// The wire byte of a sample type.
pub open spec fn spec_sample_type_byte(t: SampleType) -> u8 {
    match t {
        SampleType::F16 => 0,
        SampleType::F32 => 1,
        SampleType::U32 => 2,
    }
}

/// The wire bytes of a channel list: one byte per channel.
pub open spec fn spec_channels_bytes(s: Seq<SampleType>) -> Seq<u8> {
    Seq::new(s.len(), |i: int| spec_sample_type_byte(s[i]))
}

/// The tile extent a header record stores: the tile size for a tiled
/// layer, zero for a scan-line layer.
pub open spec fn spec_stored_tile_size(b: BlockDescription) -> (int, int) {
    match b {
        BlockDescription::ScanLines => (0, 0),
        BlockDescription::Tiles(t) => (t.tile_size.x as int, t.tile_size.y as int),
    }
}

/// The byte at position `k` of a header record: the layer extent and
/// position, line order, compression, block kind, stored tile extent and
/// channel count, followed by one byte per channel.
pub open spec fn spec_header_byte_at(h: Header, k: int) -> u8 {
    if k < 4 {
        u32_le_bytes(h.layer_size.x as u32)[k]
    } else if k < 8 {
        u32_le_bytes(h.layer_size.y as u32)[k - 4]
    } else if k < 12 {
        u32_le_bytes(h.layer_position.x as u32)[k - 8]
    } else if k < 16 {
        u32_le_bytes(h.layer_position.y as u32)[k - 12]
    } else if k == 16 {
        spec_line_order_byte(h.line_order)
    } else if k == 17 {
        spec_compression_byte(h.compression)
    } else if k == 18 {
        if h.blocks is ScanLines {
            0u8
        } else {
            1u8
        }
    } else if k < 23 {
        u32_le_bytes(spec_stored_tile_size(h.blocks).0 as u32)[k - 19]
    } else if k < 27 {
        u32_le_bytes(spec_stored_tile_size(h.blocks).1 as u32)[k - 23]
    } else if k < 31 {
        u32_le_bytes(h.channels.channel_types@.len() as u32)[k - 27]
    } else {
        spec_sample_type_byte(h.channels.channel_types@[k - 31])
    }
}

/// The wire bytes of one header record.
pub open spec fn spec_header_bytes(h: Header) -> Seq<u8> {
    Seq::new((31 + h.channels.channel_types@.len()) as nat, |k: int| spec_header_byte_at(h, k))
}

/// How many bytes one header record occupies.
pub open spec fn spec_header_bytes_len(h: Header) -> int {
    31 + h.channels.channel_types@.len() as int
}

/// The record length matches the record.
pub proof fn lemma_header_bytes_len(h: Header)
    ensures
        spec_header_bytes(h).len() == spec_header_bytes_len(h),
{
}

/// The wire bytes of a header list, first header first.
pub open spec fn spec_headers_bytes(hs: Seq<Header>) -> Seq<u8>
    decreases hs.len(),
{
    if hs.len() == 0 {
        Seq::<u8>::empty()
    } else {
        spec_headers_bytes(hs.drop_last()) + spec_header_bytes(hs.last())
    }
}

/// A header list's bytes split as first record plus the rest.
pub proof fn lemma_headers_bytes_head(hs: Seq<Header>)
    requires
        hs.len() >= 1,
    ensures
        spec_headers_bytes(hs) == spec_header_bytes(hs[0]) + spec_headers_bytes(hs.skip(1)),
    decreases hs.len(),
{
    if hs.len() == 1 {
        assert(hs.drop_last() =~= Seq::<Header>::empty());
        assert(hs.skip(1) =~= Seq::<Header>::empty());
        assert(spec_headers_bytes(hs) =~= spec_header_bytes(hs[0]) + spec_headers_bytes(
            hs.skip(1),
        ));
    } else {
        lemma_headers_bytes_head(hs.drop_last());
        assert(hs.drop_last()[0] == hs[0]);
        assert(hs.skip(1).drop_last() =~= hs.drop_last().skip(1));
        assert(hs.skip(1).last() == hs.last());
        assert(spec_headers_bytes(hs) =~= spec_header_bytes(hs[0]) + spec_headers_bytes(
            hs.skip(1),
        ));
    }
}

/// The wire bytes of a whole metadata section: magic, header count, then
/// the header records.
pub open spec fn spec_meta_bytes(hs: Seq<Header>) -> Seq<u8> {
    u32_le_bytes(MAGIC) + u32_le_bytes(hs.len() as u32) + spec_headers_bytes(hs)
}

/// The records of valid headers stay well under half a megabyte in all.
pub proof fn lemma_headers_bytes_len_bound(hs: Seq<Header>)
    requires
        forall|i: int| 0 <= i < hs.len() ==> (#[trigger] hs[i]).valid(),
    ensures
        0 <= spec_headers_bytes(hs).len() <= 286 * hs.len(),
    decreases hs.len(),
{
    if hs.len() > 0 {
        lemma_headers_bytes_len_bound(hs.drop_last());
    }
}

/// Serialize one header record onto `out`.
fn encode_header(h: &Header, out: &mut Vec<u8>)
    requires
        h.valid(),
        old(out)@.len() + 286 <= usize::MAX,
    ensures
        final(out)@ == old(out)@ + spec_header_bytes(*h),
{
    write_u32_le(out, h.layer_size.x as u32);
    write_u32_le(out, h.layer_size.y as u32);
    write_u32_le(out, h.layer_position.x as u32);
    write_u32_le(out, h.layer_position.y as u32);
    out.push(
        match h.line_order {
            LineOrder::Increasing => 0u8,
            LineOrder::Decreasing => 1u8,
            LineOrder::Unspecified => 2u8,
        },
    );
    out.push(
        match h.compression {
            Compression::Uncompressed => 0u8,
            Compression::Zip => 1u8,
        },
    );
    let (tag, tw, th): (u8, u32, u32) = match h.blocks {
        BlockDescription::ScanLines => (0u8, 0u32, 0u32),
        BlockDescription::Tiles(t) => (1u8, t.tile_size.x as u32, t.tile_size.y as u32),
    };
    out.push(tag);
    write_u32_le(out, tw);
    write_u32_le(out, th);
    let n: usize = h.channels.channel_types.len();
    write_u32_le(out, n as u32);
    let ghost head = out@;
    let mut i: usize = 0;
    while i < n
        invariant
            i <= n,
            n == h.channels.channel_types@.len(),
            n <= MAX_CHANNELS,
            head.len() + n <= usize::MAX,
            out@ == head + spec_channels_bytes(h.channels.channel_types@.take(i as int)),
        decreases n - i,
    {
        out.push(
            match h.channels.channel_types[i] {
                SampleType::F16 => 0u8,
                SampleType::F32 => 1u8,
                SampleType::U32 => 2u8,
            },
        );
        i = i + 1;
        proof {
            assert(out@ =~= head + spec_channels_bytes(h.channels.channel_types@.take(i as int)));
        }
    }
    proof {
        assert(h.channels.channel_types@.take(n as int) =~= h.channels.channel_types@);
        assert(out@ =~= old(out)@ + spec_header_bytes(*h));
    }
}

/// Serialize a whole metadata section.
#[verifier::rlimit(60)]
pub fn encode_meta_data(meta: &MetaData) -> (r: Vec<u8>)
    requires
        meta.valid(),
    ensures
        r@ == spec_meta_bytes(meta.headers@),
        r@.len() <= 0x80000,
{
    proof {
        lemma_headers_bytes_len_bound(meta.headers@);
    }
    let mut out: Vec<u8> = Vec::new();
    write_u32_le(&mut out, MAGIC);
    let n: usize = meta.headers.len();
    write_u32_le(&mut out, n as u32);
    let ghost head = out@;
    let mut i: usize = 0;
    while i < n
        invariant
            i <= n,
            n == meta.headers@.len(),
            meta.valid(),
            head == u32_le_bytes(MAGIC) + u32_le_bytes(n as u32),
            out@ == head + spec_headers_bytes(meta.headers@.take(i as int)),
            out@.len() <= 8 + 286 * i,
        decreases n - i,
    {
        proof {
            lemma_headers_bytes_len_bound(meta.headers@.take(i as int));
            assert(meta.headers@.take(i + 1).drop_last() =~= meta.headers@.take(i as int));
            assert(meta.headers@.take(i + 1).last() == meta.headers@[i as int]);
        }
        encode_header(&meta.headers[i], &mut out);
        i = i + 1;
        proof {
            assert(out@ =~= head + spec_headers_bytes(meta.headers@.take(i as int)));
        }
    }
    proof {
        assert(meta.headers@.take(n as int) =~= meta.headers@);
        assert(out@ =~= spec_meta_bytes(meta.headers@));
    }
    out
}

/// Every field of a header record, read off the record's bytes.
#[verifier::spinoff_prover]
#[verifier::rlimit(100)]
pub proof fn lemma_header_window(bytes: Seq<u8>, p: int, h: Header)
    requires
        0 <= p,
        p + spec_header_bytes_len(h) <= bytes.len(),
        bytes.subrange(p, p + spec_header_bytes_len(h)) == spec_header_bytes(h),
    ensures
        le_u32_at(bytes, p) == h.layer_size.x as u32,
        le_u32_at(bytes, p + 4) == h.layer_size.y as u32,
        le_u32_at(bytes, p + 8) == h.layer_position.x as u32,
        le_u32_at(bytes, p + 12) == h.layer_position.y as u32,
        bytes[p + 16] == spec_line_order_byte(h.line_order),
        bytes[p + 17] == spec_compression_byte(h.compression),
        bytes[p + 18] == if h.blocks is ScanLines {
            0u8
        } else {
            1u8
        },
        le_u32_at(bytes, p + 19) == spec_stored_tile_size(h.blocks).0 as u32,
        le_u32_at(bytes, p + 23) == spec_stored_tile_size(h.blocks).1 as u32,
        le_u32_at(bytes, p + 27) == h.channels.channel_types@.len() as u32,
        forall|j: int|
            0 <= j < h.channels.channel_types@.len() ==> bytes[p + 31 + j]
                == spec_sample_type_byte(#[trigger] h.channels.channel_types@[j]),
{
    let enc = spec_header_bytes(h);
    let w = bytes.subrange(p, p + spec_header_bytes_len(h));
    let n = h.channels.channel_types@.len() as int;
    assert forall|k: int| 0 <= k < 31 + n implies bytes[p + k] == spec_header_byte_at(h, k) by {
        assert(w[k] == bytes[p + k]);
        assert(enc[k] == spec_header_byte_at(h, k));
    }
    crate::bytes::lemma_u32_le_roundtrip(h.layer_size.x as u32);
    crate::bytes::lemma_u32_le_roundtrip(h.layer_size.y as u32);
    crate::bytes::lemma_u32_le_roundtrip(h.layer_position.x as u32);
    crate::bytes::lemma_u32_le_roundtrip(h.layer_position.y as u32);
    crate::bytes::lemma_u32_le_roundtrip(spec_stored_tile_size(h.blocks).0 as u32);
    crate::bytes::lemma_u32_le_roundtrip(spec_stored_tile_size(h.blocks).1 as u32);
    crate::bytes::lemma_u32_le_roundtrip(h.channels.channel_types@.len() as u32);
    assert(bytes[p + 0] == spec_header_byte_at(h, 0));
    assert(bytes[p + 1] == spec_header_byte_at(h, 1));
    assert(bytes[p + 2] == spec_header_byte_at(h, 2));
    assert(bytes[p + 3] == spec_header_byte_at(h, 3));
    assert(bytes[p + 4] == spec_header_byte_at(h, 4));
    assert(bytes[p + 5] == spec_header_byte_at(h, 5));
    assert(bytes[p + 6] == spec_header_byte_at(h, 6));
    assert(bytes[p + 7] == spec_header_byte_at(h, 7));
    assert(bytes[p + 8] == spec_header_byte_at(h, 8));
    assert(bytes[p + 9] == spec_header_byte_at(h, 9));
    assert(bytes[p + 10] == spec_header_byte_at(h, 10));
    assert(bytes[p + 11] == spec_header_byte_at(h, 11));
    assert(bytes[p + 12] == spec_header_byte_at(h, 12));
    assert(bytes[p + 13] == spec_header_byte_at(h, 13));
    assert(bytes[p + 14] == spec_header_byte_at(h, 14));
    assert(bytes[p + 15] == spec_header_byte_at(h, 15));
    assert(bytes[p + 16] == spec_header_byte_at(h, 16));
    assert(bytes[p + 17] == spec_header_byte_at(h, 17));
    assert(bytes[p + 18] == spec_header_byte_at(h, 18));
    assert(bytes[p + 19] == spec_header_byte_at(h, 19));
    assert(bytes[p + 20] == spec_header_byte_at(h, 20));
    assert(bytes[p + 21] == spec_header_byte_at(h, 21));
    assert(bytes[p + 22] == spec_header_byte_at(h, 22));
    assert(bytes[p + 23] == spec_header_byte_at(h, 23));
    assert(bytes[p + 24] == spec_header_byte_at(h, 24));
    assert(bytes[p + 25] == spec_header_byte_at(h, 25));
    assert(bytes[p + 26] == spec_header_byte_at(h, 26));
    assert(bytes[p + 27] == spec_header_byte_at(h, 27));
    assert(bytes[p + 28] == spec_header_byte_at(h, 28));
    assert(bytes[p + 29] == spec_header_byte_at(h, 29));
    assert(bytes[p + 30] == spec_header_byte_at(h, 30));
    assert forall|j: int| 0 <= j < n implies bytes[p + 31 + j] == spec_sample_type_byte(
        #[trigger] h.channels.channel_types@[j],
    ) by {
        assert(bytes[p + (31 + j)] == spec_header_byte_at(h, 31 + j));
    }
}

/// A stretch of bytes whose fields all match a header is that header's
/// record: the reverse of `lemma_header_window`.
#[verifier::spinoff_prover]
#[verifier::rlimit(100)]
pub proof fn lemma_header_window_rev(bytes: Seq<u8>, p: int, h: Header)
    requires
        0 <= p,
        p + spec_header_bytes_len(h) <= bytes.len(),
        h.layer_size.x <= 0xffffffff,
        h.layer_size.y <= 0xffffffff,
        h.layer_position.x <= 0xffffffff,
        h.layer_position.y <= 0xffffffff,
        spec_stored_tile_size(h.blocks).0 <= 0xffffffff,
        spec_stored_tile_size(h.blocks).1 <= 0xffffffff,
        h.channels.channel_types@.len() <= 0xffffffff,
        le_u32_at(bytes, p) == h.layer_size.x,
        le_u32_at(bytes, p + 4) == h.layer_size.y,
        le_u32_at(bytes, p + 8) == h.layer_position.x,
        le_u32_at(bytes, p + 12) == h.layer_position.y,
        bytes[p + 16] == spec_line_order_byte(h.line_order),
        bytes[p + 17] == spec_compression_byte(h.compression),
        bytes[p + 18] == if h.blocks is ScanLines {
            0u8
        } else {
            1u8
        },
        le_u32_at(bytes, p + 19) == spec_stored_tile_size(h.blocks).0,
        le_u32_at(bytes, p + 23) == spec_stored_tile_size(h.blocks).1,
        le_u32_at(bytes, p + 27) == h.channels.channel_types@.len(),
        forall|j: int|
            0 <= j < h.channels.channel_types@.len() ==> bytes[p + 31 + j]
                == spec_sample_type_byte(#[trigger] h.channels.channel_types@[j]),
    ensures
        bytes.subrange(p, p + spec_header_bytes_len(h)) == spec_header_bytes(h),
{
    let n = h.channels.channel_types@.len() as int;
    crate::bytes::lemma_le_u32_at_inverse(bytes, p);
    crate::bytes::lemma_le_u32_at_inverse(bytes, p + 4);
    crate::bytes::lemma_le_u32_at_inverse(bytes, p + 8);
    crate::bytes::lemma_le_u32_at_inverse(bytes, p + 12);
    crate::bytes::lemma_le_u32_at_inverse(bytes, p + 19);
    crate::bytes::lemma_le_u32_at_inverse(bytes, p + 23);
    crate::bytes::lemma_le_u32_at_inverse(bytes, p + 27);
    let enc = spec_header_bytes(h);
    assert forall|k: int| 0 <= k < 31 + n implies bytes[p + k] == enc[k] by {
        assert(enc[k] == spec_header_byte_at(h, k));
        if k < 4 {
            assert(bytes[p + k] == bytes.subrange(p, p + 4)[k]);
        } else if k < 8 {
            assert(bytes[p + k] == bytes.subrange(p + 4, p + 8)[k - 4]);
        } else if k < 12 {
            assert(bytes[p + k] == bytes.subrange(p + 8, p + 12)[k - 8]);
        } else if k < 16 {
            assert(bytes[p + k] == bytes.subrange(p + 12, p + 16)[k - 12]);
        } else if k < 19 {
        } else if k < 23 {
            assert(bytes[p + k] == bytes.subrange(p + 19, p + 23)[k - 19]);
        } else if k < 27 {
            assert(bytes[p + k] == bytes.subrange(p + 23, p + 27)[k - 23]);
        } else if k < 31 {
            assert(bytes[p + k] == bytes.subrange(p + 27, p + 31)[k - 27]);
        } else {
        }
    }
    assert(bytes.subrange(p, p + spec_header_bytes_len(h)) =~= enc);
}

/// The hypothesis that a valid header's record lies at `p` in `bytes`.
pub open spec fn spec_header_record_at(bytes: Seq<u8>, p: int, h2: Header) -> bool {
    &&& h2.valid()
    &&& p + spec_header_bytes_len(h2) <= bytes.len()
    &&& bytes.subrange(p, p + spec_header_bytes_len(h2)) == spec_header_bytes(h2)
}

/// Parse one header record.
///
/// Parsing is the exact inverse of encoding: whenever a valid header's
/// record lies at the current position, it is returned.
#[verifier::rlimit(100)]
#[verifier::loop_isolation(false)]
fn parse_header(source: &mut ByteSource) -> (r: Result<Header, Error>)
    requires
        old(source).wf(),
    ensures
        final(source).wf(),
        final(source).bytes() == old(source).bytes(),
        r matches Ok(h) ==> (old(source).pos() + spec_header_bytes_len(h) <= old(
            source,
        ).bytes().len() && old(source).bytes().subrange(
            old(source).pos(),
            old(source).pos() + spec_header_bytes_len(h),
        ) == spec_header_bytes(h) && final(source).pos() == old(source).pos()
            + spec_header_bytes_len(h) && h.channels.channel_types@.len() <= MAX_CHANNELS),
        forall|h2: Header|
            spec_header_record_at(old(source).bytes(), old(source).pos(), h2) ==> (r matches Ok(h)
                && header_like(h, h2) && final(source).pos() == old(source).pos()
                + spec_header_bytes_len(h2)),
{
    let ghost bs = old(source).bytes();
    let ghost p0 = old(source).pos();
    proof {
        source.lemma_bounds();
    }
    let width: u32;
    let height: u32;
    let pos_x: u32;
    let pos_y: u32;
    match source.read_u32_le() {
        Ok(v) => {
            width = v;
        },
        Err(e) => {
            return Err(e);
        },
    }
    match source.read_u32_le() {
        Ok(v) => {
            height = v;
        },
        Err(e) => {
            return Err(e);
        },
    }
    match source.read_u32_le() {
        Ok(v) => {
            pos_x = v;
        },
        Err(e) => {
            return Err(e);
        },
    }
    match source.read_u32_le() {
        Ok(v) => {
            pos_y = v;
        },
        Err(e) => {
            return Err(e);
        },
    }
    let lo_byte: u8;
    let comp_byte: u8;
    let tag_byte: u8;
    match source.read_u8() {
        Ok(v) => {
            lo_byte = v;
        },
        Err(e) => {
            return Err(e);
        },
    }
    match source.read_u8() {
        Ok(v) => {
            comp_byte = v;
        },
        Err(e) => {
            return Err(e);
        },
    }
    match source.read_u8() {
        Ok(v) => {
            tag_byte = v;
        },
        Err(e) => {
            return Err(e);
        },
    }
    let tile_w: u32;
    let tile_h: u32;
    let chan_count: u32;
    match source.read_u32_le() {
        Ok(v) => {
            tile_w = v;
        },
        Err(e) => {
            return Err(e);
        },
    }
    match source.read_u32_le() {
        Ok(v) => {
            tile_h = v;
        },
        Err(e) => {
            return Err(e);
        },
    }
    match source.read_u32_le() {
        Ok(v) => {
            chan_count = v;
        },
        Err(e) => {
            return Err(e);
        },
    }
    let line_order: LineOrder = if lo_byte == 0 {
        LineOrder::Increasing
    } else if lo_byte == 1 {
        LineOrder::Decreasing
    } else if lo_byte == 2 {
        LineOrder::Unspecified
    } else {
        proof {
            assert forall|h2: Header| spec_header_record_at(bs, p0, h2) implies false by {
                lemma_header_window(bs, p0, h2);
            }
        }
        return Err(Error::Invalid("line order"));
    };
    let compression: Compression = if comp_byte == 0 {
        Compression::Uncompressed
    } else if comp_byte == 1 {
        Compression::Zip
    } else {
        proof {
            assert forall|h2: Header| spec_header_record_at(bs, p0, h2) implies false by {
                lemma_header_window(bs, p0, h2);
            }
        }
        return Err(Error::Invalid("compression"));
    };
    if tag_byte > 1 {
        proof {
            assert forall|h2: Header| spec_header_record_at(bs, p0, h2) implies false by {
                lemma_header_window(bs, p0, h2);
            }
        }
        return Err(Error::Invalid("block description"));
    }
    if tag_byte == 0 && (tile_w != 0 || tile_h != 0) {
        proof {
            assert forall|h2: Header| spec_header_record_at(bs, p0, h2) implies false by {
                lemma_header_window(bs, p0, h2);
            }
        }
        return Err(Error::Invalid("block description"));
    }
    let blocks: BlockDescription = if tag_byte == 0 {
        BlockDescription::ScanLines
    } else {
        BlockDescription::Tiles(
            TileDescription {
                tile_size: Vec2 { x: tile_w as usize, y: tile_h as usize },
            },
        )
    };
    if chan_count < 1 || chan_count > MAX_CHANNELS as u32 {
        proof {
            assert forall|h2: Header| spec_header_record_at(bs, p0, h2) implies false by {
                lemma_header_window(bs, p0, h2);
            }
        }
        return Err(Error::Invalid("channel count"));
    }
    let n: usize = chan_count as usize;
    proof {
        assert(le_u32_at(bs, p0) < 0x100000000 && le_u32_at(bs, p0 + 4) < 0x100000000
            && le_u32_at(bs, p0 + 8) < 0x100000000 && le_u32_at(bs, p0 + 12) < 0x100000000
            && le_u32_at(bs, p0 + 19) < 0x100000000 && le_u32_at(bs, p0 + 23) < 0x100000000
            && le_u32_at(bs, p0 + 27) < 0x100000000) by {
            assert(bs[p0 + 3] * 0x1000000 <= 255 * 0x1000000);
            assert(bs[p0 + 7] * 0x1000000 <= 255 * 0x1000000);
            assert(bs[p0 + 11] * 0x1000000 <= 255 * 0x1000000);
            assert(bs[p0 + 15] * 0x1000000 <= 255 * 0x1000000);
            assert(bs[p0 + 22] * 0x1000000 <= 255 * 0x1000000);
            assert(bs[p0 + 26] * 0x1000000 <= 255 * 0x1000000);
            assert(bs[p0 + 30] * 0x1000000 <= 255 * 0x1000000);
        }
    }
    let mut channel_types: Vec<SampleType> = Vec::new();
    let mut i: usize = 0;
    while i < n
        invariant
            source.wf(),
            source.bytes() == bs,
            i <= n,
            n <= MAX_CHANNELS,
            source.pos() == p0 + 31 + i,
            p0 >= 0,
            channel_types@.len() == i,
            forall|j: int|
                0 <= j < i ==> bs[p0 + 31 + j] == spec_sample_type_byte(
                    #[trigger] channel_types@[j],
                ),
            width as int == le_u32_at(bs, p0),
            height as int == le_u32_at(bs, p0 + 4),
            pos_x as int == le_u32_at(bs, p0 + 8),
            pos_y as int == le_u32_at(bs, p0 + 12),
            lo_byte == bs[p0 + 16],
            comp_byte == bs[p0 + 17],
            tag_byte == bs[p0 + 18],
            tile_w as int == le_u32_at(bs, p0 + 19),
            tile_h as int == le_u32_at(bs, p0 + 23),
            chan_count as int == le_u32_at(bs, p0 + 27),
            n == chan_count as usize,
            1 <= n,
            spec_line_order_byte(line_order) == lo_byte,
            spec_compression_byte(compression) == comp_byte,
            tag_byte <= 1,
            tag_byte == 0 ==> tile_w == 0 && tile_h == 0,
            blocks == (if tag_byte == 0 {
                BlockDescription::ScanLines
            } else {
                BlockDescription::Tiles(
                    TileDescription {
                        tile_size: Vec2 { x: tile_w as usize, y: tile_h as usize },
                    },
                )
            }),
        decreases n - i,
    {
        let b: u8;
        match source.read_u8() {
            Ok(v) => {
                b = v;
            },
            Err(e) => {
                proof {
                    assert forall|h2: Header| spec_header_record_at(bs, p0, h2) implies false by {
                        lemma_header_window(bs, p0, h2);
                        assert(le_u32_at(bs, p0 + 27) == h2.channels.channel_types@.len());
                        assert(chan_count == h2.channels.channel_types@.len());
                        assert(i < h2.channels.channel_types@.len());
                    }
                }
                return Err(e);
            },
        }
        let t: SampleType = if b == 0 {
            SampleType::F16
        } else if b == 1 {
            SampleType::F32
        } else if b == 2 {
            SampleType::U32
        } else {
            proof {
                assert forall|h2: Header| spec_header_record_at(bs, p0, h2) implies false by {
                    lemma_header_window(bs, p0, h2);
                    assert(le_u32_at(bs, p0 + 27) == h2.channels.channel_types@.len());
                    assert(chan_count == h2.channels.channel_types@.len());
                    assert(i < h2.channels.channel_types@.len());
                    assert(bs[p0 + 31 + i] == spec_sample_type_byte(
                        h2.channels.channel_types@[i as int],
                    ));
                }
            }
            return Err(Error::Invalid("channel type"));
        };
        channel_types.push(t);
        i = i + 1;
    }
    let h = Header {
        channels: ChannelList { channel_types },
        compression,
        line_order,
        layer_size: Vec2 { x: width as usize, y: height as usize },
        layer_position: Vec2 { x: pos_x as usize, y: pos_y as usize },
        blocks,
    };
    proof {
        source.lemma_bounds();
        lemma_header_window_rev(bs, p0, h);
        assert forall|h2: Header| spec_header_record_at(bs, p0, h2) implies header_like(h, h2)
            && spec_header_bytes_len(h2) == spec_header_bytes_len(h) by {
            lemma_header_window(bs, p0, h2);
            assert(h.layer_size == h2.layer_size);
            assert(h.layer_position == h2.layer_position);
            assert(h.line_order == h2.line_order);
            assert(h.compression == h2.compression);
            assert(h.blocks == h2.blocks);
            assert(h.channels.channel_types@.len() == h2.channels.channel_types@.len());
            assert forall|j: int|
                0 <= j < h.channels.channel_types@.len() implies h.channels.channel_types@[j]
                == h2.channels.channel_types@[j] by {
                assert(bs[p0 + 31 + j] == spec_sample_type_byte(h2.channels.channel_types@[j]));
            }
            assert(h.channels.channel_types@ =~= h2.channels.channel_types@);
        }
    }
    Ok(h)
}

/// The hypothesis that a valid metadata section lies at `p` in `bytes`.
pub open spec fn spec_meta_record_at(bytes: Seq<u8>, p: int, hs2: Seq<Header>) -> bool {
    &&& p >= 0
    &&& crate::meta::spec_headers_valid(hs2)
    &&& p + spec_meta_bytes(hs2).len() <= bytes.len()
    &&& bytes.subrange(p, p + spec_meta_bytes(hs2).len()) == spec_meta_bytes(hs2)
}

/// Each record of a header list lies at its prefix offset within the
/// list's bytes.
#[verifier::spinoff_prover]
#[verifier::rlimit(100)]
pub proof fn lemma_headers_window(bytes: Seq<u8>, q: int, hs: Seq<Header>)
    requires
        0 <= q,
        q + spec_headers_bytes(hs).len() <= bytes.len(),
        bytes.subrange(q, q + spec_headers_bytes(hs).len()) == spec_headers_bytes(hs),
        forall|i: int| 0 <= i < hs.len() ==> (#[trigger] hs[i]).valid(),
    ensures
        forall|i: int|
            0 <= i < hs.len() ==> {
                let start = q + spec_headers_bytes(hs.take(i)).len();
                &&& start + spec_header_bytes_len(#[trigger] hs[i]) <= bytes.len()
                &&& bytes.subrange(start, start + spec_header_bytes_len(hs[i]))
                    == spec_header_bytes(hs[i])
            },
    decreases hs.len(),
{
    if hs.len() > 0 {
        lemma_headers_bytes_head(hs);
        let enc0 = spec_header_bytes(hs[0]);
        let rest = spec_headers_bytes(hs.skip(1));
        let l0 = spec_header_bytes_len(hs[0]);
        assert(bytes.subrange(q, q + l0) =~= enc0) by {
            assert forall|k: int| 0 <= k < l0 implies bytes.subrange(q, q + l0)[k] == enc0[k] by {
                assert(bytes.subrange(q, q + spec_headers_bytes(hs).len())[k] == (enc0 + rest)[k]);
            }
        }
        assert(bytes.subrange(q + l0, q + l0 + rest.len()) =~= rest) by {
            assert forall|k: int| 0 <= k < rest.len() implies bytes.subrange(
                q + l0,
                q + l0 + rest.len(),
            )[k] == rest[k] by {
                assert(bytes.subrange(q, q + spec_headers_bytes(hs).len())[l0 + k] == (enc0
                    + rest)[l0 + k]);
            }
        }
        assert(forall|i: int| 0 <= i < hs.skip(1).len() ==> (#[trigger] hs.skip(1)[i]).valid());
        lemma_headers_window(bytes, q + l0, hs.skip(1));
        assert(hs.take(0) =~= Seq::<Header>::empty());
        assert forall|i: int| 0 <= i < hs.len() implies {
            let start = q + spec_headers_bytes(hs.take(i)).len();
            &&& start + spec_header_bytes_len(#[trigger] hs[i]) <= bytes.len()
            &&& bytes.subrange(start, start + spec_header_bytes_len(hs[i])) == spec_header_bytes(
                hs[i],
            )
        } by {
            if i >= 1 {
                assert(hs.take(i) =~= seq![hs[0]] + hs.skip(1).take(i - 1));
                lemma_headers_bytes_head(hs.take(i));
                assert(hs.take(i)[0] == hs[0]);
                assert(hs.take(i).skip(1) =~= hs.skip(1).take(i - 1));
                assert(spec_headers_bytes(hs.take(i)).len() == l0 + spec_headers_bytes(
                    hs.skip(1).take(i - 1),
                ).len());
                assert(hs.skip(1)[i - 1] == hs[i]);
            }
        }
    }
}

/// Decode the metadata section at the source's current position.
///
/// Parsing is the exact inverse of [`encode_meta_data`]: whenever a valid
/// header list's section lies at the current position, that list is
/// returned. On success the source stands just after the section.
#[verifier::loop_isolation(false)]
#[verifier::spinoff_prover]
#[verifier::rlimit(100)]
pub fn read_meta_data(source: &mut ByteSource) -> (r: Result<MetaData, Error>)
    requires
        old(source).wf(),
    ensures
        final(source).wf(),
        final(source).bytes() == old(source).bytes(),
        r matches Ok(m) ==> (m.valid() && old(source).pos() + spec_meta_bytes(m.headers@).len()
            <= old(source).bytes().len() && old(source).bytes().subrange(
            old(source).pos(),
            final(source).pos(),
        ) == spec_meta_bytes(m.headers@) && final(source).pos() == old(source).pos()
            + spec_meta_bytes(m.headers@).len()),
        forall|hs2: Seq<Header>|
            spec_meta_record_at(old(source).bytes(), old(source).pos(), hs2) ==> (r matches Ok(m)
                && headers_like(m.headers@, hs2) && final(source).pos() == old(source).pos()
                + spec_meta_bytes(hs2).len()),
{
    let ghost bs = old(source).bytes();
    let ghost p0 = old(source).pos();
    proof {
        source.lemma_bounds();
    }
    let magic: u32;
    match source.read_u32_le() {
        Ok(v) => {
            magic = v;
        },
        Err(e) => {
            return Err(e);
        },
    }
    if magic != MAGIC {
        proof {
            assert forall|hs2: Seq<Header>| spec_meta_record_at(bs, p0, hs2) implies false by {
                lemma_meta_prefix_window(bs, p0, hs2);
            }
        }
        return Err(Error::Invalid("magic number"));
    }
    let count: u32;
    match source.read_u32_le() {
        Ok(v) => {
            count = v;
        },
        Err(e) => {
            proof {
                assert forall|hs2: Seq<Header>| spec_meta_record_at(bs, p0, hs2) implies false by {
                    lemma_meta_prefix_window(bs, p0, hs2);
                }
            }
            return Err(e);
        },
    }
    if count < 1 || count > crate::meta::MAX_HEADERS as u32 {
        proof {
            assert forall|hs2: Seq<Header>| spec_meta_record_at(bs, p0, hs2) implies false by {
                lemma_meta_prefix_window(bs, p0, hs2);
            }
        }
        return Err(Error::Invalid("header count"));
    }
    let n: usize = count as usize;
    let mut headers: Vec<Header> = Vec::new();
    proof {
        assert forall|hs2: Seq<Header>| spec_meta_record_at(bs, p0, hs2) implies (hs2.len() == n
            && headers_like(headers@, hs2.take(0)) && source.pos() == p0 + 8 + spec_headers_bytes(
            hs2.take(0),
        ).len()) by {
            lemma_meta_prefix_window(bs, p0, hs2);
            assert(hs2.take(0) =~= Seq::<Header>::empty());
        }
    }
    let mut i: usize = 0;
    while i < n
        invariant
            source.wf(),
            source.bytes() == bs,
            i <= n,
            headers@.len() == i,
            source.pos() >= p0 + 8,
            bs.subrange(p0 + 8, source.pos()) == spec_headers_bytes(headers@),
            forall|hs2: Seq<Header>|
                spec_meta_record_at(bs, p0, hs2) ==> (hs2.len() == n && headers_like(
                    headers@,
                    hs2.take(i as int),
                ) && source.pos() == p0 + 8 + spec_headers_bytes(hs2.take(i as int)).len()),
        decreases n - i,
    {
        let ghost pos_i = source.pos();
        let h: Header;
        match parse_header(source) {
            Ok(v) => {
                h = v;
            },
            Err(e) => {
                proof {
                    assert forall|hs2: Seq<Header>| spec_meta_record_at(bs, p0, hs2) implies false by {
                        lemma_meta_prefix_window(bs, p0, hs2);
                        lemma_headers_window(bs, p0 + 8, hs2);
                        assert(spec_header_record_at(bs, pos_i, hs2[i as int]));
                    }
                }
                return Err(e);
            },
        }
        let ghost hprev = headers@;
        headers.push(h);
        i = i + 1;
        proof {
            assert(headers@.drop_last() =~= hprev);
            assert(bs.subrange(p0 + 8, source.pos()) =~= spec_headers_bytes(
                headers@.drop_last(),
            ) + spec_header_bytes(h)) by {
                assert(bs.subrange(p0 + 8, pos_i) == spec_headers_bytes(headers@.drop_last()));
                assert(bs.subrange(pos_i, pos_i + spec_header_bytes_len(h)) == spec_header_bytes(
                    h,
                ));
            }
            assert(headers@.drop_last() == headers@.take(i - 1));
            assert(spec_headers_bytes(headers@) == spec_headers_bytes(headers@.drop_last())
                + spec_header_bytes(h));
            assert forall|hs2: Seq<Header>| spec_meta_record_at(bs, p0, hs2) implies (hs2.len()
                == n && headers_like(headers@, hs2.take(i as int)) && source.pos() == p0 + 8
                + spec_headers_bytes(hs2.take(i as int)).len()) by {
                lemma_meta_prefix_window(bs, p0, hs2);
                lemma_headers_window(bs, p0 + 8, hs2);
                assert(spec_header_record_at(bs, pos_i, hs2[i - 1]));
                assert(header_like(h, hs2[i - 1]));
                assert(hs2.take(i as int).drop_last() =~= hs2.take(i - 1));
                assert(hs2.take(i as int).last() == hs2[i - 1]);
                assert(spec_headers_bytes(hs2.take(i as int)) == spec_headers_bytes(
                    hs2.take(i - 1),
                ) + spec_header_bytes(hs2[i - 1]));
                assert(spec_header_bytes_len(hs2[i - 1]) == spec_header_bytes_len(h));
                assert(headers_like(headers@, hs2.take(i as int)));
            }
        }
    }
    let m = MetaData { headers };
    if !m.is_valid() {
        proof {
            assert forall|hs2: Seq<Header>| spec_meta_record_at(bs, p0, hs2) implies false by {
                assert(m.headers@.take(n as int) =~= m.headers@);
                assert(hs2.take(n as int) =~= hs2);
                crate::meta::lemma_headers_like_valid(m.headers@, hs2);
            }
        }
        return Err(Error::Invalid("headers"));
    }
    proof {
        source.lemma_bounds();
        crate::bytes::lemma_le_u32_at_inverse(bs, p0);
        crate::bytes::lemma_le_u32_at_inverse(bs, p0 + 4);
        assert(m.headers@.take(n as int) =~= m.headers@);
        assert(bs.subrange(p0, source.pos()) =~= spec_meta_bytes(m.headers@)) by {
            assert(bs.subrange(p0, p0 + 4) == u32_le_bytes(MAGIC));
            assert(bs.subrange(p0 + 4, p0 + 8) == u32_le_bytes(n as u32));
            assert forall|k: int| 0 <= k < source.pos() - p0 implies bs.subrange(
                p0,
                source.pos(),
            )[k] == spec_meta_bytes(m.headers@)[k] by {
                if k < 4 {
                    assert(bs[p0 + k] == bs.subrange(p0, p0 + 4)[k]);
                } else if k < 8 {
                    assert(bs[p0 + k] == bs.subrange(p0 + 4, p0 + 8)[k - 4]);
                } else {
                    assert(bs[p0 + k] == bs.subrange(p0 + 8, source.pos())[k - 8]);
                }
            }
        }
        assert forall|hs2: Seq<Header>| spec_meta_record_at(bs, p0, hs2) implies (headers_like(
            m.headers@,
            hs2,
        ) && source.pos() == p0 + spec_meta_bytes(hs2).len()) by {
            assert(hs2.take(n as int) =~= hs2);
        }
    }
    Ok(m)
}

/// The magic and count fields of a metadata section, read off its bytes.
pub proof fn lemma_meta_prefix_window(bytes: Seq<u8>, p: int, hs: Seq<Header>)
    requires
        spec_meta_record_at(bytes, p, hs),
    ensures
        p + 8 <= bytes.len(),
        le_u32_at(bytes, p) == MAGIC,
        le_u32_at(bytes, p + 4) == hs.len(),
        p + 8 + spec_headers_bytes(hs).len() <= bytes.len(),
        bytes.subrange(p + 8, p + 8 + spec_headers_bytes(hs).len()) == spec_headers_bytes(hs),
{
    let enc = spec_meta_bytes(hs);
    let w = bytes.subrange(p, p + enc.len());
    crate::bytes::lemma_u32_le_roundtrip(MAGIC);
    crate::bytes::lemma_u32_le_roundtrip(hs.len() as u32);
    assert(bytes.subrange(p, p + 4) =~= u32_le_bytes(MAGIC)) by {
        assert forall|k: int| 0 <= k < 4 implies #[trigger] bytes.subrange(p, p + 4)[k]
            == u32_le_bytes(MAGIC)[k] by {
            assert(w[k] == enc[k]);
        }
    }
    assert(u32_le_bytes(MAGIC).subrange(0, 4) =~= u32_le_bytes(MAGIC));
    crate::bytes::lemma_le_u32_at_subrange(bytes, u32_le_bytes(MAGIC), p, 0);
    assert(bytes.subrange(p + 4, p + 8) =~= u32_le_bytes(hs.len() as u32)) by {
        assert forall|k: int| 0 <= k < 4 implies #[trigger] bytes.subrange(p + 4, p + 8)[k]
            == u32_le_bytes(hs.len() as u32)[k] by {
            assert(w[4 + k] == enc[4 + k]);
        }
    }
    assert(u32_le_bytes(hs.len() as u32).subrange(0, 4) =~= u32_le_bytes(hs.len() as u32));
    crate::bytes::lemma_le_u32_at_subrange(bytes, u32_le_bytes(hs.len() as u32), p + 4, 0);
    assert(bytes.subrange(p + 8, p + 8 + spec_headers_bytes(hs).len()) =~= spec_headers_bytes(
        hs,
    )) by {
        assert forall|k: int| 0 <= k < spec_headers_bytes(hs).len() implies bytes.subrange(
            p + 8,
            p + 8 + spec_headers_bytes(hs).len(),
        )[k] == spec_headers_bytes(hs)[k] by {
            assert(w[8 + k] == enc[8 + k]);
        }
    }
}

} // verus!
