//! On-disk chunks: the serialized form of one compressed pixel block.
//!
//! A chunk starts with its layer index (present only in a multi-layer
//! file), then a block descriptor (the scan-line y position, or the tile
//! grid coordinates and level), then the payload length and the compressed
//! payload bytes, all integers little-endian.

use vstd::prelude::*;

use crate::bytes::{le_u32_at, le_u64_at, u32_le_bytes, u64_le_bytes, write_u32_le, write_u64_le};
use crate::error::{Error, ErrorModel};
use crate::io::{spec_write_at, ByteSink, ByteSource};
use crate::math::Vec2;
use crate::meta::{BlockDescription, Header, MetaData, TileCoordinates};

verus! {

/// The mathematical shadow of a [`Block`]: payloads as byte sequences.
pub enum BlockModel {
    /// A compressed strip of whole scan lines at absolute position `y`.
    ScanLine { y: int, data: Seq<u8> },
    /// A compressed tile at the given grid and level coordinates.
    Tile { tile_x: int, tile_y: int, level_x: int, level_y: int, data: Seq<u8> },
    /// A deep scan-line block; recognized, never decoded.
    DeepScanLine,
    /// A deep tile block; recognized, never decoded.
    DeepTile,
}

/// The mathematical shadow of a [`Chunk`].
pub struct ChunkModel {
    /// Which layer the block belongs to.
    pub layer: int,
    /// The block payload.
    pub block: BlockModel,
}

/// A compressed strip of whole scan lines.
#[derive(Clone, PartialEq, Eq, Debug)]
pub struct ScanLineBlock {
    /// The absolute y position of the strip's lowest scan line: the block's
    /// y position within the layer plus the layer's own y position.
    pub y_coordinate: usize,
    /// The compressed pixel bytes.
    pub compressed_pixels: Vec<u8>,
}

/// A compressed tile.
#[derive(Clone, PartialEq, Eq, Debug)]
pub struct TileBlock {
    /// Where the tile lies in its layer's tile grid.
    pub coordinates: TileCoordinates,
    /// The compressed pixel bytes.
    pub compressed_pixels: Vec<u8>,
}

/// The tagged payload of a chunk.
#[derive(Clone, PartialEq, Eq, Debug)]
pub enum Block {
    /// A compressed strip of whole scan lines.
    ScanLine(ScanLineBlock),
    /// A compressed tile.
    Tile(TileBlock),
    /// A deep scan-line block; recognized, never decoded.
    DeepScanLine,
    /// A deep tile block; recognized, never decoded.
    DeepTile,
}

impl Block {
    /// The mathematical shadow of this block.
    pub open spec fn model(&self) -> BlockModel {
        match self {
            Block::ScanLine(s) => BlockModel::ScanLine {
                y: s.y_coordinate as int,
                data: s.compressed_pixels@,
            },
            Block::Tile(t) => BlockModel::Tile {
                tile_x: t.coordinates.tile_index.x as int,
                tile_y: t.coordinates.tile_index.y as int,
                level_x: t.coordinates.level_index.x as int,
                level_y: t.coordinates.level_index.y as int,
                data: t.compressed_pixels@,
            },
            Block::DeepScanLine => BlockModel::DeepScanLine,
            Block::DeepTile => BlockModel::DeepTile,
        }
    }
}

/// One serialized block: the layer it belongs to and its payload.
#[derive(Clone, PartialEq, Eq, Debug)]
pub struct Chunk {
    /// Index of the layer this block belongs to.
    pub layer_index: usize,
    /// The block payload.
    pub block: Block,
}

impl Chunk {
    /// The mathematical shadow of this chunk.
    pub open spec fn model(&self) -> ChunkModel {
        ChunkModel { layer: self.layer_index as int, block: self.block.model() }
    }
}

/// The shadow of a read result: the chunk or error it carries.
pub open spec fn result_model(r: Result<Chunk, Error>) -> Result<ChunkModel, ErrorModel> {
    match r {
        Ok(c) => Ok(c.model()),
        Err(e) => Err(e.model()),
    }
}

/// How many bytes the block descriptor of a chunk of `h` occupies.
pub open spec fn spec_desc_len(h: Header) -> int {
    match h.blocks {
        BlockDescription::ScanLines => 8,
        BlockDescription::Tiles(_) => 16,
    }
}

/// The layer index field of the chunk at `pos`: read from the file when it
/// is multi-layer, zero otherwise.
pub open spec fn spec_layer_at(bytes: Seq<u8>, pos: int, multi: bool) -> int {
    if multi {
        le_u32_at(bytes, pos)
    } else {
        0
    }
}

/// Where the block descriptor of the chunk at `pos` starts.
pub open spec fn spec_after_layer(pos: int, multi: bool) -> int {
    if multi {
        pos + 4
    } else {
        pos
    }
}

/// The chunk at `pos` names a layer the file does not have, though its
/// layer field itself is readable.
pub open spec fn spec_chunk_layer_err(bytes: Seq<u8>, pos: int, meta: MetaData) -> bool {
    let multi = meta.spec_multi_part();
    &&& (multi ==> pos + 4 <= bytes.len())
    &&& spec_layer_at(bytes, pos, multi) >= meta.headers@.len()
}

/// The chunk at `pos` parses completely: its layer is in range, its
/// descriptor and payload length are readable, and the whole payload lies
/// within the file.
pub open spec fn spec_chunk_parse_ok(bytes: Seq<u8>, pos: int, meta: MetaData) -> bool {
    let multi = meta.spec_multi_part();
    &&& pos >= 0
    &&& (multi ==> pos + 4 <= bytes.len())
    &&& 0 <= spec_layer_at(bytes, pos, multi) < meta.headers@.len()
    &&& {
        let h = meta.headers@[spec_layer_at(bytes, pos, multi)];
        let dp = spec_after_layer(pos, multi);
        let dl = spec_desc_len(h);
        &&& dp + dl + 8 <= bytes.len()
        &&& (h.blocks is ScanLines ==> le_u64_at(bytes, dp) <= usize::MAX)
        &&& le_u64_at(bytes, dp + dl) <= usize::MAX
        &&& dp + dl + 8 + le_u64_at(bytes, dp + dl) <= bytes.len()
    }
}

/// The chunk parsed from `pos`: all its fields are functions of the bytes.
pub open spec fn spec_parsed_chunk(bytes: Seq<u8>, pos: int, meta: MetaData) -> ChunkModel {
    let multi = meta.spec_multi_part();
    let layer = spec_layer_at(bytes, pos, multi);
    let h = meta.headers@[layer];
    let dp = spec_after_layer(pos, multi);
    let dl = spec_desc_len(h);
    let plen = le_u64_at(bytes, dp + dl);
    let ppos = dp + dl + 8;
    let data = bytes.subrange(ppos, ppos + plen);
    ChunkModel {
        layer,
        block: match h.blocks {
            BlockDescription::ScanLines => BlockModel::ScanLine { y: le_u64_at(bytes, dp), data },
            BlockDescription::Tiles(_) => BlockModel::Tile {
                tile_x: le_u32_at(bytes, dp),
                tile_y: le_u32_at(bytes, dp + 4),
                level_x: le_u32_at(bytes, dp + 8),
                level_y: le_u32_at(bytes, dp + 12),
                data,
            },
        },
    }
}

/// The position just after the chunk at `pos`.
pub open spec fn spec_chunk_end(bytes: Seq<u8>, pos: int, meta: MetaData) -> int {
    let multi = meta.spec_multi_part();
    let layer = spec_layer_at(bytes, pos, multi);
    let h = meta.headers@[layer];
    let dp = spec_after_layer(pos, multi);
    let dl = spec_desc_len(h);
    dp + dl + 8 + le_u64_at(bytes, dp + dl)
}

/// The serialized bytes of the chunk `c` in a file that is multi-layer
/// exactly when `multi` holds. Meaningful for scan-line and tile blocks.
pub open spec fn spec_chunk_bytes(c: ChunkModel, multi: bool) -> Seq<u8> {
    let layer_part = if multi {
        u32_le_bytes(c.layer as u32)
    } else {
        Seq::<u8>::empty()
    };
    match c.block {
        BlockModel::ScanLine { y, data } => layer_part + u64_le_bytes(y as u64) + u64_le_bytes(
            data.len() as u64,
        ) + data,
        BlockModel::Tile { tile_x, tile_y, level_x, level_y, data } => layer_part + u32_le_bytes(
            tile_x as u32,
        ) + u32_le_bytes(tile_y as u32) + u32_le_bytes(level_x as u32) + u32_le_bytes(
            level_y as u32,
        ) + u64_le_bytes(data.len() as u64) + data,
        _ => Seq::<u8>::empty(),
    }
}

/// Whether every integer field of `c` fits its wire field.
pub open spec fn spec_chunk_encodable(c: ChunkModel) -> bool {
    &&& 0 <= c.layer <= 0xffffffff
    &&& match c.block {
        BlockModel::ScanLine { y, data } => 0 <= y <= 0xffffffffffffffffu64,
        BlockModel::Tile { tile_x, tile_y, level_x, level_y, data } => 0 <= tile_x <= 0xffffffff
            && 0 <= tile_y <= 0xffffffff && 0 <= level_x <= 0xffffffff && 0 <= level_y
            <= 0xffffffff,
        _ => true,
    }
}

impl Chunk {
    /// Parse one chunk from the source's current position.
    ///
    /// On success the source stands just after the chunk's payload; on any
    /// failure the source stands where it stood before the call.
    pub fn read(source: &mut ByteSource, meta: &MetaData) -> (r: Result<Chunk, Error>)
        requires
            old(source).wf(),
            meta.valid(),
        ensures
            final(source).wf(),
            final(source).bytes() == old(source).bytes(),
            spec_chunk_parse_ok(old(source).bytes(), old(source).pos(), *meta) ==> (r matches Ok(c)
                && c.model() == spec_parsed_chunk(old(source).bytes(), old(source).pos(), *meta)
                && final(source).pos() == spec_chunk_end(
                old(source).bytes(),
                old(source).pos(),
                *meta,
            )),
            spec_chunk_layer_err(old(source).bytes(), old(source).pos(), *meta) ==> (r matches Err(
                e,
            ) && e.is_invalid_with("chunk layer index"@) && final(source).pos() == old(
                source,
            ).pos()),
            !spec_chunk_parse_ok(old(source).bytes(), old(source).pos(), *meta)
                && !spec_chunk_layer_err(old(source).bytes(), old(source).pos(), *meta) ==> (r
                matches Err(e) && e matches Error::Io(_) && final(source).pos() == old(
                source,
            ).pos()),
    {
        let start = source.byte_position();
        let layer_index: usize;
        if meta.multi_part() {
            match source.read_u32_le() {
                Ok(v) => {
                    layer_index = v as usize;
                },
                Err(e) => {
                    return Err(e);
                },
            }
        } else {
            layer_index = 0;
        }
        if layer_index >= meta.headers.len() {
            let _ = source.skip_to(start as u64);
            return Err(Error::Invalid("chunk layer index"));
        }
        let header = &meta.headers[layer_index];
        let block: Block;
        match header.blocks {
            BlockDescription::ScanLines => {
                let y64: u64;
                match source.read_u64_le() {
                    Ok(v) => {
                        y64 = v;
                    },
                    Err(e) => {
                        let _ = source.skip_to(start as u64);
                        return Err(e);
                    },
                }
                if y64 > usize::MAX as u64 {
                    let _ = source.skip_to(start as u64);
                    return Err(Error::Io("scan line position too large for this machine"));
                }
                let data = match Self::read_payload(source) {
                    Ok(d) => d,
                    Err(e) => {
                        let _ = source.skip_to(start as u64);
                        return Err(e);
                    },
                };
                block = Block::ScanLine(
                    ScanLineBlock { y_coordinate: y64 as usize, compressed_pixels: data },
                );
            },
            BlockDescription::Tiles(_) => {
                let tx: u32;
                let ty: u32;
                let lx: u32;
                let ly: u32;
                match source.read_u32_le() {
                    Ok(v) => {
                        tx = v;
                    },
                    Err(e) => {
                        let _ = source.skip_to(start as u64);
                        return Err(e);
                    },
                }
                match source.read_u32_le() {
                    Ok(v) => {
                        ty = v;
                    },
                    Err(e) => {
                        let _ = source.skip_to(start as u64);
                        return Err(e);
                    },
                }
                match source.read_u32_le() {
                    Ok(v) => {
                        lx = v;
                    },
                    Err(e) => {
                        let _ = source.skip_to(start as u64);
                        return Err(e);
                    },
                }
                match source.read_u32_le() {
                    Ok(v) => {
                        ly = v;
                    },
                    Err(e) => {
                        let _ = source.skip_to(start as u64);
                        return Err(e);
                    },
                }
                let data = match Self::read_payload(source) {
                    Ok(d) => d,
                    Err(e) => {
                        let _ = source.skip_to(start as u64);
                        return Err(e);
                    },
                };
                block = Block::Tile(
                    TileBlock {
                        coordinates: TileCoordinates {
                            tile_index: Vec2 { x: tx as usize, y: ty as usize },
                            level_index: Vec2 { x: lx as usize, y: ly as usize },
                        },
                        compressed_pixels: data,
                    },
                );
            },
        }
        Ok(Chunk { layer_index, block })
    }

    /// Read the payload length and the payload itself.
    fn read_payload(source: &mut ByteSource) -> (r: Result<Vec<u8>, Error>)
        requires
            old(source).wf(),
        ensures
            final(source).wf(),
            final(source).bytes() == old(source).bytes(),
            ({
                let b = old(source).bytes();
                let p = old(source).pos();
                &&& (p + 8 <= b.len() && le_u64_at(b, p) <= usize::MAX && p + 8 + le_u64_at(b, p)
                    <= b.len()) ==> (r matches Ok(d) && d@ == b.subrange(
                    p + 8,
                    p + 8 + le_u64_at(b, p),
                ) && final(source).pos() == p + 8 + le_u64_at(b, p))
                &&& !(p + 8 <= b.len() && le_u64_at(b, p) <= usize::MAX && p + 8 + le_u64_at(b, p)
                    <= b.len()) ==> (r matches Err(e) && e matches Error::Io(_))
            }),
    {
        let plen: u64;
        match source.read_u64_le() {
            Ok(v) => {
                plen = v;
            },
            Err(e) => {
                return Err(e);
            },
        }
        if plen > usize::MAX as u64 {
            return Err(Error::Io("chunk payload too large for this machine"));
        }
        source.read_bytes(plen as usize)
    }

    /// Serialize this chunk to the end of the sink.
    ///
    /// Deep blocks are recognized but cannot be written; on any failure the
    /// sink is unchanged.
    #[verifier::rlimit(80)]
    pub fn write(&self, sink: &mut ByteSink, multi_part: bool) -> (r: Result<(), Error>)
        requires
            old(sink).wf(),
            old(sink).pos() == old(sink).bytes().len(),
            spec_chunk_encodable(self.model()),
        ensures
            final(sink).wf(),
            (self.block is ScanLine || self.block is Tile) && old(sink).bytes().len()
                + spec_chunk_bytes(self.model(), multi_part).len() <= usize::MAX ==> (r is Ok
                && final(sink).bytes() == old(sink).bytes() + spec_chunk_bytes(
                self.model(),
                multi_part,
            ) && final(sink).pos() == final(sink).bytes().len()),
            (self.block is ScanLine || self.block is Tile) && old(sink).bytes().len()
                + spec_chunk_bytes(self.model(), multi_part).len() > usize::MAX ==> (r
                matches Err(e) && e.model() == ErrorModel::Io("file too large for this machine"@)
                && final(sink).bytes() == old(sink).bytes()
                && final(sink).pos() == old(sink).pos()),
            (self.block is DeepScanLine || self.block is DeepTile) ==> (r matches Err(e)
                && e.is_not_supported_with("deep data not supported yet"@) && final(sink).bytes()
                == old(sink).bytes() && final(sink).pos() == old(sink).pos()),
    {
        let payload: &Vec<u8> = match &self.block {
            Block::ScanLine(s) => &s.compressed_pixels,
            Block::Tile(t) => &t.compressed_pixels,
            Block::DeepScanLine | Block::DeepTile => {
                return Err(Error::NotSupported("deep data not supported yet"));
            },
        };
        let layer_bytes: usize = if multi_part {
            4
        } else {
            0
        };
        let desc_bytes: usize = match &self.block {
            Block::ScanLine(_) => 8,
            _ => 16,
        };
        let overhead: usize = layer_bytes + desc_bytes + 8;
        if payload.len() > usize::MAX - overhead {
            return Err(Error::Io("file too large for this machine"));
        }
        let mut enc: Vec<u8> = Vec::new();
        if multi_part {
            write_u32_le(&mut enc, self.layer_index as u32);
        }
        match &self.block {
            Block::ScanLine(s) => {
                write_u64_le(&mut enc, s.y_coordinate as u64);
            },
            Block::Tile(t) => {
                write_u32_le(&mut enc, t.coordinates.tile_index.x as u32);
                write_u32_le(&mut enc, t.coordinates.tile_index.y as u32);
                write_u32_le(&mut enc, t.coordinates.level_index.x as u32);
                write_u32_le(&mut enc, t.coordinates.level_index.y as u32);
            },
            Block::DeepScanLine | Block::DeepTile => {
                return Err(Error::NotSupported("deep data not supported yet"));
            },
        }
        write_u64_le(&mut enc, payload.len() as u64);
        let mut i: usize = 0;
        let pn: usize = payload.len();
        let ghost enc_head = enc@;
        while i < pn
            invariant
                i <= pn,
                pn == payload@.len(),
                enc@ == enc_head + payload@.subrange(0, i as int),
                enc_head.len() + pn <= usize::MAX,
            decreases pn - i,
        {
            enc.push(payload[i]);
            i = i + 1;
            proof {
                assert(enc@ =~= enc_head + payload@.subrange(0, i as int));
            }
        }
        proof {
            assert(enc@ =~= spec_chunk_bytes(self.model(), multi_part));
        }
        let r = sink.write_all(&enc);
        match r {
            Ok(_) => {
                proof {
                    assert(old(sink).pos() + enc@.len() <= usize::MAX) by {
                        if old(sink).pos() + enc@.len() > usize::MAX {
                            assert(r is Err);
                        }
                    }
                    assert(sink.bytes() =~= old(sink).bytes() + enc@);
                }
                Ok(())
            },
            Err(e) => Err(e),
        }
    }
}

/// Whether the grid position of `b` within `h` can be derived: always for a
/// tile block, and for a scan-line block exactly when its y position lies
/// within the layer; never for a deep block.
pub open spec fn spec_block_data_indices_ok(h: Header, b: BlockModel) -> bool {
    match b {
        BlockModel::ScanLine { y, .. } => h.layer_position.y <= y < h.layer_position.y
            + h.layer_size.y,
        BlockModel::Tile { .. } => true,
        BlockModel::DeepScanLine => false,
        BlockModel::DeepTile => false,
    }
}

/// The grid coordinates of `b` within `h`: a tile block carries them, a
/// scan-line block derives its row from its y position.
pub open spec fn spec_block_data_indices(h: Header, b: BlockModel) -> TileCoordinates {
    match b {
        BlockModel::ScanLine { y, .. } => TileCoordinates {
            tile_index: Vec2 {
                x: 0,
                y: ((y - h.layer_position.y) / h.spec_block_dims().1) as usize,
            },
            level_index: Vec2 { x: 0, y: 0 },
        },
        BlockModel::Tile { tile_x, tile_y, level_x, level_y, .. } => TileCoordinates {
            tile_index: Vec2 { x: tile_x as usize, y: tile_y as usize },
            level_index: Vec2 { x: level_x as usize, y: level_y as usize },
        },
        _ => TileCoordinates {
            tile_index: Vec2 { x: 0, y: 0 },
            level_index: Vec2 { x: 0, y: 0 },
        },
    }
}

impl Header {
    /// Derive the grid coordinates of `block` within this layer.
    pub fn get_block_data_indices(&self, block: &Block) -> (r: Result<TileCoordinates, Error>)
        requires
            self.valid(),
        ensures
            spec_block_data_indices_ok(*self, block.model()) ==> r == Ok::<TileCoordinates, Error>(
                spec_block_data_indices(*self, block.model()),
            ),
            (block matches Block::ScanLine(s) && !spec_block_data_indices_ok(
                *self,
                block.model(),
            )) ==> (r matches Err(e) && e.is_invalid_with("chunk y coordinate"@)),
            (block is DeepScanLine || block is DeepTile) ==> (r matches Err(e)
                && e.is_not_supported_with("deep data not supported yet"@)),
    {
        match block {
            Block::ScanLine(s) => {
                let dims = self.max_block_pixel_size();
                if s.y_coordinate < self.layer_position.y || s.y_coordinate
                    >= self.layer_position.y + self.layer_size.y {
                    return Err(Error::Invalid("chunk y coordinate"));
                }
                let rel: usize = s.y_coordinate - self.layer_position.y;
                Ok(
                    TileCoordinates {
                        tile_index: Vec2 { x: 0, y: rel / dims.y },
                        level_index: Vec2 { x: 0, y: 0 },
                    },
                )
            },
            Block::Tile(t) => Ok(t.coordinates),
            Block::DeepScanLine | Block::DeepTile => Err(
                Error::NotSupported("deep data not supported yet"),
            ),
        }
    }
}

} // verus!
