//! Pixel blocks and the bridge between blocks and on-disk chunks.
//!
//! `decompress_chunk` turns a chunk into an uncompressed block using the
//! layer's geometry and codec; `compress_to_chunk` is its inverse. For the
//! lossless codecs offered here the inverse is exact, and that is part of
//! `compress_to_chunk`'s contract.

use vstd::prelude::*;

use crate::chunk::{
    result_model, spec_block_data_indices, spec_block_data_indices_ok, spec_chunk_encodable,
    Block, BlockModel, Chunk, ChunkModel, ScanLineBlock, TileBlock,
};
use crate::compress::{
    spec_compress_section, spec_decompress_decodable, spec_decompress_section_ok,
    spec_decompressed_section,
};
use crate::error::{Error, ErrorModel};
use crate::math::Vec2;
use crate::meta::{BlockDescription, Header, MetaData, TileCoordinates, MAX_BLOCK_BYTES};

verus! {

/// Where a pixel block belongs in the image: layer, position, extent and
/// resolution level.
#[derive(Clone, Copy, PartialEq, Eq, Structural, Hash, Debug)]
pub struct BlockIndex {
    /// Index of the layer.
    pub layer: usize,
    /// The lower-left pixel of the block within the layer.
    pub pixel_position: Vec2,
    /// The pixel extent of the block.
    pub pixel_size: Vec2,
    /// The mip/rip level of the block; base level here.
    pub level: Vec2,
}

/// One block of uncompressed pixel bytes and where it belongs.
#[derive(Clone, PartialEq, Eq, Debug)]
pub struct UncompressedBlock {
    /// Where the data belongs in the image.
    pub index: BlockIndex,
    /// The pixel bytes: scan line by scan line, channel by channel within
    /// each line, each channel row contiguous and little-endian.
    pub data: Vec<u8>,
}

/// The mathematical shadow of an [`UncompressedBlock`].
pub struct UncompressedBlockModel {
    /// Where the data belongs in the image.
    pub index: BlockIndex,
    /// The pixel bytes.
    pub data: Seq<u8>,
}

impl UncompressedBlock {
    /// The mathematical shadow of this block.
    pub open spec fn model(&self) -> UncompressedBlockModel {
        UncompressedBlockModel { index: self.index, data: self.data@ }
    }
}

/// The shadow of a decompression result.
pub open spec fn ub_result_model(r: Result<UncompressedBlock, Error>) -> Result<
    UncompressedBlockModel,
    ErrorModel,
> {
    match r {
        Ok(b) => Ok(b.model()),
        Err(e) => Err(e.model()),
    }
}

/// The compressed payload a block carries; empty for deep blocks.
pub open spec fn spec_block_payload(b: BlockModel) -> Seq<u8> {
    match b {
        BlockModel::ScanLine { data, .. } => data,
        BlockModel::Tile { data, .. } => data,
        _ => Seq::<u8>::empty(),
    }
}

/// What decompressing the chunk `c` against `headers` yields: the block
/// and its pixel bytes, or the exact error, each a function of the chunk,
/// the headers and the codec.
pub open spec fn spec_decompress_chunk(
    c: ChunkModel,
    headers: Seq<Header>,
    pedantic: bool,
) -> Result<UncompressedBlockModel, ErrorModel> {
    if !(0 <= c.layer < headers.len()) {
        Err(ErrorModel::Invalid("chunk layer index"@))
    } else {
        let h = headers[c.layer];
        if c.block is DeepScanLine || c.block is DeepTile {
            Err(ErrorModel::NotSupported("deep data not supported yet"@))
        } else if !spec_block_data_indices_ok(h, c.block) {
            Err(ErrorModel::Invalid("chunk y coordinate"@))
        } else {
            let tc = spec_block_data_indices(h, c.block);
            if !h.spec_coords_valid(tc) {
                Err(ErrorModel::Invalid("tile coordinates"@))
            } else {
                let bounds = h.spec_absolute_bounds(tc);
                let expected = bounds.size.x * bounds.size.y * h.spec_bytes_per_pixel();
                let data = spec_block_payload(c.block);
                if !spec_decompress_decodable(h.compression, data) {
                    Err(ErrorModel::Invalid("compressed data"@))
                } else if !spec_decompress_section_ok(h.compression, data, expected) {
                    Err(ErrorModel::Invalid("decompressed size"@))
                } else {
                    Ok(
                        UncompressedBlockModel {
                            index: BlockIndex {
                                layer: c.layer as usize,
                                pixel_position: bounds.position,
                                pixel_size: bounds.size,
                                level: tc.level_index,
                            },
                            data: spec_decompressed_section(h.compression, data),
                        },
                    )
                }
            }
        }
    }
}

/// Whether `index` names exactly one block of `h`'s block grid: aligned to
/// the grid, inside it, at base level, with the grid cell's exact
/// (edge-clipped) extent.
pub open spec fn spec_block_matches_header(index: BlockIndex, h: Header) -> bool {
    let (dx, dy) = h.spec_block_dims();
    let tc = TileCoordinates {
        tile_index: Vec2 {
            x: (index.pixel_position.x / dx as usize) as usize,
            y: (index.pixel_position.y / dy as usize) as usize,
        },
        level_index: index.level,
    };
    &&& index.level.x == 0 && index.level.y == 0
    &&& index.pixel_position.x % (dx as usize) == 0
    &&& index.pixel_position.y % (dy as usize) == 0
    &&& h.spec_coords_valid(tc)
    &&& index.pixel_size == h.spec_absolute_bounds(tc).size
}

/// What compressing the block `b` against `headers` yields: a scan-line or
/// tile chunk per the layer's block description, carrying the codec's
/// payload, or an error when the block does not sit on the layer's grid.
pub open spec fn spec_compress_to_chunk(b: UncompressedBlockModel, headers: Seq<Header>) -> Result<
    ChunkModel,
    ErrorModel,
> {
    let h = headers[b.index.layer as int];
    let (dx, dy) = h.spec_block_dims();
    let tc = TileCoordinates {
        tile_index: Vec2 {
            x: (b.index.pixel_position.x / dx as usize) as usize,
            y: (b.index.pixel_position.y / dy as usize) as usize,
        },
        level_index: b.index.level,
    };
    if !h.spec_coords_valid(tc) {
        Err(ErrorModel::Invalid("tile coordinates"@))
    } else {
        let payload = spec_compress_section(h.compression, b.data);
        Ok(
            ChunkModel {
                layer: b.index.layer as int,
                block: match h.blocks {
                    BlockDescription::ScanLines => BlockModel::ScanLine {
                        y: b.index.pixel_position.y + h.layer_position.y,
                        data: payload,
                    },
                    BlockDescription::Tiles(_) => BlockModel::Tile {
                        tile_x: tc.tile_index.x as int,
                        tile_y: tc.tile_index.y as int,
                        level_x: tc.level_index.x as int,
                        level_y: tc.level_index.y as int,
                        data: payload,
                    },
                },
            },
        )
    }
}

/// A clipped block is never larger than a full block.
proof fn lemma_clipped_block_bytes(sx: int, sy: int, bpp: int, dx: int, dy: int)
    by (nonlinear_arith)
    requires
        0 <= sx <= dx,
        0 <= sy <= dy,
        2 <= bpp,
        dx * dy * bpp <= MAX_BLOCK_BYTES,
    ensures
        0 <= sx * sy * bpp <= MAX_BLOCK_BYTES,
        0 <= sx * sy <= MAX_BLOCK_BYTES,
{
}

impl UncompressedBlock {
    /// Decompress the possibly compressed chunk into an uncompressed block.
    ///
    /// The result, success or exact error, is pinned by
    /// [`spec_decompress_chunk`].
    pub fn decompress_chunk(chunk: Chunk, meta_data: &MetaData, pedantic: bool) -> (r: Result<
        UncompressedBlock,
        Error,
    >)
        requires
            meta_data.valid(),
        ensures
            ub_result_model(r) == spec_decompress_chunk(
                chunk.model(),
                meta_data.headers@,
                pedantic,
            ),
    {
        if chunk.layer_index >= meta_data.headers.len() {
            return Err(Error::Invalid("chunk layer index"));
        }
        let header = &meta_data.headers[chunk.layer_index];
        let tile_data_indices = match header.get_block_data_indices(&chunk.block) {
            Ok(tc) => tc,
            Err(e) => {
                return Err(e);
            },
        };
        let absolute_indices = match header.get_absolute_block_pixel_coordinates(
            tile_data_indices,
        ) {
            Ok(b) => b,
            Err(e) => {
                return Err(e);
            },
        };
        let bpp = header.bytes_per_pixel();
        proof {
            header.lemma_grid_bounds();
            header.lemma_absolute_bounds_in_layer(tile_data_indices);
            lemma_clipped_block_bytes(
                absolute_indices.size.x as int,
                absolute_indices.size.y as int,
                bpp as int,
                header.spec_block_dims().0,
                header.spec_block_dims().1,
            );
        }
        let expected: usize = absolute_indices.size.x * absolute_indices.size.y * bpp;
        let compressed = match chunk.block {
            Block::ScanLine(s) => s.compressed_pixels,
            Block::Tile(t) => t.compressed_pixels,
            Block::DeepScanLine | Block::DeepTile => {
                return Err(Error::NotSupported("deep data not supported yet"));
            },
        };
        match header.compression.decompress_image_section(compressed, expected, pedantic) {
            Ok(data) => Ok(
                UncompressedBlock {
                    index: BlockIndex {
                        layer: chunk.layer_index,
                        pixel_position: absolute_indices.position,
                        pixel_size: absolute_indices.size,
                        level: tile_data_indices.level_index,
                    },
                    data,
                },
            ),
            Err(e) => Err(e),
        }
    }

    /// Consume this block by compressing it into a chunk.
    ///
    /// When the block sits on its layer's grid, the returned chunk
    /// decompresses, pedantically, back to exactly this block: the codecs
    /// are lossless.
    pub fn compress_to_chunk(self, headers: &Vec<Header>) -> (r: Result<Chunk, Error>)
        requires
            self.index.layer < headers@.len(),
            headers@.len() <= crate::meta::MAX_HEADERS,
            headers@[self.index.layer as int].valid(),
            self.data@.len() == self.index.pixel_size.x * self.index.pixel_size.y * headers@[
                self.index.layer as int
            ].spec_bytes_per_pixel(),
            self.index.pixel_position.y + headers@[self.index.layer as int].layer_position.y
                <= usize::MAX,
        ensures
            result_model(r) == spec_compress_to_chunk(self.model(), headers@),
            r matches Ok(c) ==> spec_chunk_encodable(c.model()),
            spec_block_matches_header(self.index, headers@[self.index.layer as int]) ==> (r
                matches Ok(c) && spec_decompress_chunk(c.model(), headers@, true) == Ok::<
                UncompressedBlockModel,
                ErrorModel,
            >(self.model())),
    {
        let UncompressedBlock { data, index } = self;
        let ghost this = UncompressedBlockModel { index, data: data@ };
        let header = &headers[index.layer];
        let dims = header.max_block_pixel_size();
        let tile_coordinates = TileCoordinates {
            tile_index: Vec2 {
                x: index.pixel_position.x / dims.x,
                y: index.pixel_position.y / dims.y,
            },
            level_index: index.level,
        };
        let absolute_indices = match header.get_absolute_block_pixel_coordinates(
            tile_coordinates,
        ) {
            Ok(b) => b,
            Err(e) => {
                return Err(e);
            },
        };
        let compressed_data = match header.compression.compress_image_section(data) {
            Ok(v) => v,
            Err(e) => {
                return Err(e);
            },
        };
        let chunk = Chunk {
            layer_index: index.layer,
            block: match header.blocks {
                BlockDescription::ScanLines => Block::ScanLine(
                    ScanLineBlock {
                        compressed_pixels: compressed_data,
                        y_coordinate: index.pixel_position.y + header.layer_position.y,
                    },
                ),
                BlockDescription::Tiles(_) => Block::Tile(
                    TileBlock { compressed_pixels: compressed_data, coordinates: tile_coordinates },
                ),
            },
        };
        proof {
            header.lemma_grid_bounds();
            if spec_block_matches_header(index, headers@[index.layer as int]) {
                lemma_compress_round_trip(this, chunk.model(), headers@);
            }
        }
        Ok(chunk)
    }
}

/// For a block that sits on its layer's grid, the chunk built by
/// `compress_to_chunk` decompresses back to exactly that block.
proof fn lemma_compress_round_trip(b: UncompressedBlockModel, c: ChunkModel, headers: Seq<Header>)
    requires
        0 <= b.index.layer < headers.len(),
        headers[b.index.layer as int].valid(),
        b.data.len() == b.index.pixel_size.x * b.index.pixel_size.y * headers[
            b.index.layer as int
        ].spec_bytes_per_pixel(),
        spec_block_matches_header(b.index, headers[b.index.layer as int]),
        spec_compress_to_chunk(b, headers) == Ok::<ChunkModel, ErrorModel>(c),
        spec_decompress_section_ok(
            headers[b.index.layer as int].compression,
            spec_block_payload(c.block),
            b.data.len() as int,
        ),
        spec_decompressed_section(
            headers[b.index.layer as int].compression,
            spec_block_payload(c.block),
        ) == b.data,
    ensures
        spec_decompress_chunk(c, headers, true) == Ok::<UncompressedBlockModel, ErrorModel>(b),
{
    let h = headers[b.index.layer as int];
    h.lemma_grid_bounds();
    let (dx, dy) = h.spec_block_dims();
    let px = b.index.pixel_position.x as int;
    let py = b.index.pixel_position.y as int;
    let tx = px / dx;
    let ty = py / dy;
    assert(px == dx * tx && py == dy * ty) by (nonlinear_arith)
        requires
            dx >= 1,
            dy >= 1,
            px >= 0,
            py >= 0,
            px % dx == 0,
            py % dy == 0,
            tx == px / dx,
            ty == py / dy,
    ;
    let tc = spec_block_data_indices(h, c.block);
    match h.blocks {
        BlockDescription::ScanLines => {
            let y = py + h.layer_position.y;
            assert(c.block matches BlockModel::ScanLine { y: cy, data } && cy == y);
            // the strip's y position lies within the layer
            let hy = h.layer_size.y as int;
            assert(ty < (hy + dy - 1) / dy);
            assert(ty * dy < hy) by (nonlinear_arith)
                requires
                    ty < (hy + dy - 1) / dy,
                    dy >= 1,
                    hy >= 1,
                    ty >= 0,
            ;
            assert(py < h.layer_size.y);
            assert(spec_block_data_indices_ok(h, c.block));
            // the derived row is the original row
            assert((y - h.layer_position.y) == py);
            assert(py / dy == ty);
            assert(tc.tile_index.y == ty);
            assert(tc.tile_index.x == 0);
            // for scan lines there is a single block column
            assert(h.spec_blocks_x() == 1) by {
                assert((h.layer_size.x as int + h.layer_size.x as int - 1) / (
                h.layer_size.x as int) == 1) by (nonlinear_arith)
                    requires
                        h.layer_size.x >= 1,
                ;
            }
            assert(tx < 1 && tx >= 0);
            assert(px == dx * 0);
            assert(px == 0);
            assert(h.spec_coords_valid(tc));
        },
        BlockDescription::Tiles(_) => {
            assert(c.block matches BlockModel::Tile { tile_x, tile_y, .. } && tile_x == tx
                && tile_y == ty);
            assert(tc.tile_index.x == tx && tc.tile_index.y == ty);
            assert(h.spec_coords_valid(tc));
        },
    }
    // the derived grid coordinates are the ones the block was built from
    let tcm = TileCoordinates {
        tile_index: Vec2 {
            x: (b.index.pixel_position.x / dx as usize) as usize,
            y: (b.index.pixel_position.y / dy as usize) as usize,
        },
        level_index: b.index.level,
    };
    assert(tcm.tile_index.x == tx && tcm.tile_index.y == ty);
    assert(tc.tile_index.x == tcm.tile_index.x && tc.tile_index.y == tcm.tile_index.y);
    assert(tc.level_index == tcm.level_index);
    assert(tc == tcm);
    let bounds = h.spec_absolute_bounds(tc);
    assert(tc.tile_index.x * dx == px) by (nonlinear_arith)
        requires
            px == dx * tx,
            tc.tile_index.x == tx,
    ;
    assert(tc.tile_index.y * dy == py) by (nonlinear_arith)
        requires
            py == dy * ty,
            tc.tile_index.y == ty,
    ;
    assert(bounds.position.x == b.index.pixel_position.x && bounds.position.y
        == b.index.pixel_position.y);
    assert(bounds.size == b.index.pixel_size);
    let expected = bounds.size.x * bounds.size.y * h.spec_bytes_per_pixel();
    assert(expected == b.data.len());
    let dec = spec_decompress_chunk(c, headers, true);
    assert(dec matches Ok(u) && u.index == b.index && u.data == b.data);
    assert(dec == Ok::<UncompressedBlockModel, ErrorModel>(b));
}

} // verus!
