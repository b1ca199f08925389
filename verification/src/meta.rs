//! Image metadata: headers, channel lists, compression choice, and the
//! block geometry each header induces.
//!
//! A header describes one layer: its pixel extent, its channels, how its
//! pixels are grouped into blocks (scan-line strips or tiles), and in which
//! order the blocks must appear in the file.

use vstd::prelude::*;

use crate::math::Vec2;

verus! {

/// How many pixels a layer may measure along one axis.
pub const MAX_LAYER_EXTENT: usize = 0x100000;

/// How many channels one layer may carry.
pub const MAX_CHANNELS: usize = 255;

/// How many pixels a tile may measure along one axis.
pub const MAX_TILE_EXTENT: usize = 0x10000;

/// How many layers one file may carry.
pub const MAX_HEADERS: usize = 1024;

/// How many blocks one layer may store.
pub const MAX_CHUNKS_PER_LAYER: usize = 0x1000000;

/// How many blocks one whole file may store, over all layers.
pub const MAX_TOTAL_CHUNKS: usize = 0x1000000;

/// How many bytes the pixels of one full block may occupy.
pub const MAX_BLOCK_BYTES: usize = 0x40000000;

/// The number type of one channel's samples; only its byte width matters to
/// the block pipeline.
#[derive(Clone, Copy, PartialEq, Eq, Structural, Debug)]
pub enum SampleType {
    /// A 16-bit float sample.
    F16,
    /// A 32-bit float sample.
    F32,
    /// A 32-bit unsigned integer sample.
    U32,
}

impl SampleType {
    /// How many bytes one sample occupies.
    pub open spec fn spec_byte_size(self) -> int {
        match self {
            SampleType::F16 => 2,
            SampleType::F32 => 4,
            SampleType::U32 => 4,
        }
    }

    /// How many bytes one sample occupies.
    pub fn byte_size(self) -> (r: usize)
        ensures
            r == self.spec_byte_size(),
    {
        match self {
            SampleType::F16 => 2,
            SampleType::F32 => 4,
            SampleType::U32 => 4,
        }
    }
}

/// The channels of one layer, in channel-list order.
#[derive(Clone, PartialEq, Eq, Debug)]
pub struct ChannelList {
    /// The sample type of each channel.
    pub channel_types: Vec<SampleType>,
}

/// The summed byte width of the samples in `s`.
pub open spec fn spec_sum_byte_sizes(s: Seq<SampleType>) -> int
    decreases s.len(),
{
    if s.len() == 0 {
        0
    } else {
        spec_sum_byte_sizes(s.drop_last()) + s.last().spec_byte_size()
    }
}

/// The summed byte width is between twice and four times the channel count.
pub proof fn lemma_sum_byte_sizes_bounds(s: Seq<SampleType>)
    ensures
        2 * s.len() <= spec_sum_byte_sizes(s) <= 4 * s.len(),
    decreases s.len(),
{
    if s.len() > 0 {
        lemma_sum_byte_sizes_bounds(s.drop_last());
    }
}

impl ChannelList {
    /// The byte width of one pixel: the sum of all channel sample widths.
    pub open spec fn spec_bytes_per_pixel(&self) -> int {
        spec_sum_byte_sizes(self.channel_types@)
    }

    /// The byte width of one pixel: the sum of all channel sample widths.
    pub fn bytes_per_pixel(&self) -> (r: usize)
        requires
            self.channel_types@.len() <= MAX_CHANNELS,
        ensures
            r == self.spec_bytes_per_pixel(),
    {
        proof {
            lemma_sum_byte_sizes_bounds(self.channel_types@);
        }
        let mut sum: usize = 0;
        let mut i: usize = 0;
        let n: usize = self.channel_types.len();
        while i < n
            invariant
                i <= n,
                n == self.channel_types@.len(),
                n <= MAX_CHANNELS,
                sum == spec_sum_byte_sizes(self.channel_types@.take(i as int)),
                sum <= 4 * i,
            decreases n - i,
        {
            proof {
                assert(self.channel_types@.take(i + 1).drop_last() =~= self.channel_types@.take(
                    i as int,
                ));
                assert(self.channel_types@.take(i + 1).last() == self.channel_types@[i as int]);
            }
            sum = sum + self.channel_types[i].byte_size();
            i = i + 1;
        }
        proof {
            assert(self.channel_types@.take(n as int) =~= self.channel_types@);
        }
        sum
    }
}

/// How the pixel bytes of one block are compressed on disk.
#[derive(Clone, Copy, PartialEq, Eq, Structural, Debug)]
pub enum Compression {
    /// Pixel bytes are stored as they are.
    Uncompressed,
    /// Pixel bytes are deflate-compressed, sixteen scan lines to a block.
    Zip,
}

impl Compression {
    /// How many scan lines one scan-line block of this compression covers.
    pub open spec fn spec_scan_lines_per_block(self) -> int {
        match self {
            Compression::Uncompressed => 1,
            Compression::Zip => 16,
        }
    }

    /// How many scan lines one scan-line block of this compression covers.
    pub fn scan_lines_per_block(self) -> (r: usize)
        ensures
            r == self.spec_scan_lines_per_block(),
    {
        match self {
            Compression::Uncompressed => 1,
            Compression::Zip => 16,
        }
    }

    /// Whether decompressing a compressed block may yield different pixel
    /// bytes than were compressed; false for every codec offered here.
    pub open spec fn spec_may_loose_data(self) -> bool {
        false
    }

    /// Whether this codec may lose pixel data; both offered codecs are
    /// lossless.
    pub fn may_loose_data(self) -> (r: bool)
        ensures
            r == self.spec_may_loose_data(),
    {
        false
    }
}

/// The order in which a header's blocks must appear in the file.
#[derive(Clone, Copy, PartialEq, Eq, Structural, Debug)]
pub enum LineOrder {
    /// Blocks appear bottom-up: increasing y index.
    Increasing,
    /// Blocks appear top-down: decreasing y index.
    Decreasing,
    /// Blocks may appear in any order.
    Unspecified,
}

/// The tile layout of a tiled layer.
#[derive(Clone, Copy, PartialEq, Eq, Structural, Debug)]
pub struct TileDescription {
    /// The pixel extent of one full tile.
    pub tile_size: Vec2,
}

/// Whether a layer stores scan-line strips or tiles.
#[derive(Clone, Copy, PartialEq, Eq, Structural, Debug)]
pub enum BlockDescription {
    /// Blocks are horizontal strips of whole scan lines.
    ScanLines,
    /// Blocks are rectangular tiles.
    Tiles(TileDescription),
}

/// Where a block lies in a layer's block grid: the tile column and row, and
/// the resolution level (always the base level here).
#[derive(Clone, Copy, PartialEq, Eq, Structural, Debug)]
pub struct TileCoordinates {
    /// Column (x) and row (y) in the block grid.
    pub tile_index: Vec2,
    /// Mip/rip level of the block; this library stores base-level images.
    pub level_index: Vec2,
}

/// A pixel rectangle: a position and an extent within a layer.
#[derive(Clone, Copy, PartialEq, Eq, Structural, Debug)]
pub struct PixelBounds {
    /// The lower-left pixel of the rectangle.
    pub position: Vec2,
    /// The pixel extent of the rectangle.
    pub size: Vec2,
}

/// The smallest multiple of `b` at or above `a`, counted in units of `b`.
pub open spec fn spec_div_ceil(a: int, b: int) -> int
    recommends
        a >= 0,
        b > 0,
{
    (a + b - 1) / b
}

/// For positive `a` and `b`, the ceiling quotient lies between 1 and `a`.
pub proof fn lemma_div_ceil_bounds(a: int, b: int)
    by (nonlinear_arith)
    requires
        a >= 1,
        b >= 1,
    ensures
        1 <= spec_div_ceil(a, b) <= a,
{
}

/// One layer of the image.
#[derive(Clone, PartialEq, Eq, Debug)]
pub struct Header {
    /// The channels of this layer.
    pub channels: ChannelList,
    /// The codec for this layer's blocks.
    pub compression: Compression,
    /// The block order this layer demands in the file.
    pub line_order: LineOrder,
    /// The pixel extent of this layer.
    pub layer_size: Vec2,
    /// Where the layer sits in the global pixel space.
    pub layer_position: Vec2,
    /// Scan lines or tiles.
    pub blocks: BlockDescription,
}

impl Header {
    /// Structural soundness of one header: all extents are in range, so
    /// every derived quantity below fits comfortably in a machine word.
    pub open spec fn valid(&self) -> bool {
        &&& 1 <= self.layer_size.x <= MAX_LAYER_EXTENT
        &&& 1 <= self.layer_size.y <= MAX_LAYER_EXTENT
        &&& self.layer_position.x <= MAX_LAYER_EXTENT
        &&& self.layer_position.y <= MAX_LAYER_EXTENT
        &&& 1 <= self.channels.channel_types@.len() <= MAX_CHANNELS
        &&& match self.blocks {
            BlockDescription::ScanLines => true,
            BlockDescription::Tiles(t) => 1 <= t.tile_size.x <= MAX_TILE_EXTENT && 1
                <= t.tile_size.y <= MAX_TILE_EXTENT,
        }
        &&& self.spec_chunk_count() <= MAX_CHUNKS_PER_LAYER
        &&& self.spec_block_dims().0 * self.spec_block_dims().1 * self.spec_bytes_per_pixel()
            <= MAX_BLOCK_BYTES
    }

    /// Check structural soundness of this header.
    pub fn is_valid(&self) -> (r: bool)
        ensures
            r == self.valid(),
    {
        let size_ok = 1 <= self.layer_size.x && self.layer_size.x <= MAX_LAYER_EXTENT && 1
            <= self.layer_size.y && self.layer_size.y <= MAX_LAYER_EXTENT
            && self.layer_position.x <= MAX_LAYER_EXTENT && self.layer_position.y
            <= MAX_LAYER_EXTENT;
        let n: usize = self.channels.channel_types.len();
        let channels_ok = 1 <= n && n <= MAX_CHANNELS;
        let blocks_ok = match self.blocks {
            BlockDescription::ScanLines => true,
            BlockDescription::Tiles(t) => 1 <= t.tile_size.x && t.tile_size.x <= MAX_TILE_EXTENT
                && 1 <= t.tile_size.y && t.tile_size.y <= MAX_TILE_EXTENT,
        };
        if !(size_ok && channels_ok && blocks_ok) {
            return false;
        }
        let bpp: u64 = self.channels.bytes_per_pixel() as u64;
        let dims = match self.blocks {
            BlockDescription::ScanLines => Vec2 {
                x: self.layer_size.x,
                y: self.compression.scan_lines_per_block(),
            },
            BlockDescription::Tiles(t) => t.tile_size,
        };
        proof {
            lemma_sum_byte_sizes_bounds(self.channels.channel_types@);
            lemma_div_ceil_bounds(self.layer_size.x as int, dims.x as int);
            lemma_div_ceil_bounds(self.layer_size.y as int, dims.y as int);
        }
        let bx: u64 = ((self.layer_size.x + dims.x - 1) / dims.x) as u64;
        let by: u64 = ((self.layer_size.y + dims.y - 1) / dims.y) as u64;
        proof {
            assert(bx * by <= MAX_LAYER_EXTENT * MAX_LAYER_EXTENT) by (nonlinear_arith)
                requires
                    1 <= bx <= MAX_LAYER_EXTENT,
                    1 <= by <= MAX_LAYER_EXTENT,
            ;
            assert((dims.x as int) * (dims.y as int) <= (MAX_LAYER_EXTENT as int) * (
            MAX_TILE_EXTENT as int)) by (nonlinear_arith)
                requires
                    1 <= dims.x <= MAX_LAYER_EXTENT,
                    1 <= dims.y <= MAX_TILE_EXTENT,
            ;
            assert((dims.x as int) * (dims.y as int) * (bpp as int) <= (MAX_LAYER_EXTENT as int)
                * (MAX_TILE_EXTENT as int) * 1020) by (nonlinear_arith)
                requires
                    0 <= (dims.x as int) * (dims.y as int) <= (MAX_LAYER_EXTENT as int) * (
                    MAX_TILE_EXTENT as int),
                    0 <= bpp <= 1020,
            ;
        }
        let chunks: u64 = bx * by;
        let block_bytes: u64 = (dims.x as u64) * (dims.y as u64) * bpp;
        chunks <= MAX_CHUNKS_PER_LAYER as u64 && block_bytes <= MAX_BLOCK_BYTES as u64
    }

    /// The byte width of one pixel in this layer.
    pub open spec fn spec_bytes_per_pixel(&self) -> int {
        self.channels.spec_bytes_per_pixel()
    }

    /// The pixel extent of a full (not edge-clipped) block: the whole layer
    /// width and the compression's line count for scan lines, the tile size
    /// for tiles.
    pub open spec fn spec_block_dims(&self) -> (int, int) {
        match self.blocks {
            BlockDescription::ScanLines => (
                self.layer_size.x as int,
                self.compression.spec_scan_lines_per_block(),
            ),
            BlockDescription::Tiles(t) => (t.tile_size.x as int, t.tile_size.y as int),
        }
    }

    /// How many block columns this layer has.
    pub open spec fn spec_blocks_x(&self) -> int {
        spec_div_ceil(self.layer_size.x as int, self.spec_block_dims().0)
    }

    /// How many block rows this layer has.
    pub open spec fn spec_blocks_y(&self) -> int {
        spec_div_ceil(self.layer_size.y as int, self.spec_block_dims().1)
    }

    /// How many blocks, and therefore chunks, this layer stores.
    pub open spec fn spec_chunk_count(&self) -> int {
        self.spec_blocks_x() * self.spec_blocks_y()
    }

    /// The grid coordinates of the block with index `i` in increasing-y
    /// order: blocks are counted row-major, bottom row first.
    pub open spec fn spec_block_coords(&self, i: int) -> TileCoordinates {
        TileCoordinates {
            tile_index: Vec2 {
                x: (i % self.spec_blocks_x()) as usize,
                y: (i / self.spec_blocks_x()) as usize,
            },
            level_index: Vec2 { x: 0, y: 0 },
        }
    }

    /// Whether `tc` names a block of this layer's grid.
    pub open spec fn spec_coords_valid(&self, tc: TileCoordinates) -> bool {
        &&& tc.level_index.x == 0
        &&& tc.level_index.y == 0
        &&& tc.tile_index.x < self.spec_blocks_x()
        &&& tc.tile_index.y < self.spec_blocks_y()
    }

    /// The pixel rectangle of the block at `tc`, clipped to the layer at the
    /// top and right edges.
    pub open spec fn spec_absolute_bounds(&self, tc: TileCoordinates) -> PixelBounds {
        let (bx, by) = self.spec_block_dims();
        let px = tc.tile_index.x * bx;
        let py = tc.tile_index.y * by;
        PixelBounds {
            position: Vec2 { x: px as usize, y: py as usize },
            size: Vec2 {
                x: (if self.layer_size.x - px < bx {
                    self.layer_size.x - px
                } else {
                    bx
                }) as usize,
                y: (if self.layer_size.y - py < by {
                    self.layer_size.y - py
                } else {
                    by
                }) as usize,
            },
        }
    }

    /// Whether `bnd` is a well-formed block rectangle of this layer: at
    /// least one pixel, no larger than a full block, and inside the layer.
    pub open spec fn spec_bounds_in_layer(&self, bnd: PixelBounds) -> bool {
        &&& 1 <= bnd.size.x <= self.spec_block_dims().0
        &&& 1 <= bnd.size.y <= self.spec_block_dims().1
        &&& bnd.position.x + bnd.size.x <= self.layer_size.x
        &&& bnd.position.y + bnd.size.y <= self.layer_size.y
    }

    /// The rectangle of every block of the grid is well formed.
    pub proof fn lemma_absolute_bounds_in_layer(&self, tc: TileCoordinates)
        requires
            self.valid(),
            self.spec_coords_valid(tc),
        ensures
            self.spec_bounds_in_layer(self.spec_absolute_bounds(tc)),
            0 <= tc.tile_index.x * self.spec_block_dims().0 < self.layer_size.x,
            0 <= tc.tile_index.y * self.spec_block_dims().1 < self.layer_size.y,
    {
        self.lemma_grid_bounds();
        let (bx, by) = self.spec_block_dims();
        assert(tc.tile_index.x * bx + bx <= self.spec_blocks_x() * bx) by (nonlinear_arith)
            requires
                tc.tile_index.x < self.spec_blocks_x(),
                bx >= 1,
        ;
        assert(self.spec_blocks_x() * bx < self.layer_size.x + bx) by (nonlinear_arith)
            requires
                self.spec_blocks_x() == (self.layer_size.x + bx - 1) / bx,
                bx >= 1,
                self.layer_size.x >= 1,
        ;
        assert(tc.tile_index.x * bx < self.layer_size.x);
        assert(tc.tile_index.y * by + by <= self.spec_blocks_y() * by) by (nonlinear_arith)
            requires
                tc.tile_index.y < self.spec_blocks_y(),
                by >= 1,
        ;
        assert(self.spec_blocks_y() * by < self.layer_size.y + by) by (nonlinear_arith)
            requires
                self.spec_blocks_y() == (self.layer_size.y + by - 1) / by,
                by >= 1,
                self.layer_size.y >= 1,
        ;
        assert(tc.tile_index.y * by < self.layer_size.y);
    }

    /// The uncompressed pixel bytes of the whole layer.
    pub open spec fn spec_total_pixel_bytes(&self) -> int {
        self.layer_size.x * self.layer_size.y * self.spec_bytes_per_pixel()
    }

    /// An upper bound on the file bytes this layer's chunks may occupy:
    /// a fixed per-chunk overhead plus twice the uncompressed pixel bytes.
    pub open spec fn spec_max_pixel_file_bytes(&self) -> int {
        64 * self.spec_chunk_count() + 2 * self.spec_total_pixel_bytes()
    }

    /// The byte width of one pixel in this layer.
    pub fn bytes_per_pixel(&self) -> (r: usize)
        requires
            self.valid(),
        ensures
            r == self.spec_bytes_per_pixel(),
            2 <= r <= 1020,
    {
        proof {
            lemma_sum_byte_sizes_bounds(self.channels.channel_types@);
        }
        self.channels.bytes_per_pixel()
    }

    /// The pixel extent of a full block of this layer.
    pub fn max_block_pixel_size(&self) -> (r: Vec2)
        requires
            self.valid(),
        ensures
            r.x == self.spec_block_dims().0,
            r.y == self.spec_block_dims().1,
    {
        match self.blocks {
            BlockDescription::ScanLines => Vec2 {
                x: self.layer_size.x,
                y: self.compression.scan_lines_per_block(),
            },
            BlockDescription::Tiles(t) => t.tile_size,
        }
    }

    /// How many block columns this layer has.
    pub fn blocks_x(&self) -> (r: usize)
        requires
            self.valid(),
        ensures
            r == self.spec_blocks_x(),
            1 <= r <= MAX_LAYER_EXTENT,
    {
        proof {
            self.lemma_grid_bounds();
        }
        let dims = self.max_block_pixel_size();
        (self.layer_size.x + dims.x - 1) / dims.x
    }

    /// How many block rows this layer has.
    pub fn blocks_y(&self) -> (r: usize)
        requires
            self.valid(),
        ensures
            r == self.spec_blocks_y(),
            1 <= r <= MAX_LAYER_EXTENT,
    {
        proof {
            self.lemma_grid_bounds();
        }
        let dims = self.max_block_pixel_size();
        (self.layer_size.y + dims.y - 1) / dims.y
    }

    /// How many blocks, and therefore chunks, this layer stores.
    pub fn chunk_count(&self) -> (r: usize)
        requires
            self.valid(),
        ensures
            r == self.spec_chunk_count(),
            1 <= r <= MAX_CHUNKS_PER_LAYER,
    {
        proof {
            self.lemma_grid_bounds();
        }
        let bx = self.blocks_x();
        let by = self.blocks_y();
        proof {
            assert(1 <= (bx as u64) * (by as u64) <= MAX_LAYER_EXTENT * MAX_LAYER_EXTENT)
                by (nonlinear_arith)
                requires
                    1 <= bx <= MAX_LAYER_EXTENT,
                    1 <= by <= MAX_LAYER_EXTENT,
            ;
        }
        let chunks: u64 = (bx as u64) * (by as u64);
        chunks as usize
    }

    /// The grid coordinates of the block with index `i` in increasing-y order.
    pub fn block_coords(&self, i: usize) -> (r: TileCoordinates)
        requires
            self.valid(),
            i < self.spec_chunk_count(),
        ensures
            r == self.spec_block_coords(i as int),
            self.spec_coords_valid(r),
    {
        proof {
            self.lemma_grid_bounds();
            self.lemma_block_coords_valid(i as int);
        }
        let bx = self.blocks_x();
        TileCoordinates {
            tile_index: Vec2 { x: i % bx, y: i / bx },
            level_index: Vec2 { x: 0, y: 0 },
        }
    }

    /// The pixel rectangle of the block at `tc`, or an error when `tc` does
    /// not name a block of this layer.
    pub fn get_absolute_block_pixel_coordinates(&self, tc: TileCoordinates) -> (r: Result<
        PixelBounds,
        crate::error::Error,
    >)
        requires
            self.valid(),
        ensures
            self.spec_coords_valid(tc) ==> r == Ok::<PixelBounds, crate::error::Error>(
                self.spec_absolute_bounds(tc),
            ),
            !self.spec_coords_valid(tc) ==> (r matches Err(e) && e.is_invalid_with(
                "tile coordinates"@,
            )),
    {
        proof {
            self.lemma_grid_bounds();
        }
        let bx = self.blocks_x();
        let by = self.blocks_y();
        if !(tc.level_index.x == 0 && tc.level_index.y == 0 && tc.tile_index.x < bx
            && tc.tile_index.y < by) {
            return Err(crate::error::Error::Invalid("tile coordinates"));
        }
        let dims = self.max_block_pixel_size();
        proof {
            self.lemma_absolute_bounds_in_layer(tc);
        }
        let px = tc.tile_index.x * dims.x;
        let py = tc.tile_index.y * dims.y;
        let sx = if self.layer_size.x - px < dims.x {
            self.layer_size.x - px
        } else {
            dims.x
        };
        let sy = if self.layer_size.y - py < dims.y {
            self.layer_size.y - py
        } else {
            dims.y
        };
        Ok(PixelBounds { position: Vec2 { x: px, y: py }, size: Vec2 { x: sx, y: sy } })
    }

    /// Every derived grid quantity of a valid header is in range.
    pub proof fn lemma_grid_bounds(&self)
        requires
            self.valid(),
        ensures
            1 <= self.spec_block_dims().0 <= MAX_LAYER_EXTENT,
            1 <= self.spec_block_dims().1 <= MAX_TILE_EXTENT,
            1 <= self.spec_blocks_x() <= MAX_LAYER_EXTENT,
            1 <= self.spec_blocks_y() <= MAX_LAYER_EXTENT,
            1 <= self.spec_chunk_count() <= MAX_CHUNKS_PER_LAYER,
            2 <= self.spec_bytes_per_pixel() <= 1020,
            0 <= self.spec_total_pixel_bytes() <= 0x4000000000000,
            0 <= self.spec_max_pixel_file_bytes() <= 0x10000000000000,
            0 <= self.spec_block_dims().0 * self.spec_block_dims().1 * self.spec_bytes_per_pixel()
                <= MAX_BLOCK_BYTES,
    {
        lemma_sum_byte_sizes_bounds(self.channels.channel_types@);
        let (bx, by) = self.spec_block_dims();
        lemma_div_ceil_bounds(self.layer_size.x as int, bx);
        lemma_div_ceil_bounds(self.layer_size.y as int, by);
        assert(1 <= self.spec_blocks_x() * self.spec_blocks_y() <= MAX_LAYER_EXTENT
            * MAX_LAYER_EXTENT) by (nonlinear_arith)
            requires
                1 <= self.spec_blocks_x() <= MAX_LAYER_EXTENT,
                1 <= self.spec_blocks_y() <= MAX_LAYER_EXTENT,
        ;
        assert(self.spec_total_pixel_bytes() <= 0x4000000000000) by (nonlinear_arith)
            requires
                1 <= self.layer_size.x <= MAX_LAYER_EXTENT,
                1 <= self.layer_size.y <= MAX_LAYER_EXTENT,
                2 <= self.spec_bytes_per_pixel() <= 1020,
        ;
        assert(self.spec_total_pixel_bytes() >= 0) by (nonlinear_arith)
            requires
                1 <= self.layer_size.x,
                1 <= self.layer_size.y,
                2 <= self.spec_bytes_per_pixel(),
        ;
    }

    /// The coordinates of block `i` name a block of the grid.
    pub proof fn lemma_block_coords_valid(&self, i: int)
        requires
            self.valid(),
            0 <= i < self.spec_chunk_count(),
        ensures
            self.spec_coords_valid(self.spec_block_coords(i)),
            self.spec_block_coords(i).tile_index.x == i % self.spec_blocks_x(),
            self.spec_block_coords(i).tile_index.y == i / self.spec_blocks_x(),
    {
        self.lemma_grid_bounds();
        let bx = self.spec_blocks_x();
        let by = self.spec_blocks_y();
        assert(0 <= i % bx < bx && 0 <= i / bx < by) by (nonlinear_arith)
            requires
                0 <= i < bx * by,
                1 <= bx,
                1 <= by,
        ;
    }
}

/// Everything the block pipeline needs to know about a file: its headers.
/// A file is multi-part exactly when it has more than one header.
#[derive(Clone, PartialEq, Eq, Debug)]
pub struct MetaData {
    /// One header per layer, in file order.
    pub headers: Vec<Header>,
}

/// Whether two headers describe the same layer: every field equal, the
/// channel lists compared element by element.
pub open spec fn header_like(a: Header, b: Header) -> bool {
    &&& a.channels.channel_types@ == b.channels.channel_types@
    &&& a.compression == b.compression
    &&& a.line_order == b.line_order
    &&& a.layer_size == b.layer_size
    &&& a.layer_position == b.layer_position
    &&& a.blocks == b.blocks
}

/// Whether two header lists describe the same layers.
pub open spec fn headers_like(a: Seq<Header>, b: Seq<Header>) -> bool {
    &&& a.len() == b.len()
    &&& forall|i: int| 0 <= i < a.len() ==> header_like(#[trigger] a[i], b[i])
}

/// The summed chunk count of `headers`.
pub open spec fn spec_total_chunks(headers: Seq<Header>) -> int
    decreases headers.len(),
{
    if headers.len() == 0 {
        0
    } else {
        spec_total_chunks(headers.drop_last()) + headers.last().spec_chunk_count()
    }
}

/// Structural soundness of a whole header list: each header valid, and
/// the layer and block totals within this library's limits.
pub open spec fn spec_headers_valid(hs: Seq<Header>) -> bool {
    &&& 1 <= hs.len() <= MAX_HEADERS
    &&& forall|i: int| 0 <= i < hs.len() ==> (#[trigger] hs[i]).valid()
    &&& spec_total_chunks(hs) <= MAX_TOTAL_CHUNKS
}

/// Alike headers are valid together and store the same number of blocks.
pub proof fn lemma_header_like_valid(a: Header, b: Header)
    requires
        header_like(a, b),
    ensures
        a.valid() == b.valid(),
        a.spec_chunk_count() == b.spec_chunk_count(),
{
}

/// Alike header lists store the same number of blocks in total.
pub proof fn lemma_headers_like_total(a: Seq<Header>, b: Seq<Header>)
    requires
        headers_like(a, b),
    ensures
        spec_total_chunks(a) == spec_total_chunks(b),
    decreases a.len(),
{
    if a.len() > 0 {
        assert(headers_like(a.drop_last(), b.drop_last()));
        lemma_headers_like_total(a.drop_last(), b.drop_last());
        assert(header_like(a.last(), b.last()));
        lemma_header_like_valid(a.last(), b.last());
    }
}

/// Alike header lists are valid together.
pub proof fn lemma_headers_like_valid(a: Seq<Header>, b: Seq<Header>)
    requires
        headers_like(a, b),
    ensures
        spec_headers_valid(a) == spec_headers_valid(b),
{
    lemma_headers_like_total(a, b);
    assert forall|i: int| 0 <= i < a.len() implies (#[trigger] a[i]).valid() == b[i].valid() by {
        lemma_header_like_valid(a[i], b[i]);
    }
    assert(forall|i: int| 0 <= i < b.len() ==> (#[trigger] b[i]).valid() == a[i].valid());
}

impl MetaData {
    /// Structural soundness of the whole file description.
    pub open spec fn valid(&self) -> bool {
        spec_headers_valid(self.headers@)
    }

    /// A file carries per-chunk layer indices exactly when it is layered.
    pub open spec fn spec_multi_part(&self) -> bool {
        self.headers@.len() > 1
    }

    /// Whether this file stores more than one layer.
    pub fn multi_part(&self) -> (r: bool)
        ensures
            r == self.spec_multi_part(),
    {
        self.headers.len() > 1
    }

    /// Check structural soundness of all headers.
    pub fn is_valid(&self) -> (r: bool)
        ensures
            r == self.valid(),
    {
        let n: usize = self.headers.len();
        if n < 1 || n > MAX_HEADERS {
            return false;
        }
        let mut i: usize = 0;
        let mut total: u64 = 0;
        while i < n
            invariant
                i <= n,
                n <= MAX_HEADERS,
                n == self.headers@.len(),
                forall|j: int| 0 <= j < i ==> (#[trigger] self.headers@[j]).valid(),
                total == spec_total_chunks(self.headers@.take(i as int)),
                total <= i * (MAX_CHUNKS_PER_LAYER as int),
            decreases n - i,
        {
            if !self.headers[i].is_valid() {
                return false;
            }
            proof {
                assert(self.headers@.take(i + 1).drop_last() =~= self.headers@.take(i as int));
                assert(self.headers@.take(i + 1).last() == self.headers@[i as int]);
                self.headers@[i as int].lemma_grid_bounds();
            }
            total = total + self.headers[i].chunk_count() as u64;
            i = i + 1;
        }
        proof {
            assert(self.headers@.take(n as int) =~= self.headers@);
        }
        total <= MAX_TOTAL_CHUNKS as u64
    }

    /// The summed chunk count of all headers.
    pub fn total_chunk_count(&self) -> (r: usize)
        requires
            self.valid(),
        ensures
            r == spec_total_chunks(self.headers@),
            r <= MAX_TOTAL_CHUNKS,
    {
        proof {
            lemma_total_chunks_bounds(self.headers@);
        }
        let n: usize = self.headers.len();
        let mut sum: usize = 0;
        let mut i: usize = 0;
        while i < n
            invariant
                i <= n,
                n == self.headers@.len(),
                self.valid(),
                sum == spec_total_chunks(self.headers@.take(i as int)),
                0 <= spec_total_chunks(self.headers@.take(i as int)),
                sum <= MAX_TOTAL_CHUNKS,
            decreases n - i,
        {
            proof {
                assert(self.headers@.take(i + 1).drop_last() =~= self.headers@.take(i as int));
                assert(self.headers@.take(i + 1).last() == self.headers@[i as int]);
                self.headers@[i as int].lemma_grid_bounds();
                lemma_total_chunks_bounds(self.headers@.take(i + 1));
                lemma_total_chunks_prefix(self.headers@, i + 1);
            }
            sum = sum + self.headers[i].chunk_count();
            i = i + 1;
        }
        proof {
            assert(self.headers@.take(n as int) =~= self.headers@);
        }
        sum
    }
}

/// The summed chunk count of valid headers is bounded by the header count
/// times the largest per-layer chunk count, and is never negative.
pub proof fn lemma_total_chunks_bounds(headers: Seq<Header>)
    requires
        forall|i: int| 0 <= i < headers.len() ==> (#[trigger] headers[i]).valid(),
    ensures
        0 <= spec_total_chunks(headers) <= headers.len() * (MAX_CHUNKS_PER_LAYER as int),
    decreases headers.len(),
{
    if headers.len() == 0 {
    } else {
        lemma_total_chunks_bounds(headers.drop_last());
        headers.last().lemma_grid_bounds();
        assert(headers.drop_last().len() * (MAX_CHUNKS_PER_LAYER as int) + (
        MAX_CHUNKS_PER_LAYER as int) == headers.len() * (MAX_CHUNKS_PER_LAYER as int))
            by (nonlinear_arith)
            requires
                headers.len() >= 1,
                headers.drop_last().len() == headers.len() - 1,
        ;
    }
}

/// Prefix sums of chunk counts grow with the prefix.
pub proof fn lemma_total_chunks_take_monotone(hs: Seq<Header>, i: int, j: int)
    requires
        forall|k: int| 0 <= k < hs.len() ==> (#[trigger] hs[k]).valid(),
        0 <= i <= j <= hs.len(),
    ensures
        spec_total_chunks(hs.take(i)) <= spec_total_chunks(hs.take(j)),
    decreases j - i,
{
    if i < j {
        lemma_total_chunks_take_monotone(hs, i + 1, j);
        assert(hs.take(i + 1).drop_last() =~= hs.take(i));
        assert(hs.take(i + 1).last() == hs[i]);
        hs[i].lemma_grid_bounds();
    }
}

/// Each prefix of a valid header list keeps its summed chunk count at or
/// below the sum over the whole list.
pub proof fn lemma_total_chunks_prefix(headers: Seq<Header>, i: int)
    requires
        forall|k: int| 0 <= k < headers.len() ==> (#[trigger] headers[k]).valid(),
        0 <= i <= headers.len(),
    ensures
        spec_total_chunks(headers.take(i)) <= spec_total_chunks(headers),
    decreases headers.len() - i,
{
    if i == headers.len() {
        assert(headers.take(i) =~= headers);
    } else {
        lemma_total_chunks_prefix(headers, i + 1);
        assert(headers.take(i + 1).drop_last() =~= headers.take(i));
        assert(headers.take(i + 1).last() == headers[i]);
        headers[i].lemma_grid_bounds();
    }
}

} // verus!
