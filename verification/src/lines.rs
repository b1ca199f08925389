//! Lines of samples within an uncompressed block.
//!
//! A block's bytes hold, for each scan line from the bottom up, one
//! contiguous run per channel. A line is one channel's run of one scan
//! line; blocks can be taken apart into lines and assembled from them.

use vstd::prelude::*;

use crate::block::{BlockIndex, UncompressedBlock};
use crate::error::Error;
use crate::math::Vec2;
use crate::meta::{spec_sum_byte_sizes, ChannelList, SampleType, MAX_CHANNELS};

verus! {

/// Where one line of samples belongs in the image.
#[derive(Clone, Copy, PartialEq, Eq, Structural, Debug)]
pub struct LineIndex {
    /// Index of the layer.
    pub layer: usize,
    /// Index of the channel within the layer's channel list.
    pub channel: usize,
    /// The position of the line's first pixel within the layer.
    pub position: Vec2,
    /// The mip/rip level of the block the line belongs to.
    pub level: Vec2,
    /// How many samples the line holds: the block's pixel width.
    pub sample_count: usize,
}

/// Whether a block's extent and channel list are small enough that every
/// line offset fits comfortably in a machine word; every block of a
/// structurally sound header satisfies this.
pub open spec fn spec_lines_arith_ok(index: BlockIndex, channels: Seq<SampleType>) -> bool {
    &&& 1 <= channels.len() <= MAX_CHANNELS
    &&& index.pixel_size.x <= crate::meta::MAX_LAYER_EXTENT
    &&& index.pixel_size.y <= crate::meta::MAX_TILE_EXTENT
    &&& index.pixel_position.x <= crate::meta::MAX_LAYER_EXTENT
    &&& index.pixel_position.y <= crate::meta::MAX_LAYER_EXTENT
}

/// The flat index of the line of channel `c` in scan line `y`.
pub open spec fn spec_line_slot(channels: Seq<SampleType>, y: int, c: int) -> int {
    y * channels.len() + c
}

/// The byte offset of the line of channel `c` in scan line `y` of a block
/// `width` pixels wide.
pub open spec fn spec_line_start(channels: Seq<SampleType>, width: int, y: int, c: int) -> int {
    y * (width * spec_sum_byte_sizes(channels)) + width * spec_sum_byte_sizes(channels.take(c))
}

/// The byte length of one line of channel `c`.
pub open spec fn spec_line_len(channels: Seq<SampleType>, width: int, c: int) -> int {
    width * channels[c].spec_byte_size()
}

/// Whether `rows` holds exactly one byte row per line of the block, each
/// of its line's exact length.
pub open spec fn spec_rows_sized(
    rows: Seq<Vec<u8>>,
    index: BlockIndex,
    channels: Seq<SampleType>,
) -> bool {
    &&& rows.len() == index.pixel_size.y * channels.len()
    &&& forall|y: int, c: int|
        #![trigger rows[spec_line_slot(channels, y, c)]]
        0 <= y < index.pixel_size.y && 0 <= c < channels.len() ==> rows[spec_line_slot(
            channels,
            y,
            c,
        )]@.len() == spec_line_len(channels, index.pixel_size.x as int, c)
}

/// A prefix of the channel byte sum never exceeds the whole sum.
proof fn lemma_prefix_sum_le(channels: Seq<SampleType>, c: int)
    requires
        0 <= c <= channels.len(),
    ensures
        spec_sum_byte_sizes(channels.take(c)) <= spec_sum_byte_sizes(channels),
    decreases channels.len() - c,
{
    if c == channels.len() {
        assert(channels.take(c) =~= channels);
    } else {
        lemma_prefix_sum_le(channels, c + 1);
        assert(channels.take(c + 1).drop_last() =~= channels.take(c));
        assert(channels.take(c + 1).last() == channels[c]);
    }
}

/// Every line of a well-sized block lies within the block's bytes.
pub proof fn lemma_line_in_block(index: BlockIndex, channels: Seq<SampleType>, y: int, c: int)
    requires
        spec_lines_arith_ok(index, channels),
        0 <= y < index.pixel_size.y,
        0 <= c < channels.len(),
    ensures
        0 <= spec_line_start(channels, index.pixel_size.x as int, y, c),
        spec_line_start(channels, index.pixel_size.x as int, y, c) + spec_line_len(
            channels,
            index.pixel_size.x as int,
            c,
        ) <= index.pixel_size.x * index.pixel_size.y * spec_sum_byte_sizes(channels),
        0 <= spec_line_len(channels, index.pixel_size.x as int, c) <= 4 * index.pixel_size.x,
{
    let w = index.pixel_size.x as int;
    let bpp = spec_sum_byte_sizes(channels);
    crate::meta::lemma_sum_byte_sizes_bounds(channels);
    crate::meta::lemma_sum_byte_sizes_bounds(channels.take(c));
    crate::meta::lemma_sum_byte_sizes_bounds(channels.take(c + 1));
    assert(channels.take(c + 1).drop_last() =~= channels.take(c));
    assert(channels.take(c + 1).last() == channels[c]);
    lemma_prefix_sum_le(channels, c + 1);
    assert(spec_sum_byte_sizes(channels.take(c)) + channels[c].spec_byte_size() <= bpp);
    assert(y * (w * bpp) + w * (spec_sum_byte_sizes(channels.take(c))
        + channels[c].spec_byte_size()) <= w * index.pixel_size.y * bpp) by (nonlinear_arith)
        requires
            0 <= y < index.pixel_size.y,
            0 <= w,
            0 <= bpp,
            0 <= spec_sum_byte_sizes(channels.take(c)),
            spec_sum_byte_sizes(channels.take(c)) + channels[c].spec_byte_size() <= bpp,
            0 <= channels[c].spec_byte_size(),
    ;
    assert(w * (spec_sum_byte_sizes(channels.take(c)) + channels[c].spec_byte_size()) == w
        * spec_sum_byte_sizes(channels.take(c)) + w * channels[c].spec_byte_size())
        by (nonlinear_arith);
    assert(y * (w * bpp) >= 0) by (nonlinear_arith)
        requires
            y >= 0,
            w >= 0,
            bpp >= 0,
    ;
    assert(w * spec_sum_byte_sizes(channels.take(c)) >= 0) by (nonlinear_arith)
        requires
            w >= 0,
            spec_sum_byte_sizes(channels.take(c)) >= 0,
    ;
    assert(w * channels[c].spec_byte_size() <= 4 * w) by (nonlinear_arith)
        requires
            w >= 0,
            0 <= channels[c].spec_byte_size() <= 4,
    ;
    assert(w * channels[c].spec_byte_size() >= 0) by (nonlinear_arith)
        requires
            w >= 0,
            channels[c].spec_byte_size() >= 0,
    ;
    assert(w * index.pixel_size.y * bpp == index.pixel_size.x * index.pixel_size.y * bpp)
        by (nonlinear_arith)
        requires
            w == index.pixel_size.x,
    ;
}

/// A flat line slot splits back into its scan line and channel.
proof fn lemma_slot_decompose(y: int, c: int, n: int)
    by (nonlinear_arith)
    requires
        0 <= c < n,
        0 <= y,
    ensures
        (y * n + c) % n == c,
        (y * n + c) / n == y,
{
}

/// Earlier lines have smaller flat slots.
proof fn lemma_slot_lt(y1: int, c1: int, y2: int, c2: int, n: int)
    by (nonlinear_arith)
    requires
        0 <= c1 < n,
        0 <= c2 < n,
        0 <= y1,
        0 <= y2,
        y1 < y2 || (y1 == y2 && c1 < c2),
    ensures
        y1 * n + c1 < y2 * n + c2,
{
}

impl UncompressedBlock {
    /// Take the block apart into its lines: scan line by scan line from
    /// the bottom, channel by channel within each, each line's exact
    /// bytes copied out together with where they belong.
    #[verifier::loop_isolation(false)]
    #[verifier::rlimit(100)]
    pub fn lines(&self, channels: &ChannelList) -> (r: Vec<(LineIndex, Vec<u8>)>)
        requires
            spec_lines_arith_ok(self.index, channels.channel_types@),
            self.data@.len() == self.index.pixel_size.x * self.index.pixel_size.y
                * channels.spec_bytes_per_pixel(),
        ensures
            r@.len() == self.index.pixel_size.y * channels.channel_types@.len(),
            forall|k: int|
                0 <= k < r@.len() ==> {
                    let n = channels.channel_types@.len() as int;
                    &&& (#[trigger] r@[k]).0.layer == self.index.layer
                    &&& r@[k].0.channel == k % n
                    &&& r@[k].0.position.x == self.index.pixel_position.x
                    &&& r@[k].0.position.y == self.index.pixel_position.y + k / n
                    &&& r@[k].0.level == self.index.level
                    &&& r@[k].0.sample_count == self.index.pixel_size.x
                },
            forall|y: int, c: int|
                #![trigger r@[spec_line_slot(channels.channel_types@, y, c)]]
                0 <= y < self.index.pixel_size.y && 0 <= c < channels.channel_types@.len() ==> r@[
                    spec_line_slot(channels.channel_types@, y, c)
                ].1@ == self.data@.subrange(
                    spec_line_start(channels.channel_types@, self.index.pixel_size.x as int, y, c),
                    spec_line_start(channels.channel_types@, self.index.pixel_size.x as int, y, c)
                        + spec_line_len(
                        channels.channel_types@,
                        self.index.pixel_size.x as int,
                        c,
                    ),
                ),
    {
        let ghost ch = channels.channel_types@;
        let n: usize = channels.channel_types.len();
        let w: usize = self.index.pixel_size.x;
        let rows: usize = self.index.pixel_size.y;
        let dlen: usize = self.data.len();
        proof {
            crate::meta::lemma_sum_byte_sizes_bounds(ch);
            assert(ch.take(0) =~= Seq::<SampleType>::empty());
        }
        let mut out: Vec<(LineIndex, Vec<u8>)> = Vec::new();
        let mut offset: usize = 0;
        let mut y: usize = 0;
        while y < rows
            invariant
                y <= rows,
                out@.len() == y * n,
                offset == spec_line_start(ch, w as int, y as int, 0),
                offset <= dlen,
                forall|k: int|
                    0 <= k < out@.len() ==> {
                        &&& (#[trigger] out@[k]).0.layer == self.index.layer
                        &&& out@[k].0.channel == k % n as int
                        &&& out@[k].0.position.x == self.index.pixel_position.x
                        &&& out@[k].0.position.y == self.index.pixel_position.y + k / n as int
                        &&& out@[k].0.level == self.index.level
                        &&& out@[k].0.sample_count == self.index.pixel_size.x
                    },
                forall|yy: int, cc: int|
                    #![trigger out@[spec_line_slot(ch, yy, cc)]]
                    0 <= yy < y && 0 <= cc < n ==> out@[spec_line_slot(ch, yy, cc)].1@
                        == self.data@.subrange(
                        spec_line_start(ch, w as int, yy, cc),
                        spec_line_start(ch, w as int, yy, cc) + spec_line_len(ch, w as int, cc),
                    ),
            decreases rows - y,
        {
            let mut c: usize = 0;
            while c < n
                invariant
                    y < rows,
                    c <= n,
                    out@.len() == y * n + c,
                    offset == spec_line_start(ch, w as int, y as int, c as int),
                    offset <= dlen,
                    forall|k: int|
                        0 <= k < out@.len() ==> {
                            &&& (#[trigger] out@[k]).0.layer == self.index.layer
                            &&& out@[k].0.channel == k % n as int
                            &&& out@[k].0.position.x == self.index.pixel_position.x
                            &&& out@[k].0.position.y == self.index.pixel_position.y + k
                                / n as int
                            &&& out@[k].0.level == self.index.level
                            &&& out@[k].0.sample_count == self.index.pixel_size.x
                        },
                    forall|yy: int, cc: int|
                        #![trigger out@[spec_line_slot(ch, yy, cc)]]
                        (0 <= yy < y && 0 <= cc < n) || (yy == y && 0 <= cc < c) ==> out@[
                            spec_line_slot(ch, yy, cc)
                        ].1@ == self.data@.subrange(
                            spec_line_start(ch, w as int, yy, cc),
                            spec_line_start(ch, w as int, yy, cc) + spec_line_len(
                                ch,
                                w as int,
                                cc,
                            ),
                        ),
                decreases n - c,
            {
                proof {
                    lemma_line_in_block(self.index, ch, y as int, c as int);
                }
                let len: usize = w * channels.channel_types[c].byte_size();
                let mut value: Vec<u8> = Vec::new();
                let mut k: usize = 0;
                while k < len
                    invariant
                        k <= len,
                        offset + len <= dlen,
                        value@ == self.data@.subrange(offset as int, offset + k),
                    decreases len - k,
                {
                    value.push(self.data[offset + k]);
                    k = k + 1;
                    proof {
                        assert(value@ =~= self.data@.subrange(offset as int, offset + k));
                    }
                }
                let line = LineIndex {
                    layer: self.index.layer,
                    channel: c,
                    position: Vec2 {
                        x: self.index.pixel_position.x,
                        y: self.index.pixel_position.y + y,
                    },
                    level: self.index.level,
                    sample_count: w,
                };
                out.push((line, value));
                offset = offset + len;
                c = c + 1;
                proof {
                    assert(ch.take(c as int).drop_last() =~= ch.take(c - 1));
                    assert(ch.take(c as int).last() == ch[c - 1]);
                    assert(w * (spec_sum_byte_sizes(ch.take(c - 1)) + ch[c
                        - 1].spec_byte_size()) == w * spec_sum_byte_sizes(ch.take(c - 1)) + w
                        * ch[c - 1].spec_byte_size()) by (nonlinear_arith);
                    assert forall|k: int| 0 <= k < out@.len() implies {
                        &&& (#[trigger] out@[k]).0.layer == self.index.layer
                        &&& out@[k].0.channel == k % n as int
                        &&& out@[k].0.position.x == self.index.pixel_position.x
                        &&& out@[k].0.position.y == self.index.pixel_position.y + k / n as int
                        &&& out@[k].0.level == self.index.level
                        &&& out@[k].0.sample_count == self.index.pixel_size.x
                    } by {
                        if k == out@.len() - 1 {
                            assert(k == y * (n as int) + (c - 1));
                            lemma_slot_decompose(y as int, c - 1, n as int);
                        }
                    }
                    assert forall|yy: int, cc: int|
                        #![trigger out@[spec_line_slot(ch, yy, cc)]]
                        (0 <= yy < y && 0 <= cc < n) || (yy == y && 0 <= cc < c) implies out@[
                        spec_line_slot(ch, yy, cc)
                    ].1@ == self.data@.subrange(
                        spec_line_start(ch, w as int, yy, cc),
                        spec_line_start(ch, w as int, yy, cc) + spec_line_len(ch, w as int, cc),
                    ) by {
                        if yy == y && cc == c - 1 {
                            assert(spec_line_slot(ch, yy, cc) == out@.len() - 1);
                        } else {
                            lemma_slot_lt(yy, cc, y as int, c - 1, n as int);
                            assert(out@[spec_line_slot(ch, yy, cc)] == out@.drop_last()[
                                spec_line_slot(ch, yy, cc)
                            ]);
                        }
                    }
                }
            }
            y = y + 1;
            proof {
                assert(ch.take(n as int) =~= ch);
                assert((y - 1) * (w as int * spec_sum_byte_sizes(ch)) + w
                    * spec_sum_byte_sizes(ch) == y * (w as int * spec_sum_byte_sizes(ch)))
                    by (nonlinear_arith);
                assert((y - 1) * n + n == y * n) by (nonlinear_arith);
                assert(ch.take(0) =~= Seq::<SampleType>::empty());
                if y < rows {
                    lemma_line_in_block(self.index, ch, y as int, 0);
                }
            }
        }
        out
    }

    /// Assemble a block's byte buffer from one byte row per line, in the
    /// order `lines` produces them: scan line by scan line, channel by
    /// channel. The assembly succeeds exactly when there is one row per
    /// line and each row holds its line's exact byte count, and then the
    /// buffer holds each row at its line's byte range.
    #[verifier::loop_isolation(false)]
    #[verifier::rlimit(100)]
    pub fn collect_block_data_from_lines(
        channels: &ChannelList,
        block_index: BlockIndex,
        line_values: &Vec<Vec<u8>>,
    ) -> (r: Result<Vec<u8>, Error>)
        requires
            spec_lines_arith_ok(block_index, channels.channel_types@),
        ensures
            r is Ok <==> spec_rows_sized(line_values@, block_index, channels.channel_types@),
            r matches Ok(d) ==> (d@.len() == block_index.pixel_size.x * block_index.pixel_size.y
                * channels.spec_bytes_per_pixel() && (forall|y: int, c: int|
                #![trigger line_values@[spec_line_slot(channels.channel_types@, y, c)]]
                0 <= y < block_index.pixel_size.y && 0 <= c < channels.channel_types@.len()
                    ==> d@.subrange(
                    spec_line_start(
                        channels.channel_types@,
                        block_index.pixel_size.x as int,
                        y,
                        c,
                    ),
                    spec_line_start(channels.channel_types@, block_index.pixel_size.x as int, y, c)
                        + spec_line_len(
                        channels.channel_types@,
                        block_index.pixel_size.x as int,
                        c,
                    ),
                ) == line_values@[spec_line_slot(channels.channel_types@, y, c)]@)),
            r matches Err(e) ==> e.is_invalid_with("line byte count"@),
    {
        let ghost ch = channels.channel_types@;
        let n: usize = channels.channel_types.len();
        let w: usize = block_index.pixel_size.x;
        let rows: usize = block_index.pixel_size.y;
        proof {
            crate::meta::lemma_sum_byte_sizes_bounds(ch);
            assert(rows * n <= crate::meta::MAX_TILE_EXTENT * MAX_CHANNELS) by (nonlinear_arith)
                requires
                    rows <= crate::meta::MAX_TILE_EXTENT,
                    n <= MAX_CHANNELS,
            ;
            assert(ch.take(0) =~= Seq::<SampleType>::empty());
        }
        if line_values.len() != rows * n {
            return Err(Error::Invalid("line byte count"));
        }
        let mut out: Vec<u8> = Vec::new();
        let mut y: usize = 0;
        while y < rows
            invariant
                y <= rows,
                line_values@.len() == rows * n,
                out@.len() == spec_line_start(ch, w as int, y as int, 0),
                forall|yy: int, cc: int|
                    #![trigger line_values@[spec_line_slot(ch, yy, cc)]]
                    0 <= yy < y && 0 <= cc < n ==> (line_values@[spec_line_slot(ch, yy, cc)]@.len()
                        == spec_line_len(ch, w as int, cc) && out@.subrange(
                        spec_line_start(ch, w as int, yy, cc),
                        spec_line_start(ch, w as int, yy, cc) + spec_line_len(ch, w as int, cc),
                    ) == line_values@[spec_line_slot(ch, yy, cc)]@),
            decreases rows - y,
        {
            let mut c: usize = 0;
            proof {
                assert(ch.take(0) =~= Seq::<SampleType>::empty());
            }
            while c < n
                invariant
                    y < rows,
                    c <= n,
                    line_values@.len() == rows * n,
                    out@.len() == spec_line_start(ch, w as int, y as int, c as int),
                    forall|yy: int, cc: int|
                        #![trigger line_values@[spec_line_slot(ch, yy, cc)]]
                        (0 <= yy < y && 0 <= cc < n) || (yy == y && 0 <= cc < c) ==> (line_values@[
                            spec_line_slot(ch, yy, cc)
                        ]@.len() == spec_line_len(ch, w as int, cc) && out@.subrange(
                            spec_line_start(ch, w as int, yy, cc),
                            spec_line_start(ch, w as int, yy, cc) + spec_line_len(
                                ch,
                                w as int,
                                cc,
                            ),
                        ) == line_values@[spec_line_slot(ch, yy, cc)]@),
                decreases n - c,
            {
                proof {
                    lemma_line_in_block(block_index, ch, y as int, c as int);
                    assert(0 <= y * (n as int) + c < rows * n) by (nonlinear_arith)
                        requires
                            0 <= y < rows,
                            0 <= c < n,
                    ;
                }
                let len: usize = w * channels.channel_types[c].byte_size();
                let row = &line_values[y * n + c];
                if row.len() != len {
                    proof {
                        assert(!spec_rows_sized(line_values@, block_index, ch)) by {
                            assert(line_values@[spec_line_slot(ch, y as int, c as int)]@.len()
                                != spec_line_len(ch, w as int, c as int));
                        }
                    }
                    return Err(Error::Invalid("line byte count"));
                }
                let ghost out_before = out@;
                let mut k: usize = 0;
                while k < len
                    invariant
                        k <= len,
                        len == row@.len(),
                        out@ == out_before + row@.subrange(0, k as int),
                    decreases len - k,
                {
                    out.push(row[k]);
                    k = k + 1;
                    proof {
                        assert(out@ =~= out_before + row@.subrange(0, k as int));
                    }
                }
                c = c + 1;
                proof {
                    assert(row@.subrange(0, len as int) =~= row@);
                    assert(ch.take(c as int).drop_last() =~= ch.take(c - 1));
                    assert(ch.take(c as int).last() == ch[c - 1]);
                    assert(w * (spec_sum_byte_sizes(ch.take(c - 1)) + ch[c
                        - 1].spec_byte_size()) == w * spec_sum_byte_sizes(ch.take(c - 1)) + w
                        * ch[c - 1].spec_byte_size()) by (nonlinear_arith);
                    assert forall|yy: int, cc: int|
                        #![trigger line_values@[spec_line_slot(ch, yy, cc)]]
                        (0 <= yy < y && 0 <= cc < n) || (yy == y && 0 <= cc < c) implies (
                    line_values@[spec_line_slot(ch, yy, cc)]@.len() == spec_line_len(
                        ch,
                        w as int,
                        cc,
                    ) && out@.subrange(
                        spec_line_start(ch, w as int, yy, cc),
                        spec_line_start(ch, w as int, yy, cc) + spec_line_len(ch, w as int, cc),
                    ) == line_values@[spec_line_slot(ch, yy, cc)]@) by {
                        lemma_line_in_block(block_index, ch, yy, cc);
                        let start = spec_line_start(ch, w as int, yy, cc);
                        let llen = spec_line_len(ch, w as int, cc);
                        if yy == y && cc == c - 1 {
                            assert(start == out_before.len());
                            assert(out@.subrange(start, start + llen) =~= row@);
                        } else {
                            lemma_line_starts_ordered(ch, w as int, yy, cc, y as int, c - 1);
                            assert(out@.subrange(start, start + llen) =~= out_before.subrange(
                                start,
                                start + llen,
                            ));
                        }
                    }
                }
            }
            y = y + 1;
            proof {
                assert(ch.take(n as int) =~= ch);
                assert((y - 1) * (w as int * spec_sum_byte_sizes(ch)) + w
                    * spec_sum_byte_sizes(ch) == y * (w as int * spec_sum_byte_sizes(ch)))
                    by (nonlinear_arith);
                assert(ch.take(0) =~= Seq::<SampleType>::empty());
            }
        }
        proof {
            assert(rows * (w as int * spec_sum_byte_sizes(ch)) == w * rows
                * spec_sum_byte_sizes(ch)) by (nonlinear_arith);
            assert(spec_rows_sized(line_values@, block_index, ch));
        }
        Ok(out)
    }

    /// Assemble a whole block from one byte row per line; succeeds exactly
    /// when the rows fit the block's lines, and then the block carries
    /// each row at its line's byte range.
    pub fn from_lines(
        channels: &ChannelList,
        block_index: BlockIndex,
        line_values: &Vec<Vec<u8>>,
    ) -> (r: Result<UncompressedBlock, Error>)
        requires
            spec_lines_arith_ok(block_index, channels.channel_types@),
        ensures
            r is Ok <==> spec_rows_sized(line_values@, block_index, channels.channel_types@),
            r matches Ok(b) ==> (b.index == block_index && b.data@.len()
                == block_index.pixel_size.x * block_index.pixel_size.y
                * channels.spec_bytes_per_pixel() && (forall|y: int, c: int|
                #![trigger line_values@[spec_line_slot(channels.channel_types@, y, c)]]
                0 <= y < block_index.pixel_size.y && 0 <= c < channels.channel_types@.len()
                    ==> b.data@.subrange(
                    spec_line_start(
                        channels.channel_types@,
                        block_index.pixel_size.x as int,
                        y,
                        c,
                    ),
                    spec_line_start(channels.channel_types@, block_index.pixel_size.x as int, y, c)
                        + spec_line_len(
                        channels.channel_types@,
                        block_index.pixel_size.x as int,
                        c,
                    ),
                ) == line_values@[spec_line_slot(channels.channel_types@, y, c)]@)),
            r matches Err(e) ==> e.is_invalid_with("line byte count"@),
    {
        match Self::collect_block_data_from_lines(channels, block_index, line_values) {
            Ok(data) => Ok(UncompressedBlock { index: block_index, data }),
            Err(e) => Err(e),
        }
    }
}

/// An earlier line ends at or before a later line begins.
proof fn lemma_line_starts_ordered(
    channels: Seq<SampleType>,
    w: int,
    y1: int,
    c1: int,
    y2: int,
    c2: int,
)
    requires
        0 <= c1 < channels.len(),
        0 <= c2 < channels.len(),
        0 <= y1,
        0 <= y2,
        w >= 0,
        y1 < y2 || (y1 == y2 && c1 < c2),
    ensures
        spec_line_start(channels, w, y1, c1) + spec_line_len(channels, w, c1) <= spec_line_start(
            channels,
            w,
            y2,
            c2,
        ),
{
    let bpp = spec_sum_byte_sizes(channels);
    crate::meta::lemma_sum_byte_sizes_bounds(channels);
    crate::meta::lemma_sum_byte_sizes_bounds(channels.take(c1));
    crate::meta::lemma_sum_byte_sizes_bounds(channels.take(c1 + 1));
    crate::meta::lemma_sum_byte_sizes_bounds(channels.take(c2));
    assert(channels.take(c1 + 1).drop_last() =~= channels.take(c1));
    assert(channels.take(c1 + 1).last() == channels[c1]);
    assert(w * (spec_sum_byte_sizes(channels.take(c1)) + channels[c1].spec_byte_size()) == w
        * spec_sum_byte_sizes(channels.take(c1)) + w * channels[c1].spec_byte_size())
        by (nonlinear_arith);
    if y1 == y2 {
        lemma_prefix_sum_c(channels, c1 + 1, c2);
        assert(w * spec_sum_byte_sizes(channels.take(c1 + 1)) <= w * spec_sum_byte_sizes(
            channels.take(c2),
        )) by (nonlinear_arith)
            requires
                w >= 0,
                spec_sum_byte_sizes(channels.take(c1 + 1)) <= spec_sum_byte_sizes(
                    channels.take(c2),
                ),
        ;
    } else {
        lemma_prefix_sum_le(channels, c1 + 1);
        assert(y1 * (w * bpp) + w * spec_sum_byte_sizes(channels.take(c1 + 1)) <= y2 * (w * bpp)
            + w * spec_sum_byte_sizes(channels.take(c2))) by (nonlinear_arith)
            requires
                y1 < y2,
                w >= 0,
                bpp >= 0,
                0 <= spec_sum_byte_sizes(channels.take(c1 + 1)) <= bpp,
                0 <= spec_sum_byte_sizes(channels.take(c2)),
        ;
    }
}

/// Channel prefix sums grow with the prefix.
proof fn lemma_prefix_sum_c(channels: Seq<SampleType>, a: int, b: int)
    requires
        0 <= a <= b <= channels.len(),
    ensures
        spec_sum_byte_sizes(channels.take(a)) <= spec_sum_byte_sizes(channels.take(b)),
    decreases b - a,
{
    if a < b {
        lemma_prefix_sum_c(channels, a + 1, b);
        assert(channels.take(a + 1).drop_last() =~= channels.take(a));
        assert(channels.take(a + 1).last() == channels[a]);
    }
}

} // verus!
