use exr_blocks::block::{BlockIndex, UncompressedBlock};
use exr_blocks::blocks::{enumerate_ordered_header_block_indices, BlocksWriter};
use exr_blocks::chunk::{Block, Chunk};
use exr_blocks::decompress::{decompress_parallel, decompress_sequential};
use exr_blocks::error::Error;
use exr_blocks::math::Vec2;
use exr_blocks::meta::{
    BlockDescription, ChannelList, Compression, Header, LineOrder, MetaData, SampleType,
    TileDescription,
};
use exr_blocks::meta_io::encode_meta_data;
use exr_blocks::reader::{ChunksReader, OnProgressChunksReader, ProgressSink, Reader};
use exr_blocks::write::{write_chunks_with, ChunkWriter};

fn header(
    w: usize,
    h: usize,
    channels: Vec<SampleType>,
    compression: Compression,
    line_order: LineOrder,
    blocks: BlockDescription,
) -> Header {
    Header {
        channels: ChannelList { channel_types: channels },
        compression,
        line_order,
        layer_size: Vec2 { x: w, y: h },
        layer_position: Vec2 { x: 0, y: 0 },
        blocks,
    }
}

fn rgba_f32() -> Vec<SampleType> {
    vec![SampleType::F32, SampleType::F32, SampleType::F32, SampleType::F32]
}

fn bytes_per_pixel(channels: &[SampleType]) -> usize {
    channels
        .iter()
        .map(|c| match c {
            SampleType::F16 => 2,
            _ => 4,
        })
        .sum()
}

/// Deterministic filler bytes for a block, varying with its location.
fn filler_data(index: &BlockIndex, bpp: usize, seed: u8) -> Vec<u8> {
    let len = index.pixel_size.x * index.pixel_size.y * bpp;
    (0..len)
        .map(|i| {
            (i as u8)
                .wrapping_mul(31)
                .wrapping_add(seed)
                .wrapping_add(index.pixel_position.y as u8)
        })
        .collect()
}

/// Write a whole file from deterministic filler blocks.
fn write_filler_file(headers: Vec<Header>, seed: u8) -> Vec<u8> {
    let enumerated = enumerate_ordered_header_block_indices(&headers);
    let (meta, writer) = ChunkWriter::new_for_buffered(headers.clone(), true).unwrap();
    let mut blocks = Vec::new();
    for (j, index) in enumerated {
        let bpp = bytes_per_pixel(&headers[index.layer].channels.channel_types);
        let data = filler_data(&index, bpp, seed);
        blocks.push((j, UncompressedBlock { index, data }));
    }
    let bw = BlocksWriter::new(meta, writer);
    let bw = bw.compress_all_blocks_sequential(blocks).unwrap();
    bw.into_chunks_writer().complete_meta_data().unwrap()
}

fn scanline_rgba_4x4() -> Header {
    header(
        4,
        4,
        rgba_f32(),
        Compression::Uncompressed,
        LineOrder::Increasing,
        BlockDescription::ScanLines,
    )
}

/// Build the pixel rows of the minimal scan-line image: pixel `i` holds
/// `(i, -i, 2i, 0.5)`.
fn minimal_scanline_blocks() -> Vec<(usize, UncompressedBlock)> {
    let mut blocks = Vec::new();
    for y in 0..4usize {
        let mut data = Vec::new();
        for channel in 0..4usize {
            for x in 0..4usize {
                let i = (y * 4 + x) as f32;
                let v: f32 = match channel {
                    0 => i,
                    1 => -i,
                    2 => 2.0 * i,
                    _ => 0.5,
                };
                data.extend_from_slice(&v.to_le_bytes());
            }
        }
        let index = BlockIndex {
            layer: 0,
            pixel_position: Vec2 { x: 0, y },
            pixel_size: Vec2 { x: 4, y: 1 },
            level: Vec2 { x: 0, y: 0 },
        };
        blocks.push((y, UncompressedBlock { index, data }));
    }
    blocks
}

fn read_u64_le_at(bytes: &[u8], pos: usize) -> u64 {
    let mut v: u64 = 0;
    for k in (0..8).rev() {
        v = (v << 8) | bytes[pos + k] as u64;
    }
    v
}

#[test]
fn minimal_scanline_round_trip() {
    let h = scanline_rgba_4x4();
    let blocks = minimal_scanline_blocks();
    let (meta, writer) = ChunkWriter::new_for_buffered(vec![h.clone()], true).unwrap();
    let bw = BlocksWriter::new(meta, writer);
    let bw = bw.compress_all_blocks_sequential(blocks.clone()).unwrap();
    let bytes = bw.into_chunks_writer().complete_meta_data().unwrap();

    // the first offset-table slot points right behind the table itself
    let meta_len = encode_meta_data(&MetaData { headers: vec![h.clone()] }).len();
    let first_slot = read_u64_le_at(&bytes, meta_len);
    assert_eq!(first_slot, (meta_len + 4 * 8) as u64);

    // read -> compare metadata and every pixel
    let reader = Reader::read_from_buffered(bytes, true).unwrap();
    assert_eq!(reader.meta_data().headers, vec![h]);
    let all = reader.all_chunks(true).unwrap();
    let decoded = decompress_sequential(all, true).unwrap();
    assert_eq!(decoded.len(), 4);
    for (k, block) in decoded.iter().enumerate() {
        assert_eq!(block.index, blocks[k].1.index);
        assert_eq!(block.data, blocks[k].1.data);
        // pixel k*4+2 of the red channel row matches exactly
        let red = f32::from_le_bytes(block.data[8..12].try_into().unwrap());
        assert_eq!(red, (k * 4 + 2) as f32);
    }
}

fn two_layer_tiled_zip() -> Vec<Header> {
    vec![
        header(
            32,
            32,
            rgba_f32(),
            Compression::Zip,
            LineOrder::Increasing,
            BlockDescription::Tiles(TileDescription { tile_size: Vec2 { x: 16, y: 16 } }),
        ),
        header(
            16,
            8,
            rgba_f32(),
            Compression::Zip,
            LineOrder::Increasing,
            BlockDescription::Tiles(TileDescription { tile_size: Vec2 { x: 8, y: 8 } }),
        ),
    ]
}

#[test]
fn two_layer_tiled_zip_offsets_ascend() {
    let headers = two_layer_tiled_zip();
    let bytes = write_filler_file(headers.clone(), 7);
    let meta_len = encode_meta_data(&MetaData { headers: headers.clone() }).len();
    // layer one has a 2x2 tile grid, layer two a 2x1 grid
    let counts = [4usize, 2usize];
    let mut slot = meta_len;
    for count in counts {
        let mut prev = 0u64;
        for k in 0..count {
            let offset = read_u64_le_at(&bytes, slot);
            assert!(offset > prev, "offset table entry {k} does not ascend");
            prev = offset;
            slot += 8;
        }
    }
    // and the file reads back
    let reader = Reader::read_from_buffered(bytes, true).unwrap();
    let all = reader.all_chunks(true).unwrap();
    let decoded = decompress_sequential(all, true).unwrap();
    assert_eq!(decoded.len(), 6);
}

#[test]
fn filtered_read_selects_one_layer() {
    let mut headers = Vec::new();
    for _ in 0..4 {
        headers.push(header(
            4,
            10,
            rgba_f32(),
            Compression::Uncompressed,
            LineOrder::Increasing,
            BlockDescription::ScanLines,
        ));
    }
    let bytes = write_filler_file(headers, 3);
    let reader = Reader::read_from_buffered(bytes, true).unwrap();
    let filtered = reader.filter_chunks(true, |_, _, block| block.layer == 1).unwrap();
    assert_eq!(filtered.expected_chunk_count(), 10);
    let decoded = decompress_sequential(filtered, true).unwrap();
    assert_eq!(decoded.len(), 10);
    let mut prev_y = None;
    for block in &decoded {
        assert_eq!(block.index.layer, 1);
        if let Some(p) = prev_y {
            assert!(block.index.pixel_position.y > p);
        }
        prev_y = Some(block.index.pixel_position.y);
    }
}

#[test]
fn parallel_and_sequential_decompression_agree() {
    let headers = two_layer_tiled_zip();
    let bytes = write_filler_file(headers, 9);

    let reader = Reader::read_from_buffered(bytes.clone(), true).unwrap();
    let sequential = decompress_sequential(reader.all_chunks(true).unwrap(), true).unwrap();

    let reader = Reader::read_from_buffered(bytes, true).unwrap();
    let parallel = decompress_parallel(reader.all_chunks(true).unwrap(), true).unwrap();

    let key = |b: &UncompressedBlock| {
        (b.index.layer, b.index.pixel_position.y, b.index.pixel_position.x)
    };
    let mut s: Vec<_> = sequential.into_iter().map(|b| (key(&b), b.data)).collect();
    let mut p: Vec<_> = parallel.into_iter().map(|b| (key(&b), b.data)).collect();
    s.sort();
    p.sort();
    assert_eq!(s, p);
}

#[test]
fn reorder_restores_decreasing_line_order() {
    let headers = vec![header(
        8,
        128,
        rgba_f32(),
        Compression::Zip,
        LineOrder::Decreasing,
        BlockDescription::ScanLines,
    )];
    // zip covers sixteen lines per block: eight blocks in all
    let enumerated = enumerate_ordered_header_block_indices(&headers);
    assert_eq!(enumerated.len(), 8);
    let bpp = bytes_per_pixel(&headers[0].channels.channel_types);
    let make_blocks = |order: &[usize]| {
        order
            .iter()
            .map(|&k| {
                let (j, index) = enumerated[k].clone();
                let data = filler_data(&index, bpp, 5);
                (j, UncompressedBlock { index, data })
            })
            .collect::<Vec<_>>()
    };

    // canonical order, written in-order
    let (meta, writer) = ChunkWriter::new_for_buffered(headers.clone(), true).unwrap();
    let bw = BlocksWriter::new(meta, writer);
    let bw = bw.compress_all_blocks_sequential(make_blocks(&[0, 1, 2, 3, 4, 5, 6, 7])).unwrap();
    let canonical = bw.into_chunks_writer().complete_meta_data().unwrap();

    // a permutation through the parallel writer with its reorder buffer
    let (meta, writer) = ChunkWriter::new_for_buffered(headers.clone(), true).unwrap();
    let bw = BlocksWriter::new(meta, writer);
    let bw = bw.compress_all_blocks_parallel(make_blocks(&[5, 2, 7, 0, 6, 1, 4, 3])).unwrap();
    let reordered = bw.into_chunks_writer().complete_meta_data().unwrap();

    assert_eq!(canonical, reordered, "reordered write is not byte-identical");

    // reading back sequentially, scan-line positions strictly decrease
    let reader = Reader::read_from_buffered(reordered, true).unwrap();
    let mut all = reader.all_chunks(true).unwrap();
    let mut prev_y = None;
    while let Some(item) = all.read_next_chunk() {
        let chunk = item.unwrap();
        let y = match chunk.block {
            Block::ScanLine(s) => s.y_coordinate,
            _ => panic!("expected scan-line chunks"),
        };
        if let Some(p) = prev_y {
            assert!(y < p, "chunk y positions must strictly decrease");
        }
        prev_y = Some(y);
    }
}

#[test]
fn unusual_channel_tuple_round_trip() {
    let channels = vec![SampleType::F32, SampleType::F32, SampleType::F16, SampleType::F32];
    let h = header(
        31,
        7,
        channels.clone(),
        Compression::Uncompressed,
        LineOrder::Increasing,
        BlockDescription::ScanLines,
    );
    let bpp = bytes_per_pixel(&channels);
    assert_eq!(bpp, 14);
    let mut blocks = Vec::new();
    for y in 0..7usize {
        let mut data = Vec::new();
        for channel in 0..4usize {
            for x in 0..31usize {
                let v: f32 = match channel {
                    0 => -5.0,
                    1 => 64.0,
                    _ => -(x as f32) - 1.0,
                };
                if channel == 2 {
                    // half-width channel: two raw bytes per sample
                    data.extend_from_slice(&(x as u16).to_le_bytes());
                } else {
                    data.extend_from_slice(&v.to_le_bytes());
                }
            }
        }
        let index = BlockIndex {
            layer: 0,
            pixel_position: Vec2 { x: 0, y },
            pixel_size: Vec2 { x: 31, y: 1 },
            level: Vec2 { x: 0, y: 0 },
        };
        blocks.push((y, UncompressedBlock { index, data }));
    }
    let (meta, writer) = ChunkWriter::new_for_buffered(vec![h], true).unwrap();
    let bw = BlocksWriter::new(meta, writer);
    let bw = bw.compress_all_blocks_sequential(blocks.clone()).unwrap();
    let bytes = bw.into_chunks_writer().complete_meta_data().unwrap();

    let reader = Reader::read_from_buffered(bytes, true).unwrap();
    let decoded = decompress_sequential(reader.all_chunks(true).unwrap(), true).unwrap();
    assert_eq!(decoded.len(), 7);
    for (k, block) in decoded.iter().enumerate() {
        assert_eq!(block.data, blocks[k].1.data);
        let red = f32::from_le_bytes(block.data[0..4].try_into().unwrap());
        let green = f32::from_le_bytes(block.data[124..128].try_into().unwrap());
        assert_eq!(red, -5.0);
        assert_eq!(green, 64.0);
        let alpha_row = 31 * 4 + 31 * 4 + 31 * 2;
        let alpha = f32::from_le_bytes(block.data[alpha_row..alpha_row + 4].try_into().unwrap());
        assert!(alpha < 0.0, "alpha should be negative");
    }
}

#[test]
fn pedantic_trailing_byte_is_rejected() {
    let h = scanline_rgba_4x4();
    let blocks = minimal_scanline_blocks();
    let (meta, writer) = ChunkWriter::new_for_buffered(vec![h], true).unwrap();
    let bw = BlocksWriter::new(meta, writer);
    let bw = bw.compress_all_blocks_sequential(blocks).unwrap();
    let mut bytes = bw.into_chunks_writer().complete_meta_data().unwrap();
    bytes.push(0);

    let reader = Reader::read_from_buffered(bytes, true).unwrap();
    let mut all = reader.all_chunks(true).unwrap();
    for _ in 0..4 {
        assert!(all.read_next_chunk().unwrap().is_ok());
    }
    let trailing = all.read_next_chunk().unwrap();
    assert_eq!(trailing.unwrap_err(), Error::Invalid("end of file expected"));
    assert!(all.read_next_chunk().is_none());
}

#[test]
fn pedantic_duplicate_offset_is_rejected() {
    let h = scanline_rgba_4x4();
    let blocks = minimal_scanline_blocks();
    let (meta, writer) = ChunkWriter::new_for_buffered(vec![h.clone()], true).unwrap();
    let bw = BlocksWriter::new(meta, writer);
    let bw = bw.compress_all_blocks_sequential(blocks).unwrap();
    let mut bytes = bw.into_chunks_writer().complete_meta_data().unwrap();

    // overwrite the first table entry with the second: a duplicate offset
    let meta_len = encode_meta_data(&MetaData { headers: vec![h] }).len();
    for k in 0..8 {
        bytes[meta_len + k] = bytes[meta_len + 8 + k];
    }
    let reader = Reader::read_from_buffered(bytes, true).unwrap();
    let result = reader.filter_chunks(true, |_, _, _| true);
    assert_eq!(result.err().unwrap(), Error::Invalid("chunk offset table"));
}

#[test]
fn chunk_written_twice_is_rejected() {
    let h = scanline_rgba_4x4();
    let blocks = minimal_scanline_blocks();
    let (_, mut writer) = ChunkWriter::new_for_buffered(vec![h.clone()], true).unwrap();
    let chunk = blocks[0].1.clone().compress_to_chunk(&vec![h]).unwrap();
    writer.write_chunk(0, chunk.clone()).unwrap();
    let second = writer.write_chunk(0, chunk);
    assert_eq!(
        second.unwrap_err(),
        Error::Invalid("chunk at this index is already written")
    );
}

#[test]
fn incomplete_file_cannot_be_finalized() {
    let h = scanline_rgba_4x4();
    let blocks = minimal_scanline_blocks();
    let (_, mut writer) = ChunkWriter::new_for_buffered(vec![h.clone()], true).unwrap();
    let chunk = blocks[0].1.clone().compress_to_chunk(&vec![h]).unwrap();
    writer.write_chunk(0, chunk).unwrap();
    let result = writer.complete_meta_data();
    assert_eq!(
        result.err().unwrap(),
        Error::Invalid("some chunks are not written yet")
    );
}

#[test]
fn deep_data_is_not_supported() {
    let h = scanline_rgba_4x4();
    let meta = MetaData { headers: vec![h] };
    let chunk = Chunk { layer_index: 0, block: Block::DeepScanLine };
    let result = UncompressedBlock::decompress_chunk(chunk, &meta, true);
    assert_eq!(
        result.unwrap_err(),
        Error::NotSupported("deep data not supported yet")
    );
}

#[test]
fn lossless_codec_round_trips_each_block() {
    let headers = two_layer_tiled_zip();
    let enumerated = enumerate_ordered_header_block_indices(&headers);
    let meta = MetaData { headers: headers.clone() };
    for (_, index) in enumerated {
        let bpp = bytes_per_pixel(&headers[index.layer].channels.channel_types);
        let block = UncompressedBlock {
            index,
            data: filler_data(&index, bpp, 11),
        };
        let chunk = block.clone().compress_to_chunk(&headers).unwrap();
        let back = UncompressedBlock::decompress_chunk(chunk, &meta, true).unwrap();
        assert_eq!(back, block);
    }
}

#[test]
fn write_chunks_with_writes_the_same_file() {
    let h = scanline_rgba_4x4();
    let blocks = minimal_scanline_blocks();
    let (meta, writer) = ChunkWriter::new_for_buffered(vec![h.clone()], true).unwrap();
    let bw = BlocksWriter::new(meta, writer);
    let bw = bw.compress_all_blocks_sequential(blocks.clone()).unwrap();
    let expected = bw.into_chunks_writer().complete_meta_data().unwrap();

    let chunks: Vec<(usize, Chunk)> = blocks
        .into_iter()
        .map(|(j, b)| (j, b.compress_to_chunk(&vec![h.clone()]).unwrap()))
        .collect();
    let direct = write_chunks_with(vec![h], true, chunks).unwrap();
    assert_eq!(expected, direct);
}

struct CollectProgress {
    reports: Vec<(usize, usize)>,
}

impl ProgressSink for CollectProgress {
    fn on_progress(&mut self, completed: usize, total: usize) {
        self.reports.push((completed, total));
    }
}

#[test]
fn progress_reports_rise_from_zero_to_total() {
    let h = scanline_rgba_4x4();
    let blocks = minimal_scanline_blocks();
    let (meta, writer) = ChunkWriter::new_for_buffered(vec![h], true).unwrap();
    let bw = BlocksWriter::new(meta, writer);
    let bw = bw.compress_all_blocks_sequential(blocks).unwrap();
    let bytes = bw.into_chunks_writer().complete_meta_data().unwrap();

    let reader = Reader::read_from_buffered(bytes, true).unwrap();
    let all = reader.all_chunks(true).unwrap();
    let sink = CollectProgress { reports: Vec::new() };
    let mut progress = OnProgressChunksReader::new(all, sink);
    let mut chunks = 0;
    while let Some(item) = progress.read_next_chunk() {
        item.unwrap();
        chunks += 1;
    }
    assert_eq!(chunks, 4);
    let (_inner, sink) = progress.into_parts();
    let reports = sink.reports;
    assert_eq!(reports.first(), Some(&(0, 4)));
    assert_eq!(reports.last(), Some(&(4, 4)));
    for pair in reports.windows(2) {
        assert!(pair[0].0 <= pair[1].0, "progress went backwards");
    }
    assert_eq!(reports.iter().filter(|r| **r == (4, 4)).count(), 1);
}

#[test]
fn truncated_chunk_region_surfaces_a_transport_error() {
    let h = scanline_rgba_4x4();
    let blocks = minimal_scanline_blocks();
    let (meta, writer) = ChunkWriter::new_for_buffered(vec![h], true).unwrap();
    let bw = BlocksWriter::new(meta, writer);
    let bw = bw.compress_all_blocks_sequential(blocks).unwrap();
    let mut bytes = bw.into_chunks_writer().complete_meta_data().unwrap();
    bytes.truncate(bytes.len() - 3);

    let reader = Reader::read_from_buffered(bytes, true).unwrap();
    let mut all = reader.all_chunks(false).unwrap();
    let mut saw_io_error = false;
    while let Some(item) = all.read_next_chunk() {
        if let Err(e) = item {
            assert!(matches!(e, Error::Io(_)));
            saw_io_error = true;
        }
    }
    assert!(saw_io_error);
}

#[test]
fn lines_round_trip_through_from_lines() {
    let h = scanline_rgba_4x4();
    let block = minimal_scanline_blocks().remove(1).1;
    let lines = block.lines(&h.channels);
    assert_eq!(lines.len(), 4); // one scan line, four channels
    for (c, (line, value)) in lines.iter().enumerate() {
        assert_eq!(line.channel, c);
        assert_eq!(line.sample_count, 4);
        assert_eq!(line.position.y, 1);
        assert_eq!(value.len(), 16);
    }
    let rows: Vec<Vec<u8>> = lines.into_iter().map(|(_, v)| v).collect();
    let rebuilt =
        UncompressedBlock::from_lines(&h.channels, block.index, &rows).unwrap();
    assert_eq!(rebuilt, block);

    // a row of the wrong width is refused
    let mut bad = rows_clone(&rebuilt, &h);
    bad[2].pop();
    let refused = UncompressedBlock::from_lines(&h.channels, block.index, &bad);
    assert_eq!(refused.unwrap_err(), Error::Invalid("line byte count"));
}

fn rows_clone(block: &UncompressedBlock, h: &Header) -> Vec<Vec<u8>> {
    block.lines(&h.channels).into_iter().map(|(_, v)| v).collect()
}
