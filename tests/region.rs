use std::collections::HashMap;
use std::io::Write;

use minedmap::region::{
    chunk_payload, decode_chunk, decode_region, from_reader, parse_header, ChunkDesc, RegionError, RegionWalker,
    Step, BLOCKSIZE,
};

fn header_with(entries: &[(usize, u32, u8)]) -> [u8; BLOCKSIZE] {
    let mut h = [0u8; BLOCKSIZE];
    for &(slot, offset, len) in entries {
        h[4 * slot] = (offset >> 16) as u8;
        h[4 * slot + 1] = (offset >> 8) as u8;
        h[4 * slot + 2] = offset as u8;
        h[4 * slot + 3] = len;
    }
    h
}

fn zlib(data: &[u8]) -> Vec<u8> {
    let mut e = flate2::write::ZlibEncoder::new(Vec::new(), flate2::Compression::default());
    e.write_all(data).unwrap();
    e.finish().unwrap()
}

fn sample_record() -> fastnbt::Value {
    let mut m = HashMap::new();
    m.insert("xPos".to_string(), fastnbt::Value::Int(0));
    m.insert("Status".to_string(), fastnbt::Value::String("full".to_string()));
    fastnbt::Value::Compound(m)
}

fn chunk_block(tag: u8, data: &[u8], sectors: usize) -> Vec<u8> {
    let mut b = Vec::new();
    let len = (data.len() + 1) as u32;
    b.extend_from_slice(&len.to_be_bytes());
    b.push(tag);
    b.extend_from_slice(data);
    b.resize(sectors * BLOCKSIZE, 0);
    b
}

#[test]
fn empty_header_gives_empty_table() {
    assert!(parse_header(&[0u8; BLOCKSIZE]).is_empty());
}

#[test]
fn header_slots_run_x_minor_z_major() {
    let h = header_with(&[(0, 2, 1), (33, 0x01_02_03, 7), (1023, 5, 2)]);
    let t = parse_header(&h);
    assert_eq!(t.len(), 3);
    assert_eq!(t[&2], ChunkDesc { x: 0, z: 0, len: 1 });
    assert_eq!(t[&0x01_02_03], ChunkDesc { x: 1, z: 1, len: 7 });
    assert_eq!(t[&5], ChunkDesc { x: 31, z: 31, len: 2 });
}

#[test]
fn shared_offset_keeps_last_slot() {
    let h = header_with(&[(3, 9, 1), (40, 9, 2)]);
    let t = parse_header(&h);
    assert_eq!(t.len(), 1);
    assert_eq!(t[&9], ChunkDesc { x: 8, z: 1, len: 2 });
}

#[test]
fn payload_is_carved_and_padding_ignored() {
    let b = chunk_block(2, &[10, 20, 30], 1);
    assert_eq!(chunk_payload(&b), Ok(&[10u8, 20, 30][..]));
}

#[test]
fn short_block_lacks_length_prefix() {
    assert_eq!(chunk_payload(&[0, 0, 1]), Err(RegionError::ChunkSizeTruncated));
    assert_eq!(decode_chunk(&[]).unwrap_err(), RegionError::ChunkSizeTruncated);
}

#[test]
fn length_beyond_reserved_bytes_is_truncation() {
    let mut b = vec![0u8; BLOCKSIZE];
    b[0..4].copy_from_slice(&(BLOCKSIZE as u32 - 3).to_be_bytes());
    b[4] = 2;
    assert_eq!(chunk_payload(&b), Err(RegionError::ChunkDataTruncated));
    b[0..4].copy_from_slice(&(BLOCKSIZE as u32 - 4).to_be_bytes());
    assert!(chunk_payload(&b).is_ok());
}

#[test]
fn unknown_format_tags_are_refused() {
    for tag in [0u8, 1, 3, 255] {
        let b = chunk_block(tag, &zlib(b"abc"), 1);
        assert_eq!(chunk_payload(&b), Err(RegionError::UnknownFormat));
        assert_eq!(decode_chunk(&b).unwrap_err(), RegionError::UnknownFormat);
    }
    let mut b = vec![0u8; BLOCKSIZE];
    b[4] = 2;
    assert_eq!(chunk_payload(&b), Err(RegionError::UnknownFormat));
}

#[test]
fn corrupt_stream_fails_decompression() {
    let b = chunk_block(2, &[1, 2, 3, 4, 5, 6], 1);
    assert_eq!(decode_chunk(&b).unwrap_err(), RegionError::Decompress);
}

#[test]
fn non_nbt_data_fails_decoding() {
    let b = chunk_block(2, &zlib(&[0xff, 0x00, 0x13]), 1);
    assert_eq!(decode_chunk(&b).unwrap_err(), RegionError::Nbt);
}

#[test]
fn chunk_decodes_to_its_record() {
    let nbt = fastnbt::to_bytes(&sample_record()).unwrap();
    let b = chunk_block(2, &zlib(&nbt), 1);
    assert_eq!(decode_chunk(&b).unwrap(), sample_record());
}

/// Runs a walk over an in-memory region file, collecting decoded chunks.
fn walk(file: &[u8]) -> Result<Vec<(u8, u8, fastnbt::Value)>, RegionError> {
    let mut header = [0u8; BLOCKSIZE];
    header.copy_from_slice(&file[..BLOCKSIZE]);
    let mut w = RegionWalker::new(&header);
    let mut pos = BLOCKSIZE;
    let mut out = Vec::new();
    loop {
        match w.next_step()? {
            Step::Done => return Ok(out),
            Step::Skip => pos += BLOCKSIZE,
            Step::Chunk { x, z, len } => {
                let end = pos + len as usize * BLOCKSIZE;
                out.push((x, z, decode_chunk(&file[pos..end])?));
                pos = end;
            }
        }
    }
}

#[test]
fn single_chunk_region_yields_one_callback() {
    let nbt = fastnbt::to_bytes(&sample_record()).unwrap();
    let mut file = header_with(&[(0, 2, 1)]).to_vec();
    file.extend_from_slice(&[0u8; BLOCKSIZE]);
    file.extend_from_slice(&chunk_block(2, &zlib(&nbt), 1));
    let got = walk(&file).unwrap();
    assert_eq!(got, vec![(0, 0, sample_record())]);
}

#[test]
fn walk_visits_every_entry_across_gaps() {
    let nbt = fastnbt::to_bytes(&sample_record()).unwrap();
    let mut file = header_with(&[(5, 5, 2), (70, 2, 1), (1000, 9, 1)]).to_vec();
    file.resize(10 * BLOCKSIZE, 0);
    for (sector, n) in [(2usize, 1usize), (5, 2), (9, 1)] {
        let b = chunk_block(2, &zlib(&nbt), n);
        file[sector * BLOCKSIZE..(sector + n) * BLOCKSIZE].copy_from_slice(&b);
    }
    let got: Vec<(u8, u8)> = walk(&file).unwrap().into_iter().map(|(x, z, _)| (x, z)).collect();
    assert_eq!(got, vec![(6, 2), (5, 0), (8, 31)]);
}

#[test]
fn walker_steps_in_sector_order() {
    let mut w = RegionWalker::new(&header_with(&[(1, 3, 2)]));
    assert_eq!(w.next_step(), Ok(Step::Skip));
    assert_eq!(w.next_step(), Ok(Step::Skip));
    assert_eq!(w.next_step(), Ok(Step::Chunk { x: 1, z: 0, len: 2 }));
    assert_eq!(w.next_step(), Ok(Step::Done));
    assert_eq!(w.next_step(), Ok(Step::Done));
}

#[test]
fn empty_region_is_done_at_once() {
    let mut w = RegionWalker::new(&[0u8; BLOCKSIZE]);
    assert_eq!(w.next_step(), Ok(Step::Done));
}

#[test]
fn region_hands_back_its_reader() {
    let r = from_reader(vec![1u8, 2, 3]);
    assert_eq!(r.into_reader(), vec![1u8, 2, 3]);
}

#[test]
fn entry_inside_another_block_is_unreachable() {
    let mut w = RegionWalker::new(&header_with(&[(0, 2, 3), (1, 3, 1)]));
    assert_eq!(w.next_step(), Ok(Step::Skip));
    assert_eq!(w.next_step(), Ok(Step::Chunk { x: 0, z: 0, len: 3 }));
    assert_eq!(w.next_step(), Err(RegionError::UnreachableChunk));
}

#[test]
fn walk_stops_at_largest_offset() {
    let mut w = RegionWalker::new(&header_with(&[(0, 6, 1), (1, 4, 1)]));
    assert_eq!(w.next_step(), Ok(Step::Skip));
    assert_eq!(w.next_step(), Ok(Step::Skip));
    assert_eq!(w.next_step(), Ok(Step::Skip));
    assert_eq!(w.next_step(), Ok(Step::Chunk { x: 1, z: 0, len: 1 }));
    assert_eq!(w.next_step(), Ok(Step::Skip));
    assert_eq!(w.next_step(), Ok(Step::Chunk { x: 0, z: 0, len: 1 }));
    assert_eq!(w.next_step(), Ok(Step::Done));
}

#[test]
fn chunk_decodes_regardless_of_padding() {
    let nbt = fastnbt::to_bytes(&sample_record()).unwrap();
    let mut b = chunk_block(2, &zlib(&nbt), 2);
    let n = b.len();
    b[n - 1] = 0xAB;
    b[n - 100] = 0x17;
    assert_eq!(decode_chunk(&b).unwrap(), sample_record());
}

#[test]
fn region_in_memory_decodes_single_chunk() {
    let nbt = fastnbt::to_bytes(&sample_record()).unwrap();
    let mut file = header_with(&[(0, 2, 1)]).to_vec();
    file.extend_from_slice(&[0u8; BLOCKSIZE]);
    file.extend_from_slice(&chunk_block(2, &zlib(&nbt), 1));
    assert_eq!(decode_region(&file).unwrap(), vec![(0, 0, sample_record())]);
}

#[test]
fn region_in_memory_keeps_last_slot_on_shared_offset() {
    let nbt = fastnbt::to_bytes(&sample_record()).unwrap();
    let mut file = header_with(&[(3, 2, 1), (40, 2, 1)]).to_vec();
    file.extend_from_slice(&[0u8; BLOCKSIZE]);
    file.extend_from_slice(&chunk_block(2, &zlib(&nbt), 1));
    let got: Vec<(u8, u8)> =
        decode_region(&file).unwrap().into_iter().map(|(x, z, _)| (x, z)).collect();
    assert_eq!(got, vec![(8, 1)]);
}

#[test]
fn region_in_memory_refuses_short_header() {
    assert_eq!(decode_region(&[0u8; 100]).unwrap_err(), RegionError::HeaderTruncated);
}

#[test]
fn region_in_memory_refuses_missing_block() {
    let mut file = header_with(&[(0, 2, 2)]).to_vec();
    file.resize(3 * BLOCKSIZE, 0);
    assert_eq!(decode_region(&file).unwrap_err(), RegionError::ChunkDataMissing);
}

#[test]
fn region_in_memory_reports_hidden_entry() {
    let nbt = fastnbt::to_bytes(&sample_record()).unwrap();
    let mut file = header_with(&[(0, 2, 2), (1, 3, 1)]).to_vec();
    file.extend_from_slice(&[0u8; BLOCKSIZE]);
    file.extend_from_slice(&chunk_block(2, &zlib(&nbt), 2));
    assert_eq!(decode_region(&file).unwrap_err(), RegionError::UnreachableChunk);
}

#[test]
fn region_in_memory_passes_chunk_errors_on() {
    let mut file = header_with(&[(0, 2, 1)]).to_vec();
    file.extend_from_slice(&[0u8; BLOCKSIZE]);
    file.extend_from_slice(&chunk_block(7, &[1, 2, 3], 1));
    assert_eq!(decode_region(&file).unwrap_err(), RegionError::UnknownFormat);
}

#[test]
fn empty_region_in_memory_has_no_chunks() {
    assert_eq!(decode_region(&[0u8; BLOCKSIZE]).unwrap(), vec![]);
}

#[test]
fn region_in_memory_refuses_overlong_prefix() {
    let mut file = header_with(&[(0, 2, 1)]).to_vec();
    file.resize(3 * BLOCKSIZE, 0);
    file[2 * BLOCKSIZE..2 * BLOCKSIZE + 4].copy_from_slice(&[0, 0, 0x13, 0x88]);
    assert_eq!(decode_region(&file).unwrap_err(), RegionError::ChunkDataTruncated);
}

#[test]
fn region_in_memory_yields_chunks_in_offset_order() {
    let nbt = fastnbt::to_bytes(&sample_record()).unwrap();
    let mut file = header_with(&[(0, 4, 1), (1, 2, 1), (2, 3, 1)]).to_vec();
    file.resize(5 * BLOCKSIZE, 0);
    for sector in 2..5 {
        let b = chunk_block(2, &zlib(&nbt), 1);
        file[sector * BLOCKSIZE..(sector + 1) * BLOCKSIZE].copy_from_slice(&b);
    }
    let got: Vec<(u8, u8)> =
        decode_region(&file).unwrap().into_iter().map(|(x, z, _)| (x, z)).collect();
    assert_eq!(got, vec![(1, 0), (2, 0), (0, 0)]);
}
