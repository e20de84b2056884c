use std::collections::HashMap;
use std::io::Write;

use minedmap::nbt::{nbt_depth_within, MAX_NBT_DEPTH};
use minedmap::region::{decode_chunk, RegionError, BLOCKSIZE};

/// A root compound holding one list named "a", nested `levels` lists deep.
fn nested_lists(levels: usize) -> Vec<u8> {
    let mut b = vec![10, 0, 0, 9, 0, 1, b'a'];
    for _ in 1..levels {
        b.extend_from_slice(&[9, 0, 0, 0, 1]);
    }
    b.extend_from_slice(&[1, 0, 0, 0, 0]);
    b.push(0);
    b
}

fn zlib(data: &[u8]) -> Vec<u8> {
    let mut e = flate2::write::ZlibEncoder::new(Vec::new(), flate2::Compression::default());
    e.write_all(data).unwrap();
    e.finish().unwrap()
}

fn chunk_block(data: &[u8]) -> Vec<u8> {
    let z = zlib(data);
    let mut b = Vec::new();
    b.extend_from_slice(&((z.len() + 1) as u32).to_be_bytes());
    b.push(2);
    b.extend_from_slice(&z);
    let sectors = (b.len() + BLOCKSIZE - 1) / BLOCKSIZE;
    b.resize(sectors * BLOCKSIZE, 0);
    b
}

#[test]
fn flat_compound_has_depth_one() {
    let mut m = HashMap::new();
    m.insert("x".to_string(), fastnbt::Value::Int(3));
    let b = fastnbt::to_bytes(&fastnbt::Value::Compound(m)).unwrap();
    assert!(nbt_depth_within(&b, 1));
    assert!(!nbt_depth_within(&b, 0));
}

#[test]
fn list_of_compounds_counts_each_level() {
    let mut inner = HashMap::new();
    inner.insert("y".to_string(), fastnbt::Value::Byte(1));
    let list = fastnbt::Value::List(vec![
        fastnbt::Value::Compound(inner.clone()),
        fastnbt::Value::Compound(inner),
    ]);
    let mut m = HashMap::new();
    m.insert("l".to_string(), list);
    let b = fastnbt::to_bytes(&fastnbt::Value::Compound(m)).unwrap();
    assert!(nbt_depth_within(&b, 3));
    assert!(!nbt_depth_within(&b, 2));
}

#[test]
fn nested_lists_are_measured() {
    let b = nested_lists(5);
    assert!(nbt_depth_within(&b, 6));
    assert!(!nbt_depth_within(&b, 5));
}

#[test]
fn record_at_depth_limit_decodes() {
    let b = nested_lists(MAX_NBT_DEPTH as usize - 1);
    assert!(nbt_depth_within(&b, MAX_NBT_DEPTH));
    assert!(decode_chunk(&chunk_block(&b)).is_ok());
}

#[test]
fn overly_deep_record_is_refused() {
    let b = nested_lists(10_000);
    assert!(!nbt_depth_within(&b, MAX_NBT_DEPTH));
    assert_eq!(decode_chunk(&chunk_block(&b)).unwrap_err(), RegionError::Nbt);
}

#[test]
fn truncated_record_stops_the_scan() {
    assert!(nbt_depth_within(&[10, 0], 0));
    assert!(nbt_depth_within(&[], 0));
}
