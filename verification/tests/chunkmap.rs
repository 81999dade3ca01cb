use cartobase::chunkmap::{
    container_of, decode_container, empty_bitmap, local_index, popcount, set_bit, CONTAINER_BYTES,
};
use std::collections::HashMap;

#[test]
fn roundtrip_including_negatives() {
    let coords = [
        [0, 0], [1, 0], [0, 1], [31, 31], [32, 0], [-1, -1], [-33, 5], [1000, -2000],
    ];
    let mut containers: HashMap<(i32, i32), Vec<u8>> = HashMap::new();
    for c in coords {
        let key = container_of(c[0], c[1]);
        let bm = containers.entry(key).or_insert_with(empty_bitmap);
        assert!(set_bit(bm, c[0], c[1]));
        assert!(!set_bit(bm, c[0], c[1]));
    }
    let mut decoded = Vec::new();
    let mut total = 0;
    for ((cx, cz), bm) in &containers {
        total += popcount(bm);
        decode_container(*cx, *cz, bm, &mut decoded);
    }
    assert_eq!(total as usize, coords.len());
    decoded.sort();
    let mut expected: Vec<[i32; 2]> = coords.to_vec();
    expected.sort();
    assert_eq!(decoded, expected);
}

#[test]
fn container_of_floors_toward_negative_infinity() {
    assert_eq!(container_of(0, 0), (0, 0));
    assert_eq!(container_of(31, 32), (0, 1));
    assert_eq!(container_of(-1, -32), (-1, -1));
    assert_eq!(container_of(-33, 5), (-2, 0));
    assert_eq!(container_of(i32::MIN, i32::MAX), (-67108864, 67108863));
}

#[test]
fn empty_bitmap_is_all_zero_and_standard_size() {
    let bm = empty_bitmap();
    assert_eq!(bm.len(), CONTAINER_BYTES);
    assert!(bm.iter().all(|b| *b == 0));
    assert_eq!(popcount(&bm), 0);
}

#[test]
fn set_bit_layout_is_row_major_by_z() {
    let mut bm = empty_bitmap();
    // (cx=1, cz=0) is bit 1: byte 0, mask 0b10
    assert!(set_bit(&mut bm, 1, 0));
    assert_eq!(bm[0], 0b10);
    // (cx=0, cz=1) is bit 32: byte 4, mask 1
    assert!(set_bit(&mut bm, 0, 1));
    assert_eq!(bm[4], 1);
    // (cx=-1, cz=-1) is local (31, 31): bit 1023, byte 127, mask 0x80
    assert!(set_bit(&mut bm, -1, -1));
    assert_eq!(bm[127], 0x80);
    assert_eq!(popcount(&bm), 3);
    // setting again changes nothing
    let before = bm.clone();
    assert!(!set_bit(&mut bm, 33, 32));
    assert_eq!(bm, before);
}

#[test]
fn popcount_counts_every_bit() {
    assert_eq!(popcount(&[0xff, 0x01, 0x80]), 10);
    assert_eq!(popcount(&[]), 0);
    assert_eq!(popcount(&[0x55; 4]), 16);
}

#[test]
fn decode_appends_in_bit_order() {
    let mut bm = empty_bitmap();
    set_bit(&mut bm, -30, 67);
    set_bit(&mut bm, -32, 64);
    let mut out = vec![[7, 7]];
    decode_container(-1, 2, &bm, &mut out);
    assert_eq!(out, vec![[7, 7], [-32, 64], [-30, 67]]);
}

#[test]
fn decode_of_empty_container_adds_nothing() {
    let bm = empty_bitmap();
    let mut out: Vec<[i32; 2]> = Vec::new();
    decode_container(5, 5, &bm, &mut out);
    assert!(out.is_empty());
}

#[test]
fn local_index_with_container_gives_the_chunk_back() {
    assert_eq!(local_index(-33, 5), 191);
    assert_eq!(local_index(-1, -1), 1023);
    assert_eq!(local_index(0, 0), 0);
    for (cx, cz) in [(-33, 5), (-1, -1), (1000, -2000), (i32::MIN, i32::MAX), (31, 32)] {
        let idx = local_index(cx, cz);
        assert!(idx < 1024);
        let (x, z) = container_of(cx, cz);
        assert_eq!(x * 32 + (idx % 32) as i32, cx);
        assert_eq!(z * 32 + (idx / 32) as i32, cz);
    }
}
