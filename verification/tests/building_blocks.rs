//! Bytes, numbers, queues, orders and codes.

use omendb_hnsw::bytes::{
    put_bytes, put_i32, put_u16, put_u32, put_u64, read_bytes, read_i32, read_u16, read_u32,
    read_u64, read_u8,
};
use omendb_hnsw::candidates::CandidateQueue;
use omendb_hnsw::decimal::{parse_number, put_number};
use omendb_hnsw::distance::{finite, float_rank, less};
use omendb_hnsw::error::{FormatError, HNSWError};
use omendb_hnsw::framing::{
    put_entry_point, put_long_blob, put_short_blob, read_entry_point, read_long_blob, read_magic,
    read_short_blob,
};
use omendb_hnsw::node_storage::quantization::TrainingFailed;
use omendb_hnsw::node_storage::rabitq::{RaBitQCode, RaBitQParams, RaBitQStorage};
use omendb_hnsw::reorder::{breadth_first_order, places_of};
use omendb_hnsw::segment_persistence::read_blob;
use omendb_hnsw::types::Candidate;
use omendb_hnsw::visited::VisitedList;

#[test]
fn numbers_are_read_as_they_were_put() {
    let mut out = Vec::new();
    put_u16(&mut out, 0x1234);
    put_u32(&mut out, 0xdead_beef);
    put_u64(&mut out, u64::MAX - 1);
    put_i32(&mut out, -7);
    put_bytes(&mut out, &[9, 8]);
    assert_eq!(&out[0..2], &[0x34, 0x12]);
    let mut pos = 0;
    assert_eq!(read_u16(&out, &mut pos), Ok(0x1234));
    assert_eq!(read_u32(&out, &mut pos), Ok(0xdead_beef));
    assert_eq!(read_u64(&out, &mut pos), Ok(u64::MAX - 1));
    assert_eq!(read_i32(&out, &mut pos), Ok(-7));
    assert_eq!(read_u8(&out, &mut pos), Ok(9));
    assert_eq!(
        read_bytes(&out, &mut pos, 2),
        Err(FormatError::TooShort { need: 2, position: 19, available: 20 })
    );
    assert_eq!(read_bytes(&out, &mut pos, 1), Ok(&[8u8][..]));
    assert!(read_u8(&out, &mut pos).is_err());
    let mut past: usize = out.len() + 1;
    assert!(read_bytes(&out, &mut past, 0).is_err());
    assert!(read_u64(&out, &mut past).is_err());
    assert_eq!(past, out.len() + 1);
    let mut far: usize = usize::MAX;
    assert!(read_bytes(&out, &mut far, 2).is_err());
}

#[test]
fn frames_are_read_as_they_were_put() {
    let mut out = Vec::new();
    put_u64(&mut out, 77);
    put_entry_point(&mut out, Some(5));
    put_entry_point(&mut out, None);
    put_short_blob(&mut out, b"abc");
    put_long_blob(&mut out, b"defg");
    let mut pos = 0;
    assert_eq!(read_magic(&out, &mut pos, 77), Ok(()));
    assert_eq!(read_entry_point(&out, &mut pos), Ok(Some(5)));
    assert_eq!(read_entry_point(&out, &mut pos), Ok(None));
    assert_eq!(read_short_blob(&out, &mut pos, 3), Ok(b"abc".to_vec()));
    let mut again = pos;
    assert_eq!(read_long_blob(&out, &mut pos, 4), Ok(b"defg".to_vec()));
    assert_eq!(
        read_long_blob(&out, &mut again, 3),
        Err(FormatError::CapExceeded { length: 4, cap: 3 })
    );
    let mut start = 0;
    assert!(matches!(
        read_magic(&out, &mut start, 78),
        Err(FormatError::InvalidMagic { found: 77 })
    ));
}

#[test]
fn blobs_that_are_cut_off_are_refused() {
    let mut out = Vec::new();
    put_long_blob(&mut out, b"abcdef");
    let mut pos = 0;
    assert_eq!(read_blob(&out, &mut pos), Ok(b"abcdef".to_vec()));
    let mut pos = 0;
    assert!(read_blob(&out[..11], &mut pos).is_err());
    let mut pos = 0;
    assert!(read_blob(&out[..2], &mut pos).is_err());
}

#[test]
fn decimals_are_read_as_they_were_put() {
    for n in [0, 7, 10, 4096, u64::MAX] {
        let mut out = Vec::new();
        put_number(&mut out, n);
        assert_eq!(out, n.to_string().as_bytes());
        assert_eq!(parse_number(&out), Some(n));
    }
    assert_eq!(parse_number(b""), None);
    assert_eq!(parse_number(b"12a"), None);
    assert_eq!(parse_number(b"18446744073709551616"), None);
    assert_eq!(parse_number(b"007"), Some(7));
}

#[test]
fn floats_are_ordered_by_their_bits() {
    let values = [f32::NEG_INFINITY, -2.0, -0.5, 0.0, 1e-10, 1.0, f32::MAX, f32::INFINITY];
    for pair in values.windows(2) {
        assert!(less(pair[0].to_bits(), pair[1].to_bits()));
        assert!(float_rank(pair[0].to_bits()) < float_rank(pair[1].to_bits()));
    }
    assert_eq!(float_rank((-0.0f32).to_bits()), float_rank(0.0f32.to_bits()));
    assert!(!less(f32::NAN.to_bits(), 0.0f32.to_bits()));
    assert!(!less(0.0f32.to_bits(), f32::NAN.to_bits()));
    assert!(finite(1.0f32.to_bits()));
    assert!(!finite(f32::INFINITY.to_bits()));
    assert!(!finite(f32::NAN.to_bits()));
}

#[test]
fn queues_hand_out_both_ends() {
    let c = |id: u32, d: f32| Candidate::new(id, d.to_bits());
    let mut queue = CandidateQueue::new();
    for x in [c(1, 3.0), c(2, 1.0), c(3, 2.0), c(4, 2.0)] {
        queue.push(x);
    }
    assert_eq!(queue.len(), 4);
    assert_eq!(queue.farthest(), Some(c(1, 3.0)));
    assert_eq!(queue.pop_nearest(), Some(c(2, 1.0)));
    assert_eq!(queue.pop_farthest(), Some(c(1, 3.0)));
    assert_eq!(queue.into_vec(), vec![c(3, 2.0), c(4, 2.0)]);
}

#[test]
fn visited_nodes_are_forgotten_at_once() {
    let mut visited = VisitedList::new(2);
    visited.mark_visited(1);
    visited.mark_visited(9);
    assert!(visited.is_visited(1));
    assert!(visited.is_visited(9));
    assert!(!visited.is_visited(0));
    visited.next_generation();
    assert!(!visited.is_visited(1));
    assert!(!visited.is_visited(9));
    visited.ensure_capacity(100);
    assert!(!visited.is_visited(99));
}

#[test]
fn walks_meet_every_node_once() {
    let adjacent = vec![vec![2], vec![], vec![3, 0], vec![]];
    let order = breadth_first_order(&adjacent, 2);
    assert_eq!(&order[0..3], &[2, 3, 0]);
    assert_eq!(order[3], 1);
    let places = places_of(&order);
    for (place, id) in order.iter().enumerate() {
        assert_eq!(places[*id as usize] as usize, place);
    }
}

#[test]
fn errors_carry_their_messages() {
    assert_eq!(HNSWError::internal("a".to_string()), HNSWError::Internal("a".to_string()));
    assert_eq!(HNSWError::storage("b".to_string()), HNSWError::Storage("b".to_string()));
}

fn norm(v: &[u32]) -> u32 {
    v.iter().map(|x| f32::from_bits(*x).powi(2)).sum::<f32>().to_bits()
}

fn train(_: &[u32], _: usize) -> Option<RaBitQParams> {
    Some(RaBitQParams { code_words: 1, rotation: vec![] })
}

fn code(_: &RaBitQParams, v: &[u32]) -> RaBitQCode {
    let signs = v.iter().enumerate().fold(0u64, |s, (i, x)| {
        if f32::from_bits(*x) >= 0.0 {
            s | 1 << i
        } else {
            s
        }
    });
    RaBitQCode { signs: vec![signs], dis_u_2: v[0], factor_ip: v[1], factor_ppc: 3 }
}

#[test]
fn codes_are_made_once_there_are_enough_vectors() {
    let mut storage = RaBitQStorage::new(2);
    let v = |i: usize| vec![(i as f32).to_bits(), (-1.0f32).to_bits()];
    let estimate = |s: &[u64], a: u32, b: u32, c: u32| (s[0] as u32) ^ a ^ b ^ c;
    for i in 0..255 {
        assert_eq!(storage.set_vector_rabitq(i as u32, &v(i), &train, &code, &norm), Ok(()));
        assert!(!storage.trained);
    }
    assert_eq!(storage.distance_rabitq(0, &estimate), None);
    assert_eq!(storage.set_vector_rabitq(255, &v(255), &train, &code, &norm), Ok(()));
    assert!(storage.trained);
    assert!(storage.training_buffer.is_empty());
    assert_eq!(storage.codes.len(), 256);
    assert_eq!(storage.norms[3], 10.0f32.to_bits());
    assert_eq!(&storage.originals[6..8], v(3).as_slice());
    let expected = |i: usize| 1 ^ v(i)[0] ^ v(i)[1] ^ 3;
    assert_eq!(storage.distance_rabitq(7, &estimate), Some(expected(7)));

    assert_eq!(storage.set_vector_rabitq(258, &v(9), &train, &code, &norm), Ok(()));
    assert_eq!(storage.distance_rabitq(258, &estimate), Some(expected(9)));
    assert_eq!(storage.distance_rabitq(7, &estimate), Some(expected(7)));
    assert_eq!(storage.distance_rabitq(300, &estimate), None);
    let mut distances = vec![0, 1, 2];
    assert_eq!(storage.distance_rabitq_batch(&[7, 300, 258], &estimate, &mut distances), 2);
    assert_eq!(distances, vec![expected(7), 1, expected(9)]);
}

#[test]
fn training_of_codes_may_fail() {
    let mut storage = RaBitQStorage::new(1);
    let none = |_: &[u32], _: usize| -> Option<RaBitQParams> { None };
    for i in 0..255 {
        assert_eq!(storage.set_vector_rabitq(i, &[0], &none, &code, &norm), Ok(()));
    }
    assert_eq!(
        storage.set_vector_rabitq(255, &[0], &none, &code, &norm),
        Err(TrainingFailed)
    );
    assert!(!storage.trained);
}
