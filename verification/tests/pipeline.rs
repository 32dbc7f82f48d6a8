use std::io::Write;

use token_histogram::aggregate::{run_shards, AggregateError};
use token_histogram::decode::{decode_shard, DecodeError};
use token_histogram::histogram::Histogram;
use token_histogram::serializer::to_document;

fn gz(data: &[u8]) -> Vec<u8> {
    let mut enc = flate2::write::GzEncoder::new(Vec::new(), flate2::Compression::default());
    enc.write_all(data).unwrap();
    enc.finish().unwrap()
}

fn shard(members: &[Vec<u8>]) -> Vec<u8> {
    let mut builder = tar::Builder::new(Vec::new());
    for (idx, m) in members.iter().enumerate() {
        let mut header = tar::Header::new_ustar();
        header.set_size(m.len() as u64);
        header.set_path(format!("doc{}.json.gz", idx)).unwrap();
        header.set_mode(0o644);
        header.set_cksum();
        builder.append(&header, &m[..]).unwrap();
    }
    builder.into_inner().unwrap()
}

#[test]
fn example_two_shards() {
    let shard_a = shard(&[gz(b"[1,2,2,3]"), gz(b"[3,3]")]);
    let shard_b = shard(&[gz(b"[1,1,2]")]);
    let (hist, processed) = run_shards(&vec![shard_a, shard_b]).unwrap();
    assert_eq!(processed, 2);
    assert_eq!(hist.get(1), 3);
    assert_eq!(hist.get(2), 3);
    assert_eq!(hist.get(3), 3);
    assert_eq!(hist.get(4), 0);
    assert_eq!(hist.distinct_tokens(), 3);
    assert_eq!(hist.total(), 9);
}

#[test]
fn merge_order_has_no_effect() {
    let shard_a = shard(&[gz(b"[1,2,2,3]"), gz(b"[3,3]")]);
    let shard_b = shard(&[gz(b"[1,1,2]")]);
    let (h1, _) = run_shards(&vec![shard_a.clone(), shard_b.clone()]).unwrap();
    let (h2, _) = run_shards(&vec![shard_b, shard_a]).unwrap();
    for t in 0..5u64 {
        assert_eq!(h1.get(t), h2.get(t));
    }
    assert_eq!(h1.total(), h2.total());
    assert_eq!(h1.distinct_tokens(), h2.distinct_tokens());
}

#[test]
fn zero_shards_give_empty_mapping() {
    let (hist, processed) = run_shards(&Vec::new()).unwrap();
    assert_eq!(processed, 0);
    assert_eq!(hist.distinct_tokens(), 0);
    assert_eq!(hist.total(), 0);
    assert_eq!(to_document(&hist), b"{}".to_vec());
}

#[test]
fn decode_is_idempotent() {
    let bytes = shard(&[gz(b"[7,8,7]"), gz(b"[9]")]);
    let h1 = decode_shard(&bytes).unwrap();
    let h2 = decode_shard(&bytes).unwrap();
    assert_eq!(h1.snapshot(), h2.snapshot());
    assert_eq!(h1.total(), h2.total());
    for t in 0..16u64 {
        assert_eq!(h1.get(t), h2.get(t));
    }
}

#[test]
fn non_list_member_fails_decode() {
    let bytes = shard(&[gz(b"{\"a\": 1}")]);
    assert_eq!(decode_shard(&bytes).unwrap_err(), DecodeError::MemberPayload);
    let r = run_shards(&vec![bytes]);
    assert_eq!(
        r.unwrap_err(),
        AggregateError::Shard(DecodeError::MemberPayload)
    );
}

#[test]
fn non_integer_elements_fail_decode() {
    for payload in [
        &b"[1,\"a\"]"[..],
        b"[-1]",
        b"[1.5]",
        b"[1e3]",
        b"[01]",
        b"[18446744073709551616]",
        b"[1,]",
        b"[,1]",
        b"3",
        b"",
    ] {
        let bytes = shard(&[gz(payload)]);
        assert_eq!(
            decode_shard(&bytes).unwrap_err(),
            DecodeError::MemberPayload,
            "payload {:?} should be rejected",
            payload
        );
    }
}

#[test]
fn member_that_is_not_gzip_fails_decode() {
    let bytes = shard(&[b"[1,2,3]".to_vec()]);
    assert_eq!(
        decode_shard(&bytes).unwrap_err(),
        DecodeError::MemberDecompress
    );
}

#[test]
fn malformed_containers_fail_decode() {
    assert_eq!(
        decode_shard(&b"hello".to_vec()).unwrap_err(),
        DecodeError::Container
    );
    let garbage = vec![0xffu8; 512];
    assert_eq!(decode_shard(&garbage).unwrap_err(), DecodeError::Container);
    let mut truncated = shard(&[gz(b"[1]")]);
    truncated.truncate(600);
    assert_eq!(
        decode_shard(&truncated).unwrap_err(),
        DecodeError::Container
    );
}

#[test]
fn corrupt_checksum_fails_decode() {
    let mut bytes = shard(&[gz(b"[1]")]);
    // flip a byte inside the checksum field of the first header
    bytes[148] = b'7';
    bytes[149] = b'7';
    assert_eq!(decode_shard(&bytes).unwrap_err(), DecodeError::Container);
}

#[test]
fn empty_member_list_and_empty_container() {
    let bytes = shard(&[gz(b"[]"), gz(b" [ ] ")]);
    let h = decode_shard(&bytes).unwrap();
    assert_eq!(h.distinct_tokens(), 0);
    assert_eq!(h.total(), 0);

    let empty_archive = shard(&[]);
    let h2 = decode_shard(&empty_archive).unwrap();
    assert_eq!(h2.distinct_tokens(), 0);

    let no_bytes: Vec<u8> = Vec::new();
    let h3 = decode_shard(&no_bytes).unwrap();
    assert_eq!(h3.distinct_tokens(), 0);
}

#[test]
fn whitespace_in_payload_is_accepted() {
    let bytes = shard(&[gz(b" [ 1 , 2 ,\n3 ] ")]);
    let h = decode_shard(&bytes).unwrap();
    assert_eq!(h.get(1), 1);
    assert_eq!(h.get(2), 1);
    assert_eq!(h.get(3), 1);
    assert_eq!(h.total(), 3);
}

#[test]
fn token_ids_span_the_full_range() {
    let bytes = shard(&[gz(b"[0,18446744073709551615,0]")]);
    let h = decode_shard(&bytes).unwrap();
    assert_eq!(h.get(0), 2);
    assert_eq!(h.get(u64::MAX), 1);
    assert_eq!(h.distinct_tokens(), 2);
    assert_eq!(h.total(), 3);
}

#[test]
fn histogram_counts_saturate_into_errors() {
    let mut h = Histogram::new();
    assert!(h.add_count(5, u64::MAX));
    assert!(!h.add_count(5, 1));
    assert_eq!(h.get(5), u64::MAX);

    let mut other = Histogram::new();
    assert!(other.add_count(5, 1));
    assert!(!h.merge(&other));

    let mut ok_target = Histogram::new();
    assert!(ok_target.add_count(6, 2));
    assert!(ok_target.merge(&other));
    assert_eq!(ok_target.get(5), 1);
    assert_eq!(ok_target.get(6), 2);
}
