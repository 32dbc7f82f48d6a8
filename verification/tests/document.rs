use std::io::Write;

use token_histogram::aggregate::run_shards;
use token_histogram::histogram::Histogram;
use token_histogram::serializer::to_document;

fn gz(data: &[u8]) -> Vec<u8> {
    let mut enc = flate2::write::GzEncoder::new(Vec::new(), flate2::Compression::default());
    enc.write_all(data).unwrap();
    enc.finish().unwrap()
}

fn shard(members: &[Vec<u8>]) -> Vec<u8> {
    let mut builder = tar::Builder::new(Vec::new());
    for (idx, m) in members.iter().enumerate() {
        let mut header = tar::Header::new_ustar();
        header.set_size(m.len() as u64);
        header.set_path(format!("doc{}.json.gz", idx)).unwrap();
        header.set_mode(0o644);
        header.set_cksum();
        builder.append(&header, &m[..]).unwrap();
    }
    builder.into_inner().unwrap()
}

#[test]
fn document_is_a_valid_mapping() {
    let bytes = shard(&[gz(b"[5,5,7]")]);
    let (hist, _) = run_shards(&vec![bytes]).unwrap();
    let doc = to_document(&hist);
    let value: serde_json::Value = serde_json::from_slice(&doc).unwrap();
    let obj = value.as_object().unwrap();
    assert_eq!(obj.len(), 2);
    assert_eq!(obj.get("5").unwrap().as_u64().unwrap(), 2);
    assert_eq!(obj.get("7").unwrap().as_u64().unwrap(), 1);
}

#[test]
fn document_of_empty_histogram_is_empty_object() {
    let hist = Histogram::new();
    let doc = to_document(&hist);
    assert_eq!(doc, b"{}".to_vec());
    let value: serde_json::Value = serde_json::from_slice(&doc).unwrap();
    assert_eq!(value.as_object().unwrap().len(), 0);
}

#[test]
fn document_renders_extreme_keys_and_counts() {
    let mut hist = Histogram::new();
    assert!(hist.add_count(0, 1));
    assert!(hist.add_count(u64::MAX, u64::MAX));
    let doc = to_document(&hist);
    let value: serde_json::Value = serde_json::from_slice(&doc).unwrap();
    let obj = value.as_object().unwrap();
    assert_eq!(obj.get("0").unwrap().as_u64().unwrap(), 1);
    assert_eq!(
        obj.get("18446744073709551615").unwrap().as_u64().unwrap(),
        u64::MAX
    );
}

#[test]
fn document_bytes_are_exact() {
    let mut hist = Histogram::new();
    assert!(hist.add_count(12, 34));
    let doc = to_document(&hist);
    assert_eq!(doc, b"{\"12\":34}".to_vec());
}
