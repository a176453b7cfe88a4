use metrics_datadog::packer::{
    metric_requests, split_and_compress_series, split_series, EncodeError, MAX_DECOMPRESSED_PAYLOAD,
    MAX_PAYLOAD_BYTES,
};
use std::io::Read;

fn frame(series: &[Vec<u8>]) -> Vec<u8> {
    let mut out = b"{\"series\":[".to_vec();
    for (i, s) in series.iter().enumerate() {
        if i > 0 {
            out.push(b',');
        }
        out.extend_from_slice(s);
    }
    out.extend_from_slice(b"]}");
    out
}

fn gunzip(b: &[u8]) -> Vec<u8> {
    let mut d = flate2::read::GzDecoder::new(b);
    let mut out = Vec::new();
    d.read_to_end(&mut out).unwrap();
    out
}

fn pseudo_random(n: usize, seed: u64) -> Vec<u8> {
    let mut x = seed;
    (0..n)
        .map(|_| {
            x = x.wrapping_mul(6364136223846793005).wrapping_add(1442695040888963407);
            (x >> 33) as u8
        })
        .collect()
}

/// Strips the frame and splits on the commas between series; the test
/// series hold no commas.
fn unframe(body: &[u8]) -> Vec<Vec<u8>> {
    let inner = &body[11..body.len() - 2];
    if inner.is_empty() {
        return vec![];
    }
    inner.split(|b| *b == b',').map(|s| s.to_vec()).collect()
}

#[test]
fn small_batch_is_one_payload() {
    let series = vec![b"{\"a\":1}".to_vec(), b"{\"b\":2}".to_vec()];
    let out = split_series(&series).unwrap();
    assert_eq!(out, vec![b"{\"series\":[{\"a\":1},{\"b\":2}]}".to_vec()]);
}

#[test]
fn empty_batch_is_one_empty_payload() {
    let out = split_series(&vec![]).unwrap();
    assert_eq!(out, vec![b"{\"series\":[]}".to_vec()]);
}

#[test]
fn oversized_batch_is_split_and_reconstructs() {
    let series: Vec<Vec<u8>> = (0..40u8).map(|i| vec![b'a' + (i % 26); 100_000]).collect();
    assert!(frame(&series).len() >= MAX_PAYLOAD_BYTES);
    let out = split_series(&series).unwrap();
    assert!(out.len() > 1);
    let mut back = Vec::new();
    for p in &out {
        assert!(p.len() < MAX_PAYLOAD_BYTES);
        back.extend(unframe(p));
    }
    assert_eq!(back, series);
}

#[test]
fn single_oversized_series_is_unsplittable() {
    let series = vec![vec![b'x'; MAX_PAYLOAD_BYTES]];
    assert_eq!(split_series(&series), Err(EncodeError::Unsplittable));
}

#[test]
fn oversized_series_among_others_is_unsplittable() {
    let series = vec![b"1".to_vec(), vec![b'x'; MAX_PAYLOAD_BYTES], b"2".to_vec()];
    assert_eq!(metric_requests(&series, false), Err(EncodeError::Unsplittable));
}

#[test]
fn compressed_small_batch_is_one_gzip_payload() {
    let series = vec![b"{\"a\":1}".to_vec(), b"{\"b\":2}".to_vec()];
    let out = split_and_compress_series(&series).unwrap();
    assert_eq!(out.len(), 1);
    assert_ne!(out[0], frame(&series));
    assert_eq!(gunzip(&out[0]), frame(&series));
}

#[test]
fn compressed_batch_splits_on_transmitted_size() {
    let series: Vec<Vec<u8>> = (0..4u64).map(|i| pseudo_random(1_000_000, i + 1)).collect();
    let series: Vec<Vec<u8>> =
        series.into_iter().map(|s| s.into_iter().map(|b| if b == b',' { b'.' } else { b }).collect()).collect();
    let out = metric_requests(&series, true).unwrap();
    assert!(out.len() > 1);
    let mut back = Vec::new();
    for p in &out {
        assert!(p.len() < MAX_PAYLOAD_BYTES);
        let raw = gunzip(p);
        assert!(raw.len() < MAX_DECOMPRESSED_PAYLOAD);
        back.extend(unframe(&raw));
    }
    assert_eq!(back, series);
}

#[test]
fn compressible_batch_over_transmission_ceiling_stays_whole() {
    let series = vec![vec![b'z'; MAX_PAYLOAD_BYTES + 10]];
    let out = split_and_compress_series(&series).unwrap();
    assert_eq!(out.len(), 1);
    assert_eq!(gunzip(&out[0]), frame(&series));
}

#[test]
fn incompressible_single_series_is_unsplittable() {
    let series = vec![pseudo_random(MAX_PAYLOAD_BYTES + 1000, 7)];
    assert_eq!(split_and_compress_series(&series), Err(EncodeError::Unsplittable));
}
