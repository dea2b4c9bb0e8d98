use nydus_core::compress;
use nydus_core::digest;
use nydus_core::hexstr;
use nydus_core::model;
use nydus_core::StorageError;

#[test]
fn rle_decompress_exact() {
    let out = compress::decompress(compress::Algorithm::Rle, &vec![3u8, 9u8]).unwrap();
    assert_eq!(out, vec![9u8, 9u8, 9u8]);
    let out = compress::decompress(compress::Algorithm::Rle, &vec![1u8, 5u8, 2u8, 6u8]).unwrap();
    assert_eq!(out, vec![5u8, 6u8, 6u8]);
}

#[test]
fn rle_rejects_zero_run() {
    let r = compress::decompress(compress::Algorithm::Rle, &vec![0u8, 1u8]);
    assert_eq!(r, Err(StorageError::Decompression));
}

#[test]
fn rle_rejects_odd_stream() {
    let r = compress::decompress(compress::Algorithm::Rle, &vec![2u8, 1u8, 7u8]);
    assert_eq!(r, Err(StorageError::Decompression));
}

#[test]
fn rle_round_trip() {
    let data = vec![1u8, 1, 1, 1, 2, 3, 3, 0, 0, 0, 0, 0];
    let packed = compress::compress(compress::Algorithm::Rle, &data);
    let unpacked = compress::decompress(compress::Algorithm::Rle, &packed).unwrap();
    assert_eq!(unpacked, data);
}

#[test]
fn rle_round_trip_long_run() {
    // A run longer than one pair can encode must be split and still decode.
    let data = vec![7u8; 700];
    let packed = compress::compress(compress::Algorithm::Rle, &data);
    let unpacked = compress::decompress(compress::Algorithm::Rle, &packed).unwrap();
    assert_eq!(unpacked, data);
}

#[test]
fn plain_codec_is_identity() {
    let data = vec![1u8, 2, 3];
    assert_eq!(compress::compress(compress::Algorithm::Plain, &data), data);
    assert_eq!(compress::decompress(compress::Algorithm::Plain, &data).unwrap(), data);
}

#[test]
fn xor_fold_digest_exact() {
    let d = digest::digest(digest::Algorithm::XorFold, &vec![1u8, 2u8, 3u8]);
    let mut expected = vec![0u8; 32];
    expected[0] = 1;
    expected[1] = 2;
    expected[2] = 3;
    assert_eq!(d, expected);
}

#[test]
fn sum_fold_digest_wraps() {
    // Two bytes 200 land in lanes 0 and 32 % 32 == 0 for inputs 32 apart.
    let mut data = vec![0u8; 33];
    data[0] = 200;
    data[32] = 200;
    let d = digest::digest(digest::Algorithm::SumFold, &data);
    assert_eq!(d[0], 144); // 400 mod 256
}

#[test]
fn digest_check_detects_change() {
    let data = vec![9u8, 8u8, 7u8];
    let id = digest::digest(digest::Algorithm::XorFold, &data);
    assert!(digest::digest_check(&data, &id, digest::Algorithm::XorFold));
    let other = vec![9u8, 8u8, 6u8];
    assert!(!digest::digest_check(&other, &id, digest::Algorithm::XorFold));
}

#[test]
fn hex_encode_two_digits_per_byte() {
    let r = hexstr::hex_encode(&vec![0x0fu8, 0xa0u8]);
    assert_eq!(r, b"0fa0".to_vec());
}

#[test]
fn hex_decode_inverts_encode() {
    let bytes = vec![0xdeu8, 0xad, 0xbe, 0xef];
    let text = hexstr::hex_encode(&bytes);
    assert_eq!(hexstr::hex_decode(&text), Some(bytes));
    assert_eq!(hexstr::hex_decode(&b"zz".to_vec()), None);
    assert_eq!(hexstr::hex_decode(&b"abc".to_vec()), None);
    assert_eq!(hexstr::hex_decode(&b"AbCd".to_vec()), Some(vec![0xabu8, 0xcd]));
}

#[test]
fn bytes_helpers() {
    assert!(model::bytes_eq(&vec![1u8, 2u8], &vec![1u8, 2u8]));
    assert!(!model::bytes_eq(&vec![1u8, 2u8], &vec![1u8, 3u8]));
    assert!(!model::bytes_eq(&vec![1u8], &vec![1u8, 2u8]));
    assert_eq!(model::sub_bytes(&vec![1u8, 2, 3, 4], 1, 3), vec![2u8, 3u8]);
}
