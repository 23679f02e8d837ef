//! Leaf codecs: vbyte numbers, packed sequences and rank/select bitmaps.
use hdt::ReadError;
use hdt::bits::Bitmap;
use hdt::sequence::Sequence;
use hdt::vbyte::decode_vbyte;

fn vb(mut v: u64) -> Vec<u8> {
    let mut out = Vec::new();
    loop {
        let b = (v & 0x7f) as u8;
        v >>= 7;
        if v == 0 {
            out.push(b | 0x80);
            break;
        }
        out.push(b);
    }
    out
}

fn crc8(data: &[u8]) -> u8 {
    let mut c = crc_any::CRCu8::crc8();
    c.digest(data);
    c.get_crc()
}

fn crc32c_le(data: &[u8]) -> Vec<u8> {
    let mut c = crc_any::CRCu32::crc32c();
    c.digest(data);
    c.get_crc().to_le_bytes().to_vec()
}

fn sequence_bytes(width: u8, values: &[u64]) -> Vec<u8> {
    let mut header = vec![1u8, width];
    header.extend_from_slice(&vb(values.len() as u64));
    let nbits = values.len() * width as usize;
    let mut payload = vec![0u8; (nbits + 7) / 8];
    for (i, &v) in values.iter().enumerate() {
        for k in 0..width as usize {
            if (v >> k) & 1 == 1 {
                let j = i * width as usize + k;
                payload[j / 8] |= 1 << (j % 8);
            }
        }
    }
    let mut out = header.clone();
    out.push(crc8(&header));
    out.extend_from_slice(&payload);
    out.extend_from_slice(&crc32c_le(&payload));
    out
}

fn bitmap_bytes(bits: &[bool]) -> Vec<u8> {
    let mut header = vec![1u8];
    header.extend_from_slice(&vb(bits.len() as u64));
    let mut payload = vec![0u8; (bits.len() + 7) / 8];
    for (j, &b) in bits.iter().enumerate() {
        if b {
            payload[j / 8] |= 1 << (j % 8);
        }
    }
    let mut out = header.clone();
    out.push(crc8(&header));
    out.extend_from_slice(&payload);
    out.extend_from_slice(&crc32c_le(&payload));
    out
}

#[test]
fn vbyte_single_byte() {
    let data = [0x85u8];
    let (v, n) = decode_vbyte(&data, 0).unwrap();
    assert_eq!(v, 5);
    assert_eq!(n, 1);
}

#[test]
fn vbyte_two_bytes() {
    // 127 + 128 * 1 = 255
    let data = [0x7fu8, 0x81];
    let (v, n) = decode_vbyte(&data, 0).unwrap();
    assert_eq!(v, 255);
    assert_eq!(n, 2);
}

#[test]
fn vbyte_round_trip() {
    for value in [0u64, 1, 127, 128, 300, 16383, 16384, 1 << 40] {
        let enc = vb(value);
        let (v, n) = decode_vbyte(&enc, 0).unwrap();
        assert_eq!(v, value);
        assert_eq!(n, enc.len());
    }
}

#[test]
fn vbyte_missing_terminator() {
    let data = [0x01u8, 0x02];
    assert_eq!(decode_vbyte(&data, 0), Err(ReadError::MalformedVByte));
    let empty: [u8; 0] = [];
    assert_eq!(decode_vbyte(&empty, 0), Err(ReadError::MalformedVByte));
}

#[test]
fn sequence_read_and_get() {
    let bytes = sequence_bytes(5, &[3, 9, 31, 0]);
    let (seq, end) = Sequence::read(&bytes, 0).unwrap();
    assert_eq!(end, bytes.len());
    assert_eq!(seq.len(), 4);
    assert_eq!(seq.get(0), 3);
    assert_eq!(seq.get(1), 9);
    assert_eq!(seq.get(2), 31);
    assert_eq!(seq.get(3), 0);
}

#[test]
fn sequence_full_width_values() {
    let big = u64::MAX;
    let bytes = sequence_bytes(64, &[0, big, 1]);
    let (seq, _) = Sequence::read(&bytes, 0).unwrap();
    assert_eq!(seq.get(0), 0);
    assert_eq!(seq.get(1), big as usize);
    assert_eq!(seq.get(2), 1);
}

#[test]
fn sequence_bad_type_tag() {
    let mut bytes = sequence_bytes(5, &[3]);
    bytes[0] = 7;
    assert!(matches!(Sequence::read(&bytes, 0), Err(ReadError::UnsupportedSectionType)));
}

#[test]
fn sequence_checksum_mismatch() {
    let mut bytes = sequence_bytes(8, &[1, 2, 3]);
    let last = bytes.len() - 1;
    bytes[last] ^= 0xff;
    assert!(matches!(Sequence::read(&bytes, 0), Err(ReadError::ChecksumMismatch)));
}

#[test]
fn bitmap_rank_select() {
    let bits = [true, false, false, true, true, false, true];
    let bytes = bitmap_bytes(&bits);
    let (bm, end) = Bitmap::read(&bytes, 0).unwrap();
    assert_eq!(end, bytes.len());
    assert_eq!(bm.len(), 7);
    assert_eq!(bm.ones(), 4);
    for (j, &b) in bits.iter().enumerate() {
        assert_eq!(bm.get(j), b);
    }
    assert_eq!(bm.rank1(0), 0);
    assert_eq!(bm.rank1(4), 2);
    assert_eq!(bm.rank1(7), 4);
    assert_eq!(bm.select1(0), Some(0));
    assert_eq!(bm.select1(1), Some(3));
    assert_eq!(bm.select1(2), Some(4));
    assert_eq!(bm.select1(3), Some(6));
    assert_eq!(bm.select1(4), None);
}

#[test]
fn bitmap_truncated() {
    let bytes = bitmap_bytes(&[true, true, false]);
    let cut = &bytes[..bytes.len() - 2];
    assert!(matches!(Bitmap::read(cut, 0), Err(ReadError::UnexpectedEnd)));
}
