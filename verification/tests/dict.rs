//! Dictionary section: front-coded round trips, lookups and failure modes.
use hdt::ReadError;
use hdt::dict_sect_pfc::{DictSectPFC, ExtractError};

fn vb(mut v: u64) -> Vec<u8> {
    let mut out = Vec::new();
    loop {
        let b = (v & 0x7f) as u8;
        v >>= 7;
        if v == 0 {
            out.push(b | 0x80);
            break;
        }
        out.push(b);
    }
    out
}

fn crc8(data: &[u8]) -> u8 {
    let mut c = crc_any::CRCu8::crc8();
    c.digest(data);
    c.get_crc()
}

fn crc32c_le(data: &[u8]) -> Vec<u8> {
    let mut c = crc_any::CRCu32::crc32c();
    c.digest(data);
    c.get_crc().to_le_bytes().to_vec()
}

fn sequence_bytes(width: u8, values: &[u64]) -> Vec<u8> {
    let mut header = vec![1u8, width];
    header.extend_from_slice(&vb(values.len() as u64));
    let nbits = values.len() * width as usize;
    let mut payload = vec![0u8; (nbits + 7) / 8];
    for (i, &v) in values.iter().enumerate() {
        for k in 0..width as usize {
            if (v >> k) & 1 == 1 {
                let j = i * width as usize + k;
                payload[j / 8] |= 1 << (j % 8);
            }
        }
    }
    let mut out = header.clone();
    out.push(crc8(&header));
    out.extend_from_slice(&payload);
    out.extend_from_slice(&crc32c_le(&payload));
    out
}

fn shared_prefix(a: &[u8], b: &[u8]) -> usize {
    let mut n = 0;
    while n < a.len() && n < b.len() && a[n] == b[n] {
        n += 1;
    }
    n
}

/// Front-code `strings` (sorted, zero-free) into a full dictionary section.
fn dict_bytes(strings: &[&str], block_size: usize) -> Vec<u8> {
    let mut packed: Vec<u8> = Vec::new();
    let mut offsets: Vec<u64> = Vec::new();
    for (i, s) in strings.iter().enumerate() {
        let bytes = s.as_bytes();
        if i % block_size == 0 {
            offsets.push(packed.len() as u64);
            packed.extend_from_slice(bytes);
            packed.push(0);
        } else {
            let prev = strings[i - 1].as_bytes();
            let shared = shared_prefix(prev, bytes);
            packed.extend_from_slice(&vb(shared as u64));
            packed.extend_from_slice(&bytes[shared..]);
            packed.push(0);
        }
    }
    offsets.push(packed.len() as u64);
    let mut header = vec![2u8];
    header.extend_from_slice(&vb(strings.len() as u64));
    header.extend_from_slice(&vb(packed.len() as u64));
    header.extend_from_slice(&vb(block_size as u64));
    let mut out = header.clone();
    out.push(crc8(&header));
    out.extend_from_slice(&sequence_bytes(32, &offsets));
    out.extend_from_slice(&packed);
    out.extend_from_slice(&crc32c_le(&packed));
    out
}

const TERMS: [&str; 5] = [
    "_:b1",
    "http://example.org/a",
    "http://example.org/ab",
    "http://example.org/b",
    "http://example.org/b/c",
];

#[test]
fn dict_read_header_values() {
    let bytes = dict_bytes(&TERMS, 2);
    let (dict, end) = DictSectPFC::read(&bytes, 0).unwrap();
    assert_eq!(end, bytes.len());
    assert_eq!(dict.num_strings(), 5);
    assert!(dict.size_in_bytes() > 0);
}

#[test]
fn dict_extract_known_ids() {
    let bytes = dict_bytes(&TERMS, 2);
    let (dict, _) = DictSectPFC::read(&bytes, 0).unwrap();
    for (i, term) in TERMS.iter().enumerate() {
        assert_eq!(dict.extract(i + 1).unwrap(), *term);
    }
}

#[test]
fn dict_id_round_trip() {
    // every id translates to a string and back to itself
    let bytes = dict_bytes(&TERMS, 2);
    let (dict, _) = DictSectPFC::read(&bytes, 0).unwrap();
    for id in 1..=dict.num_strings() {
        let s = dict.extract(id).unwrap();
        assert_eq!(dict.string_to_id(&s), id, "id {} did not round-trip via {}", id, s);
    }
}

#[test]
fn dict_string_round_trip() {
    // every stored string translates to an id and back to itself
    let bytes = dict_bytes(&TERMS, 3);
    let (dict, _) = DictSectPFC::read(&bytes, 0).unwrap();
    for term in TERMS.iter() {
        let id = dict.string_to_id(term);
        assert!(id >= 1);
        let back = dict.extract(id).unwrap();
        assert_eq!(back, *term, "term does not translate back to itself {} -> {} -> {}", term, id, back);
    }
}

#[test]
fn dict_absent_strings_get_zero() {
    let bytes = dict_bytes(&TERMS, 2);
    let (dict, _) = DictSectPFC::read(&bytes, 0).unwrap();
    // "A" sits strictly below the first block header
    for absent in ["", "A", "aaa", "http://example.org/", "http://example.org/b/c/d", "zzz", "_:b0"] {
        assert_eq!(dict.string_to_id(absent), 0, "absent {} must give 0", absent);
    }
}

#[test]
fn dict_strings_strictly_increase() {
    let bytes = dict_bytes(&TERMS, 2);
    let (dict, _) = DictSectPFC::read(&bytes, 0).unwrap();
    let mut prev: Option<String> = None;
    for id in 1..=dict.num_strings() {
        let s = dict.extract(id).unwrap();
        if let Some(p) = prev {
            assert!(p.as_bytes() < s.as_bytes(), "{} not below {}", p, s);
        }
        prev = Some(s);
    }
}

#[test]
fn dict_extract_bounds() {
    let bytes = dict_bytes(&TERMS, 2);
    let (dict, _) = DictSectPFC::read(&bytes, 0).unwrap();
    assert!(matches!(dict.extract(0), Err(ExtractError::IdOutOfBounds { id: 0, len: 5 })));
    assert!(matches!(dict.extract(6), Err(ExtractError::IdOutOfBounds { id: 6, len: 5 })));
}

#[test]
fn dict_single_block() {
    let bytes = dict_bytes(&TERMS, 16);
    let (dict, _) = DictSectPFC::read(&bytes, 0).unwrap();
    for term in TERMS.iter() {
        let id = dict.string_to_id(term);
        assert_eq!(dict.extract(id).unwrap(), *term);
    }
    assert_eq!(dict.string_to_id("http://example.org/aa"), 0);
}

#[test]
fn dict_wrong_type_tag() {
    let mut bytes = dict_bytes(&TERMS, 2);
    bytes[0] = 3;
    assert!(matches!(DictSectPFC::read(&bytes, 0), Err(ReadError::UnsupportedSectionType)));
}

#[test]
fn dict_header_bit_flip_detected() {
    // a flip inside the CRC-8-covered header region is always caught
    let mut bytes = dict_bytes(&TERMS, 2);
    bytes[1] ^= 0x04;
    assert!(matches!(DictSectPFC::read(&bytes, 0), Err(ReadError::ChecksumMismatch)));
}

#[test]
fn dict_payload_bit_flip_detected() {
    let bytes = dict_bytes(&TERMS, 2);
    let mut corrupted = bytes.clone();
    // flip one bit in the packed payload, ahead of the trailing CRC-32C
    let at = bytes.len() - 6;
    corrupted[at] ^= 0x01;
    assert!(matches!(DictSectPFC::read(&corrupted, 0), Err(ReadError::ChecksumMismatch)));
}

#[test]
fn dict_truncated() {
    let bytes = dict_bytes(&TERMS, 2);
    let cut = &bytes[..bytes.len() - 3];
    assert!(matches!(DictSectPFC::read(cut, 0), Err(ReadError::UnexpectedEnd)));
}

#[test]
fn dict_empty_lookup_on_nonempty() {
    let bytes = dict_bytes(&TERMS, 2);
    let (dict, _) = DictSectPFC::read(&bytes, 0).unwrap();
    assert_eq!(dict.string_to_id(""), 0);
}
