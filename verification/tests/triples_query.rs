//! Triples section: scans, single-position queries, orders and framing.
use hdt::ReadError;
use hdt::triples::{ControlInfo, Order, TripleId, TripleSect, TriplesBitmap};

fn vb(mut v: u64) -> Vec<u8> {
    let mut out = Vec::new();
    loop {
        let b = (v & 0x7f) as u8;
        v >>= 7;
        if v == 0 {
            out.push(b | 0x80);
            break;
        }
        out.push(b);
    }
    out
}

fn crc8(data: &[u8]) -> u8 {
    let mut c = crc_any::CRCu8::crc8();
    c.digest(data);
    c.get_crc()
}

fn crc32c_le(data: &[u8]) -> Vec<u8> {
    let mut c = crc_any::CRCu32::crc32c();
    c.digest(data);
    c.get_crc().to_le_bytes().to_vec()
}

fn sequence_bytes(width: u8, values: &[u64]) -> Vec<u8> {
    let mut header = vec![1u8, width];
    header.extend_from_slice(&vb(values.len() as u64));
    let nbits = values.len() * width as usize;
    let mut payload = vec![0u8; (nbits + 7) / 8];
    for (i, &v) in values.iter().enumerate() {
        for k in 0..width as usize {
            if (v >> k) & 1 == 1 {
                let j = i * width as usize + k;
                payload[j / 8] |= 1 << (j % 8);
            }
        }
    }
    let mut out = header.clone();
    out.push(crc8(&header));
    out.extend_from_slice(&payload);
    out.extend_from_slice(&crc32c_le(&payload));
    out
}

fn bitmap_bytes(bits: &[bool]) -> Vec<u8> {
    let mut header = vec![1u8];
    header.extend_from_slice(&vb(bits.len() as u64));
    let mut payload = vec![0u8; (bits.len() + 7) / 8];
    for (j, &b) in bits.iter().enumerate() {
        if b {
            payload[j / 8] |= 1 << (j % 8);
        }
    }
    let mut out = header.clone();
    out.push(crc8(&header));
    out.extend_from_slice(&payload);
    out.extend_from_slice(&crc32c_le(&payload));
    out
}

fn triples_bytes(yb: &[bool], zb: &[bool], ys: &[u64], zs: &[u64]) -> Vec<u8> {
    let mut out = bitmap_bytes(yb);
    out.extend_from_slice(&bitmap_bytes(zb));
    out.extend_from_slice(&sequence_bytes(8, ys));
    out.extend_from_slice(&sequence_bytes(8, zs));
    out
}

fn bitmap_ci(order: &str) -> ControlInfo {
    ControlInfo {
        format: b"<http://purl.org/HDT/hdt#triplesBitmap>".to_vec(),
        order: Some(order.as_bytes().to_vec()),
    }
}

fn t(s: usize, p: usize, o: usize) -> TripleId {
    TripleId::new(s, p, o)
}

/// x=1 owns y ids [1, 2]; x=2 owns y id [1].  The three y positions own the
/// z groups [1, 3], [2] and [2, 3]: five triples in SPO order.
fn sample() -> TriplesBitmap {
    let yb = [false, true, true];
    let zb = [false, true, true, false, true];
    let ys = [1u64, 2, 1];
    let zs = [1u64, 3, 2, 2, 3];
    let bytes = triples_bytes(&yb, &zb, &ys, &zs);
    let (tb, end) = TriplesBitmap::read(&bytes, 0, &bitmap_ci("1")).unwrap();
    assert_eq!(end, bytes.len());
    tb
}

fn expected_scan() -> Vec<TripleId> {
    vec![t(1, 1, 1), t(1, 1, 3), t(1, 2, 2), t(2, 1, 2), t(2, 1, 3)]
}

#[test]
fn scan_emits_all_triples_in_order() {
    let tb = sample();
    let v = tb.scan().unwrap();
    // one triple per z entry, every coordinate positive
    assert_eq!(v.len(), 5);
    for tr in &v {
        assert!(tr.subject_id >= 1 && tr.predicate_id >= 1 && tr.object_id >= 1);
    }
    assert_eq!(v, expected_scan());
}

#[test]
fn with_s_matches_scan_filter() {
    let tb = sample();
    let all = tb.scan().unwrap();
    for s_id in 0..4usize {
        let filtered: Vec<TripleId> =
            all.iter().filter(|tr| tr.subject_id == s_id).cloned().collect();
        let got = tb.with_s(s_id).unwrap();
        assert_eq!(got, filtered, "subject {}", s_id);
    }
}

#[test]
fn with_p_matches_scan_filter() {
    let tb = sample();
    let all = tb.scan().unwrap();
    for p_id in 0..4usize {
        let filtered: Vec<TripleId> =
            all.iter().filter(|tr| tr.predicate_id == p_id).cloned().collect();
        let got = tb.with_p(p_id).unwrap();
        assert_eq!(got, filtered, "predicate {}", p_id);
    }
}

#[test]
fn with_o_matches_scan_filter() {
    let tb = sample();
    let all = tb.scan().unwrap();
    for o_id in 0..5usize {
        let filtered: Vec<TripleId> =
            all.iter().filter(|tr| tr.object_id == o_id).cloned().collect();
        let got = tb.with_o(o_id).unwrap();
        assert_eq!(got, filtered, "object {}", o_id);
    }
}

#[test]
fn with_p_counts_occurrences() {
    // predicate 1 occurs at two y positions worth 2 + 2 z entries
    let tb = sample();
    assert_eq!(tb.with_p(1).unwrap().len(), 4);
    assert_eq!(tb.with_p(2).unwrap().len(), 1);
    assert_eq!(tb.with_p(9).unwrap().len(), 0);
}

#[test]
fn with_o_counts_positions() {
    // object 2 fills two positions of the z sequence, object 3 two as well
    let tb = sample();
    assert_eq!(tb.with_o(1).unwrap(), vec![t(1, 1, 1)]);
    assert_eq!(tb.with_o(2).unwrap(), vec![t(1, 2, 2), t(2, 1, 2)]);
    assert_eq!(tb.with_o(3).unwrap(), vec![t(1, 1, 3), t(2, 1, 3)]);
    assert_eq!(tb.with_o(7).unwrap(), Vec::<TripleId>::new());
}

#[test]
fn ops_order_permutes_coordinates() {
    let yb = [true, true];
    let zb = [true, true];
    let ys = [1u64, 2];
    let zs = [5u64, 6];
    let bytes = triples_bytes(&yb, &zb, &ys, &zs);
    let (tb, _) = TriplesBitmap::read(&bytes, 0, &bitmap_ci("6")).unwrap();
    // OPS: stored (x, y, z) surfaces as (z, y, x)
    assert_eq!(tb.scan().unwrap(), vec![t(5, 1, 1), t(6, 2, 2)]);
}

#[test]
fn unknown_order_fails_iteration() {
    let yb = [true];
    let zb = [true];
    let bytes = triples_bytes(&yb, &zb, &[1], &[1]);
    let (tb, _) = TriplesBitmap::read(&bytes, 0, &bitmap_ci("0")).unwrap();
    assert_eq!(tb.scan(), Err(ReadError::InvalidOrder));
}

#[test]
fn coord_to_triple_rejects_zero() {
    let tb = sample();
    assert_eq!(tb.coord_to_triple(0, 1, 1), Err(ReadError::MalformedTriple));
    assert_eq!(tb.coord_to_triple(1, 0, 1), Err(ReadError::MalformedTriple));
    assert_eq!(tb.coord_to_triple(1, 1, 0), Err(ReadError::MalformedTriple));
    assert_eq!(tb.coord_to_triple(2, 3, 4), Ok(t(2, 3, 4)));
}

#[test]
fn order_try_from_range() {
    assert_eq!(Order::try_from(0), Ok(Order::Unknown));
    assert_eq!(Order::try_from(1), Ok(Order::SPO));
    assert_eq!(Order::try_from(2), Ok(Order::SOP));
    assert_eq!(Order::try_from(3), Ok(Order::PSO));
    assert_eq!(Order::try_from(4), Ok(Order::POS));
    assert_eq!(Order::try_from(5), Ok(Order::OSP));
    assert_eq!(Order::try_from(6), Ok(Order::OPS));
    assert_eq!(Order::try_from(7), Err(ReadError::InvalidOrder));
}

#[test]
fn triple_sect_dispatches_on_format() {
    let yb = [true];
    let zb = [true];
    let bytes = triples_bytes(&yb, &zb, &[1], &[1]);
    let sect = TripleSect::read(&bytes, 0, &bitmap_ci("1")).unwrap().0;
    assert_eq!(sect.read_all_ids().unwrap(), vec![t(1, 1, 1)]);

    let list_ci = ControlInfo {
        format: b"<http://purl.org/HDT/hdt#triplesList>".to_vec(),
        order: Some(b"1".to_vec()),
    };
    assert!(matches!(
        TripleSect::read(&bytes, 0, &list_ci),
        Err(ReadError::UnsupportedSectionType)
    ));

    let other_ci = ControlInfo { format: b"<http://example.org/else>".to_vec(), order: None };
    assert!(matches!(TripleSect::read(&bytes, 0, &other_ci), Err(ReadError::UnknownFormat)));
}

#[test]
fn triple_sect_queries() {
    let tb_bytes = {
        let yb = [false, true, true];
        let zb = [false, true, true, false, true];
        triples_bytes(&yb, &zb, &[1, 2, 1], &[1, 3, 2, 2, 3])
    };
    let sect = TripleSect::read(&tb_bytes, 0, &bitmap_ci("1")).unwrap().0;
    assert_eq!(sect.triples_with_s(1).unwrap(), vec![t(1, 1, 1), t(1, 1, 3), t(1, 2, 2)]);
    assert_eq!(sect.triples_with_p(2).unwrap(), vec![t(1, 2, 2)]);
    assert_eq!(sect.triples_with_o(3).unwrap(), vec![t(1, 1, 3), t(2, 1, 3)]);
}

#[test]
fn missing_or_bad_order_is_rejected() {
    let yb = [true];
    let zb = [true];
    let bytes = triples_bytes(&yb, &zb, &[1], &[1]);
    let no_order =
        ControlInfo { format: b"<http://purl.org/HDT/hdt#triplesBitmap>".to_vec(), order: None };
    assert!(matches!(TriplesBitmap::read(&bytes, 0, &no_order), Err(ReadError::InvalidOrder)));
    assert!(matches!(
        TriplesBitmap::read(&bytes, 0, &bitmap_ci("x")),
        Err(ReadError::InvalidOrder)
    ));
    assert!(matches!(
        TriplesBitmap::read(&bytes, 0, &bitmap_ci("7")),
        Err(ReadError::InvalidOrder)
    ));
    assert!(matches!(
        TriplesBitmap::read(&bytes, 0, &bitmap_ci("")),
        Err(ReadError::InvalidOrder)
    ));
}

#[test]
fn triple_id_new_fields() {
    let tr = TripleId::new(3, 4, 5);
    assert_eq!(tr.subject_id, 3);
    assert_eq!(tr.predicate_id, 4);
    assert_eq!(tr.object_id, 5);
}
