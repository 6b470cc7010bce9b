use quiche4j_jni::varint::{decode_varint, encode_varint, encoded_len};

fn encoded(v: u64) -> Vec<u8> {
    let mut buf = Vec::new();
    encode_varint(&mut buf, v);
    buf
}

#[test]
fn encodes_rfc9000_examples() {
    assert_eq!(encoded(37), vec![0x25]);
    assert_eq!(encoded(15293), vec![0x7b, 0xbd]);
    assert_eq!(encoded(494878333), vec![0x9d, 0x7f, 0x3e, 0x7d]);
    assert_eq!(
        encoded(151288809941952652),
        vec![0xc2, 0x19, 0x7c, 0x5e, 0xff, 0x14, 0xe8, 0x8c]
    );
}

#[test]
fn encodes_at_the_form_boundaries() {
    assert_eq!(encoded(0), vec![0x00]);
    assert_eq!(encoded(63), vec![0x3f]);
    assert_eq!(encoded(64), vec![0x40, 0x40]);
    assert_eq!(encoded(16383), vec![0x7f, 0xff]);
    assert_eq!(encoded(16384), vec![0x80, 0x00, 0x40, 0x00]);
    assert_eq!(encoded(0x3fff_ffff), vec![0xbf, 0xff, 0xff, 0xff]);
    assert_eq!(encoded(0x4000_0000), vec![0xc0, 0, 0, 0, 0x40, 0, 0, 0]);
    assert_eq!(
        encoded(0x3fff_ffff_ffff_ffff),
        vec![0xff, 0xff, 0xff, 0xff, 0xff, 0xff, 0xff, 0xff]
    );
}

#[test]
fn encode_appends_to_what_is_there() {
    let mut buf = vec![9u8, 8];
    encode_varint(&mut buf, 0x41);
    encode_varint(&mut buf, 4);
    assert_eq!(buf, vec![9, 8, 0x40, 0x41, 0x04]);
}

#[test]
fn decodes_rfc9000_examples() {
    assert_eq!(decode_varint(&[0x25]), Some((37, 1)));
    assert_eq!(decode_varint(&[0x7b, 0xbd]), Some((15293, 2)));
    assert_eq!(decode_varint(&[0x9d, 0x7f, 0x3e, 0x7d]), Some((494878333, 4)));
    assert_eq!(
        decode_varint(&[0xc2, 0x19, 0x7c, 0x5e, 0xff, 0x14, 0xe8, 0x8c]),
        Some((151288809941952652, 8))
    );
    // A longer form than needed still decodes (RFC 9000, section 16).
    assert_eq!(decode_varint(&[0x40, 0x25]), Some((37, 2)));
}

#[test]
fn decode_ignores_what_follows() {
    assert_eq!(decode_varint(&[0x25, 0xff, 0xff]), Some((37, 1)));
    assert_eq!(decode_varint(&[0x7b, 0xbd, 0x01]), Some((15293, 2)));
}

#[test]
fn decode_refuses_short_input() {
    assert_eq!(decode_varint(&[]), None);
    assert_eq!(decode_varint(&[0x40]), None);
    assert_eq!(decode_varint(&[0x9d, 0x7f, 0x3e]), None);
    assert_eq!(decode_varint(&[0xc2, 0x19, 0x7c, 0x5e, 0xff, 0x14, 0xe8]), None);
}

#[test]
fn roundtrip_on_values_that_fit() {
    for v in [0u64, 1, 37, 63, 64, 0x41, 0x54, 15293, 16383, 16384, 494878333, 0x3fff_ffff, 0x4000_0000, 151288809941952652, 0x3fff_ffff_ffff_ffff] {
        let mut buf = encoded(v);
        let n = buf.len();
        buf.extend_from_slice(&[0xaa, 0xbb]);
        assert_eq!(decode_varint(&buf), Some((v, n)));
    }
}

#[test]
fn roundtrip_fails_above_two_to_the_62() {
    // 2^62 does not fit: its encoding keeps only the low 62 bits.
    assert_eq!(encoded(1 << 62), vec![0xc0, 0, 0, 0, 0, 0, 0, 0]);
    assert_eq!(decode_varint(&encoded(1 << 62)), Some((0, 8)));
    assert_eq!(decode_varint(&encoded(u64::MAX)), Some((0x3fff_ffff_ffff_ffff, 8)));
}

#[test]
fn encoded_len_reads_the_two_top_bits() {
    assert_eq!(encoded_len(0x00), 1);
    assert_eq!(encoded_len(0x3f), 1);
    assert_eq!(encoded_len(0x40), 2);
    assert_eq!(encoded_len(0x7f), 2);
    assert_eq!(encoded_len(0x80), 4);
    assert_eq!(encoded_len(0xbf), 4);
    assert_eq!(encoded_len(0xc0), 8);
    assert_eq!(encoded_len(0xff), 8);
}
