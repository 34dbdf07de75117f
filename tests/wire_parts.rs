use client_hello::codec::{byte_at, encoded_len};
use client_hello::vector::{be_byte_at, read_be, VectorBounds};
use client_hello::{ClientHello, Field};

#[test]
fn prefix_widths_follow_the_ceiling() {
    assert_eq!(Field::ProtocolVersion.bounds().prefix_width(), 0);
    assert_eq!(Field::Random.bounds().prefix_width(), 0);
    assert_eq!(Field::LegacySessionId.bounds().prefix_width(), 1);
    assert_eq!(Field::CipherSuites.bounds().prefix_width(), 2);
    assert_eq!(Field::LegacyCompressionMethods.bounds().prefix_width(), 1);
    assert_eq!(Field::Extensions.bounds().prefix_width(), 2);
    let wide = VectorBounds { floor: 0, ceiling: 0x1_0000, unit: 1 };
    assert_eq!(wide.prefix_width(), 3);
    let widest = VectorBounds { floor: 0, ceiling: 0x100_0000, unit: 1 };
    assert_eq!(widest.prefix_width(), 4);
}

#[test]
fn admits_len_checks_range_and_unit() {
    let b = Field::CipherSuites.bounds();
    assert!(!b.admits_len(0));
    assert!(b.admits_len(2));
    assert!(!b.admits_len(3));
    assert!(b.admits_len(0xfffe));
    assert!(!b.admits_len(0x1_0000));
}

#[test]
fn fields_in_wire_order() {
    assert_eq!(Field::at(0), Field::ProtocolVersion);
    assert_eq!(Field::at(2), Field::LegacySessionId);
    assert_eq!(Field::at(5), Field::Extensions);
}

#[test]
fn big_endian_helpers() {
    assert_eq!(be_byte_at(0x012c, 2, 0), 0x01);
    assert_eq!(be_byte_at(0x012c, 2, 1), 0x2c);
    assert_eq!(be_byte_at(0x0a0b0c0d, 4, 1), 0x0b);
    assert_eq!(read_be(&[0xff, 0x01, 0x2c, 0x00], 1, 2), 0x012c);
    assert_eq!(read_be(&[0x0a, 0x0b, 0x0c, 0x0d], 0, 4), 0x0a0b0c0d);
    assert_eq!(read_be(&[0x0a], 1, 0), 0);
}

#[test]
fn byte_at_walks_the_fields() {
    let m = ClientHello::new();
    assert_eq!(encoded_len(&m), 43);
    assert_eq!(byte_at(&m, 0), Some(0x03));
    assert_eq!(byte_at(&m, 36), Some(0x02));
    assert_eq!(byte_at(&m, 37), Some(0x13));
    assert_eq!(byte_at(&m, 38), Some(0x01));
    assert_eq!(byte_at(&m, 42), Some(0x00));
    assert_eq!(byte_at(&m, 43), None);
}

#[test]
fn payload_gives_each_field() {
    let m = ClientHello::new().with_legacy_session_id(vec![9, 8]).unwrap();
    assert_eq!(m.payload(Field::ProtocolVersion), &[0x03, 0x03]);
    assert_eq!(m.payload(Field::LegacySessionId), &[9, 8]);
    assert_eq!(m.payload(Field::CipherSuites), &[0x13, 0x01]);
}
