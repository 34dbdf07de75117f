use client_hello::{
    ClientHello, ClientHelloIterator, DecodeErrorKind, DecodingError, EncodingError, Field,
    ValidationError,
};

fn drain(mut stream: ClientHelloIterator) -> Vec<u8> {
    let mut bytes = Vec::new();
    while let Some(b) = stream.next() {
        bytes.push(b);
    }
    bytes
}

fn sample() -> ClientHello {
    let mut random = [0u8; 32];
    for (i, r) in random.iter_mut().enumerate() {
        *r = i as u8 + 1;
    }
    ClientHello::new()
        .with_random(random)
        .with_legacy_session_id(vec![0xaa; 16])
        .unwrap()
        .with_cipher_suites(vec![0x13, 0x01, 0x13, 0x02, 0xc0, 0x2f])
        .unwrap()
        .with_extensions(vec![0x00, 0x2b, 0x00, 0x03, 0x02, 0x03, 0x04])
        .unwrap()
}

#[test]
fn client_hello_iteration() {
    let hello = ClientHello::new();
    let protocol = hello.protocol_version.clone();
    let random = hello.random.clone();
    let legacy_session_id = hello.legacy_session_id.clone();
    let cipher_suites = hello.cipher_suites.clone();
    let legacy_compression_methods = hello.legacy_compression_methods.clone();
    let extensions = hello.extensions.clone();

    let hello_iter = hello.into_stream().unwrap();
    let iter_bytes = drain(hello_iter);

    assert_eq!(protocol, iter_bytes[0..=1]);
    assert_eq!(random, iter_bytes[2..=33]);
    assert_eq!(iter_bytes[34] as usize, legacy_session_id.len());
    assert_eq!(legacy_session_id, iter_bytes[35..35]);
    assert_eq!(iter_bytes[35..=36], [0x00, 0x02]);
    assert_eq!(cipher_suites, iter_bytes[37..=38]);
    assert_eq!(iter_bytes[39], 0x01);
    assert_eq!(legacy_compression_methods, iter_bytes[40..=40]);
    assert_eq!(iter_bytes[41..=42], [0x00, 0x00]);
    assert_eq!(extensions, iter_bytes[43..]);
}

#[test]
fn default_message_encodes_to_known_bytes() {
    let mut expected = vec![0x03, 0x03];
    expected.extend_from_slice(&[0u8; 32]);
    expected.extend_from_slice(&[0x00, 0x00, 0x02, 0x13, 0x01, 0x01, 0x00, 0x00, 0x00]);
    let bytes = ClientHello::new().encode().unwrap();
    assert_eq!(bytes.len(), 43);
    assert_eq!(bytes, expected);
}

#[test]
fn default_message_fields() {
    let m = ClientHello::new();
    assert_eq!(m.protocol_version, [0x03, 0x03]);
    assert_eq!(m.random, [0u8; 32]);
    assert!(m.legacy_session_id.is_empty());
    assert_eq!(m.cipher_suites, vec![0x13, 0x01]);
    assert_eq!(m.legacy_compression_methods, vec![0x00]);
    assert!(m.extensions.is_empty());
    assert_eq!(m.first_violation(), None);
}

#[test]
fn round_trip_default() {
    let m = ClientHello::new();
    let bytes = m.encode().unwrap();
    assert_eq!(ClientHello::decode(&bytes), Ok(m));
}

#[test]
fn round_trip_populated() {
    let m = sample();
    let bytes = m.encode().unwrap();
    assert_eq!(bytes.len(), 2 + 32 + 1 + 16 + 2 + 6 + 1 + 1 + 2 + 7);
    assert_eq!(ClientHello::decode(&bytes), Ok(m));
}

#[test]
fn fixed_fields_keep_their_place() {
    for sid_len in [0usize, 7, 32] {
        let m = sample()
            .with_protocol_version([0x03, 0x04])
            .with_legacy_session_id(vec![0x55; sid_len])
            .unwrap();
        let bytes = m.encode().unwrap();
        assert_eq!(bytes[0..=1], [0x03, 0x04]);
        assert_eq!(bytes[2..=33], m.random);
    }
}

#[test]
fn session_id_prefix_is_its_length() {
    for len in [0usize, 1, 31, 32] {
        let sid: Vec<u8> = (0..len).map(|i| i as u8).collect();
        let m = ClientHello::new().with_legacy_session_id(sid.clone()).unwrap();
        let bytes = m.encode().unwrap();
        assert_eq!(bytes[34] as usize, len);
        assert_eq!(bytes[35..35 + len], sid[..]);
    }
}

#[test]
fn session_id_too_long_is_rejected() {
    let r = ClientHello::new().with_legacy_session_id(vec![0; 33]);
    assert_eq!(r, Err(ValidationError { field: Field::LegacySessionId }));
}

#[test]
fn cipher_suites_out_of_range_are_rejected() {
    for len in [0usize, 0xffff] {
        let r = ClientHello::new().with_cipher_suites(vec![0x13; len]);
        assert_eq!(r, Err(ValidationError { field: Field::CipherSuites }));
        let mut m = ClientHello::new();
        m.cipher_suites = vec![0x13; len];
        assert_eq!(m.encode(), Err(EncodingError { field: Field::CipherSuites }));
        assert_eq!(m.first_violation(), Some(Field::CipherSuites));
        assert!(m.into_stream().is_err());
    }
}

#[test]
fn cipher_suites_of_odd_length_are_rejected() {
    let r = ClientHello::new().with_cipher_suites(vec![0x13, 0x01, 0x13]);
    assert_eq!(r, Err(ValidationError { field: Field::CipherSuites }));
}

#[test]
fn cipher_suites_largest_list_is_accepted() {
    let m = ClientHello::new().with_cipher_suites(vec![0xc0; 0xfffe]).unwrap();
    let bytes = m.encode().unwrap();
    assert_eq!(bytes[35..=36], [0xff, 0xfe]);
    assert_eq!(ClientHello::decode(&bytes), Ok(m));
}

#[test]
fn cipher_suites_prefix_is_big_endian() {
    let m = ClientHello::new().with_cipher_suites(vec![0x13; 300]).unwrap();
    let bytes = m.encode().unwrap();
    assert_eq!(bytes[35..=36], [0x01, 0x2c]);
}

#[test]
fn encode_names_first_bad_field() {
    let mut m = ClientHello::new();
    m.legacy_compression_methods = Vec::new();
    m.legacy_session_id = vec![1; 40];
    assert_eq!(m.encode(), Err(EncodingError { field: Field::LegacySessionId }));
}

#[test]
fn compression_methods_bounds_are_accepted() {
    for len in [1usize, 255] {
        let m = ClientHello::new()
            .with_legacy_compression_methods(vec![0x00; len])
            .unwrap();
        let bytes = m.encode().unwrap();
        assert_eq!(bytes[39] as usize, len);
        assert_eq!(ClientHello::decode(&bytes), Ok(m));
    }
}

#[test]
fn compression_methods_out_of_range_are_rejected() {
    for len in [0usize, 256] {
        let r = ClientHello::new().with_legacy_compression_methods(vec![0x00; len]);
        assert_eq!(r, Err(ValidationError { field: Field::LegacyCompressionMethods }));
    }
}

#[test]
fn extensions_largest_size() {
    let m = ClientHello::new().with_extensions(vec![0x01; 0xffff]).unwrap();
    let bytes = m.encode().unwrap();
    assert_eq!(bytes.len(), 43 + 0xffff);
    assert_eq!(bytes[41..=42], [0xff, 0xff]);
    assert_eq!(ClientHello::decode(&bytes), Ok(m));
    let r = ClientHello::new().with_extensions(vec![0x01; 0x10000]);
    assert_eq!(r, Err(ValidationError { field: Field::Extensions }));
}

#[test]
fn stream_matches_encode() {
    let m = sample();
    let bulk = m.encode().unwrap();
    let streamed = drain(m.into_stream().unwrap());
    assert_eq!(streamed, bulk);
}

#[test]
fn read_in_chunks_matches_encode() {
    let m = sample();
    let bulk = m.encode().unwrap();
    let mut stream = m.into_stream().unwrap();
    let mut out = Vec::new();
    let mut buf = [0u8; 5];
    loop {
        let n = stream.read(&mut buf);
        out.extend_from_slice(&buf[..n]);
        if n < buf.len() {
            break;
        }
    }
    assert_eq!(out, bulk);
    assert_eq!(stream.read(&mut buf), 0);
    assert_eq!(stream.next(), None);
}

#[test]
fn read_into_empty_buffer() {
    let mut stream = ClientHello::new().into_stream().unwrap();
    let mut empty: [u8; 0] = [];
    assert_eq!(stream.read(&mut empty), 0);
    assert_eq!(stream.next(), Some(0x03));
}

#[test]
fn truncated_session_id_is_rejected() {
    let m = ClientHello::new().with_legacy_session_id(vec![0x77; 10]).unwrap();
    let bytes = m.encode().unwrap();
    for end in 35..45 {
        assert_eq!(
            ClientHello::decode(&bytes[..end]),
            Err(DecodingError {
                field: Field::LegacySessionId,
                offset: 34,
                kind: DecodeErrorKind::LengthExceedsInput,
            })
        );
    }
    assert_eq!(
        ClientHello::decode(&bytes[..34]),
        Err(DecodingError { field: Field::LegacySessionId, offset: 34, kind: DecodeErrorKind::Truncated })
    );
}

#[test]
fn truncated_fixed_fields_are_rejected() {
    let bytes = ClientHello::new().encode().unwrap();
    assert_eq!(
        ClientHello::decode(&[]),
        Err(DecodingError { field: Field::ProtocolVersion, offset: 0, kind: DecodeErrorKind::Truncated })
    );
    assert_eq!(
        ClientHello::decode(&bytes[..20]),
        Err(DecodingError { field: Field::Random, offset: 2, kind: DecodeErrorKind::Truncated })
    );
    assert_eq!(
        ClientHello::decode(&bytes[..36]),
        Err(DecodingError { field: Field::CipherSuites, offset: 35, kind: DecodeErrorKind::Truncated })
    );
}

#[test]
fn declared_length_out_of_range_is_rejected() {
    let mut bytes = ClientHello::new().encode().unwrap();
    bytes[34] = 33;
    assert_eq!(
        ClientHello::decode(&bytes),
        Err(DecodingError { field: Field::LegacySessionId, offset: 34, kind: DecodeErrorKind::LengthOutOfRange })
    );
    let mut bytes = ClientHello::new().encode().unwrap();
    bytes[36] = 0x03;
    assert_eq!(
        ClientHello::decode(&bytes),
        Err(DecodingError { field: Field::CipherSuites, offset: 35, kind: DecodeErrorKind::LengthOutOfRange })
    );
    let mut bytes = ClientHello::new().encode().unwrap();
    bytes[39] = 0;
    assert_eq!(
        ClientHello::decode(&bytes),
        Err(DecodingError {
            field: Field::LegacyCompressionMethods,
            offset: 39,
            kind: DecodeErrorKind::LengthOutOfRange,
        })
    );
}

#[test]
fn trailing_bytes_are_rejected() {
    let mut bytes = ClientHello::new().encode().unwrap();
    bytes.push(0);
    assert_eq!(
        ClientHello::decode(&bytes),
        Err(DecodingError { field: Field::Extensions, offset: 43, kind: DecodeErrorKind::TrailingBytes })
    );
}
