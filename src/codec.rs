//! Wire codec: the ClientHello's byte form, its decoder and its encoder.
use crate::message::{ClientHello, ClientHelloView, Field, FIELD_COUNT};
use crate::vector::{
    be_byte_at, be_bytes, be_value, lemma_be_byte, lemma_be_bytes_len, lemma_be_bytes_of_value,
    lemma_be_round_trip,
    lemma_ceiling_fits, radix, read_be,
};
use vstd::prelude::*;

verus! {

/// Why a byte sequence is not a ClientHello.
#[derive(Clone, Copy, Debug, PartialEq, Eq, Structural)]
pub enum DecodeErrorKind {
    /// The input ends inside a length prefix or a fixed-size field.
    Truncated,
    /// A declared length breaks the field's size rule.
    LengthOutOfRange,
    /// A declared length runs past the end of the input.
    LengthExceedsInput,
    /// Bytes remain after the last field.
    TrailingBytes,
}

/// Malformed or truncated input: the offending field, the offset at which
/// that field (or, for trailing bytes, the excess) starts, and the reason.
#[derive(Clone, Copy, Debug, PartialEq, Eq, Structural)]
pub struct DecodingError {
    pub field: Field,
    pub offset: usize,
    pub kind: DecodeErrorKind,
}

/// A field breaks its size rule when the message is encoded.
#[derive(Clone, Copy, Debug, PartialEq, Eq, Structural)]
pub struct EncodingError {
    pub field: Field,
}

/// The wire form of the fields of `m` from position `k` of the wire order on.
pub open spec fn serialize_from(m: ClientHelloView, k: nat) -> Seq<u8>
    decreases FIELD_COUNT - k,
{
    if k >= FIELD_COUNT {
        Seq::empty()
    } else {
        let f = Field::spec_at(k);
        f.spec_bounds().encoded(m.payload(f)) + serialize_from(m, k + 1)
    }
}

/// The wire form of `m`: each field in wire order, a variable-length one
/// behind its length prefix.
pub open spec fn serialize(m: ClientHelloView) -> Seq<u8> {
    serialize_from(m, 0)
}

/// The error for field `f` at offset `pos`.
pub open spec fn decoding_error(f: Field, pos: nat, kind: DecodeErrorKind) -> DecodingError {
    DecodingError { field: f, offset: pos as usize, kind }
}

/// Reads field `f` at `pos`: its payload and the position after it.
pub open spec fn parse_field(f: Field, s: Seq<u8>, pos: nat) -> Result<(Seq<u8>, nat), DecodingError> {
    let b = f.spec_bounds();
    let w = b.width();
    if pos + w > s.len() {
        Err(decoding_error(f, pos, DecodeErrorKind::Truncated))
    } else {
        let n = if b.is_fixed() {
            b.ceiling as nat
        } else {
            be_value(s.subrange(pos as int, (pos + w) as int))
        };
        if !b.admits(n) {
            Err(decoding_error(f, pos, DecodeErrorKind::LengthOutOfRange))
        } else if pos + w + n > s.len() {
            Err(
                decoding_error(
                    f,
                    pos,
                    if b.is_fixed() {
                        DecodeErrorKind::Truncated
                    } else {
                        DecodeErrorKind::LengthExceedsInput
                    },
                ),
            )
        } else {
            Ok((s.subrange((pos + w) as int, (pos + w + n) as int), pos + w + n))
        }
    }
}

/// Reads the fields from position `k` of the wire order on, the first at
/// `pos`; the input must end right after the last field.
pub open spec fn parse_from(s: Seq<u8>, k: nat, pos: nat) -> Result<Seq<Seq<u8>>, DecodingError>
    decreases FIELD_COUNT - k,
{
    if k >= FIELD_COUNT {
        if pos == s.len() {
            Ok(Seq::empty())
        } else {
            Err(decoding_error(Field::Extensions, pos, DecodeErrorKind::TrailingBytes))
        }
    } else {
        match parse_field(Field::spec_at(k), s, pos) {
            Err(e) => Err(e),
            Ok((p, next)) => prepend(seq![p], parse_from(s, k + 1, next)),
        }
    }
}

/// `ps` in front of the payloads of a successful read; an error unchanged.
pub open spec fn prepend(ps: Seq<Seq<u8>>, r: Result<Seq<Seq<u8>>, DecodingError>) -> Result<
    Seq<Seq<u8>>,
    DecodingError,
> {
    match r {
        Ok(rest) => Ok(ps + rest),
        Err(e) => Err(e),
    }
}

/// The message whose fields, in wire order, hold `ps`.
pub open spec fn from_payloads(ps: Seq<Seq<u8>>) -> ClientHelloView {
    ClientHelloView {
        protocol_version: ps[0],
        random: ps[1],
        legacy_session_id: ps[2],
        cipher_suites: ps[3],
        legacy_compression_methods: ps[4],
        extensions: ps[5],
    }
}

/// The message that `s` encodes, or why it encodes none.
pub open spec fn parse(s: Seq<u8>) -> Result<ClientHelloView, DecodingError> {
    match parse_from(s, 0, 0) {
        Ok(ps) => Ok(from_payloads(ps)),
        Err(e) => Err(e),
    }
}

/// Reads field `f` at `pos`: its payload and the position after it.
pub fn read_field(bytes: &[u8], pos: usize, f: Field) -> (r: Result<(Vec<u8>, usize), DecodingError>)
    requires
        pos <= bytes@.len(),
    ensures
        match r {
            Ok((p, next)) => parse_field(f, bytes@, pos as nat) == Ok::<_, DecodingError>((p@, next as nat)),
            Err(e) => parse_field(f, bytes@, pos as nat) == Err::<(Seq<u8>, nat), _>(e),
        },
{
    let b = f.bounds();
    let len = bytes.len();
    let w = b.prefix_width();
    proof {
        if !b.is_fixed() {
            lemma_ceiling_fits(b);
        }
    }
    if w > len - pos {
        return Err(DecodingError { field: f, offset: pos, kind: DecodeErrorKind::Truncated });
    }
    let n: usize;
    if w == 0 {
        n = b.ceiling;
    } else {
        let declared = read_be(bytes, pos, w);
        if declared > b.ceiling as u64 {
            return Err(
                DecodingError { field: f, offset: pos, kind: DecodeErrorKind::LengthOutOfRange },
            );
        }
        n = declared as usize;
    }
    if !b.admits_len(n) {
        return Err(
            DecodingError { field: f, offset: pos, kind: DecodeErrorKind::LengthOutOfRange },
        );
    }
    if n > len - pos - w {
        let kind = if w == 0 {
            DecodeErrorKind::Truncated
        } else {
            DecodeErrorKind::LengthExceedsInput
        };
        return Err(DecodingError { field: f, offset: pos, kind });
    }
    let start = pos + w;
    let payload = vstd::slice::slice_to_vec(vstd::slice::slice_subrange(bytes, start, start + n));
    Ok((payload, start + n))
}


proof fn lemma_prepend_push(ps: Seq<Seq<u8>>, p: Seq<u8>, r: Result<Seq<Seq<u8>>, DecodingError>)
    ensures
        prepend(ps, prepend(seq![p], r)) == prepend(ps.push(p), r),
{
    if let Ok(rest) = r {
        assert(ps + (seq![p] + rest) =~= ps.push(p) + rest);
    }
}



/// The payloads of `m` from position `k` of the wire order on.
pub open spec fn payloads_from(m: ClientHelloView, k: nat) -> Seq<Seq<u8>> {
    Seq::new((FIELD_COUNT - k) as nat, |i: int| m.payload(Field::spec_at((k + i) as nat)))
}

/// A field read at the start of its own wire form gives its payload back.
pub proof fn lemma_parse_field_encoded(f: Field, s: Seq<u8>, pos: nat, p: Seq<u8>)
    requires
        f.spec_bounds().admits(p.len()),
        pos + f.spec_bounds().encoded(p).len() <= s.len(),
        s.subrange(pos as int, (pos + f.spec_bounds().encoded(p).len()) as int) == f.spec_bounds().encoded(
            p,
        ),
    ensures
        parse_field(f, s, pos) == Ok::<_, DecodingError>(
            (p, pos + f.spec_bounds().encoded(p).len()),
        ),
{
    let b = f.spec_bounds();
    let w = b.width();
    let enc = b.encoded(p);
    lemma_be_bytes_len(p.len(), w);
    assert(s.subrange(pos as int, (pos + w) as int) =~= enc.subrange(0, w as int));
    assert(enc.subrange(0, w as int) =~= be_bytes(p.len(), w));
    if !b.is_fixed() {
        lemma_ceiling_fits(b);
        lemma_be_round_trip(p.len(), w);
    }
    assert(s.subrange((pos + w) as int, (pos + w + p.len()) as int) =~= enc.subrange(w as int, enc.len() as int));
    assert(enc.subrange(w as int, enc.len() as int) =~= p);
}

/// The fields of a valid message read back from their wire form, provided
/// the input ends where that form ends.
pub proof fn lemma_parse_serialize_from(m: ClientHelloView, k: nat, s: Seq<u8>, pos: nat)
    requires
        m.valid(),
        k <= FIELD_COUNT,
        pos <= s.len(),
        s.subrange(pos as int, s.len() as int) == serialize_from(m, k),
    ensures
        parse_from(s, k, pos) == Ok::<_, DecodingError>(payloads_from(m, k)),
    decreases FIELD_COUNT - k,
{
    if k == FIELD_COUNT {
        assert(payloads_from(m, k) =~= Seq::empty());
    } else {
        let f = Field::spec_at(k);
        let p = m.payload(f);
        let enc = f.spec_bounds().encoded(p);
        let rest = serialize_from(m, k + 1);
        assert(m.field_ok(f));
        assert(serialize_from(m, k) == enc + rest);
        let tail = s.subrange(pos as int, s.len() as int);
        assert(tail.len() == enc.len() + rest.len());
        assert(tail.subrange(enc.len() as int, tail.len() as int) =~= rest);
        assert(s.subrange(pos as int, (pos + enc.len()) as int) =~= s.subrange(
            pos as int,
            s.len() as int,
        ).subrange(0, enc.len() as int));
        assert(s.subrange(pos as int, s.len() as int).subrange(0, enc.len() as int) =~= enc);
        lemma_parse_field_encoded(f, s, pos, p);
        let next = pos + enc.len();
        assert(s.subrange(next as int, s.len() as int) =~= rest);
        lemma_parse_serialize_from(m, k + 1, s, next);
        assert(seq![p] + payloads_from(m, k + 1) =~= payloads_from(m, k));
    }
}

/// Decoding the wire form of a valid message gives back that message.
pub proof fn lemma_round_trip(m: ClientHelloView)
    requires
        m.valid(),
    ensures
        parse(serialize(m)) == Ok::<_, DecodingError>(m),
{
    let s = serialize(m);
    assert(s.subrange(0, s.len() as int) =~= s);
    lemma_parse_serialize_from(m, 0, s, 0);
}

/// What a field reads from is its own wire form.
pub proof fn lemma_parse_field_canonical(f: Field, s: Seq<u8>, pos: nat)
    requires
        parse_field(f, s, pos) is Ok,
    ensures
        ({
            let (p, next) = parse_field(f, s, pos)->Ok_0;
            &&& pos <= next <= s.len()
            &&& f.spec_bounds().admits(p.len())
            &&& s.subrange(pos as int, next as int) == f.spec_bounds().encoded(p)
        }),
{
    let b = f.spec_bounds();
    let w = b.width();
    let (p, next) = parse_field(f, s, pos)->Ok_0;
    let t = s.subrange(pos as int, (pos + w) as int);
    if b.is_fixed() {
        assert(be_bytes(p.len(), 0) =~= Seq::<u8>::empty());
    } else {
        lemma_be_bytes_of_value(t);
    }
    assert(s.subrange(pos as int, next as int) =~= t + p);
}

/// How many payloads the fields from position `k` on read.
pub proof fn lemma_parse_from_len(s: Seq<u8>, k: nat, pos: nat)
    requires
        k <= FIELD_COUNT,
        parse_from(s, k, pos) is Ok,
    ensures
        parse_from(s, k, pos)->Ok_0.len() == FIELD_COUNT - k,
    decreases FIELD_COUNT - k,
{
    if k < FIELD_COUNT {
        let (p, next) = parse_field(Field::spec_at(k), s, pos)->Ok_0;
        lemma_parse_from_len(s, k + 1, next);
    }
}

/// Fields read from position `k` on are exactly the rest of the input.
pub proof fn lemma_parse_from_canonical(m: ClientHelloView, s: Seq<u8>, k: nat, pos: nat)
    requires
        k <= FIELD_COUNT,
        parse_from(s, k, pos) == Ok::<_, DecodingError>(payloads_from(m, k)),
    ensures
        pos <= s.len(),
        s.subrange(pos as int, s.len() as int) == serialize_from(m, k),
        forall|j: nat| k <= j < FIELD_COUNT ==> m.field_ok(#[trigger] Field::spec_at(j)),
    decreases FIELD_COUNT - k,
{
    if k == FIELD_COUNT {
        assert(s.subrange(pos as int, s.len() as int) =~= Seq::<u8>::empty());
    } else {
        let f = Field::spec_at(k);
        lemma_parse_field_canonical(f, s, pos);
        let (p, next) = parse_field(f, s, pos)->Ok_0;
        let rest = parse_from(s, k + 1, next)->Ok_0;
        assert(seq![p] + rest == payloads_from(m, k));
        assert(p == (seq![p] + rest)[0]);
        assert(rest =~= payloads_from(m, k + 1)) by {
            assert(rest =~= (seq![p] + rest).subrange(1, (FIELD_COUNT - k) as int));
        }
        lemma_parse_from_canonical(m, s, k + 1, next);
        assert(s.subrange(pos as int, s.len() as int) =~= s.subrange(pos as int, next as int)
            + s.subrange(next as int, s.len() as int));
    }
}

/// Decoding accepts only the exact wire form of what it returns: a message
/// that decodes re-encodes to the same bytes, and is valid.
pub proof fn lemma_decode_canonical(s: Seq<u8>)
    requires
        parse(s) is Ok,
    ensures
        parse(s)->Ok_0.valid(),
        serialize(parse(s)->Ok_0) == s,
{
    let m = parse(s)->Ok_0;
    let ps = parse_from(s, 0, 0)->Ok_0;
    lemma_parse_from_len(s, 0, 0);
    assert(ps =~= payloads_from(m, 0));
    lemma_parse_from_canonical(m, s, 0, 0);
    assert(s.subrange(0, s.len() as int) =~= s);
    let ok = |i: nat| m.field_ok(Field::spec_at(i));
    assert(ok(0) && ok(1) && ok(2) && ok(3) && ok(4) && ok(5));
}

/// Byte `i` of the wire form of the fields from position `k` on, found one
/// field at a time: inside a length prefix by division of the payload's
/// length, inside a payload by indexing; `None` past the end.
pub open spec fn byte_from(m: ClientHelloView, k: nat, i: nat) -> Option<u8>
    decreases FIELD_COUNT - k,
{
    if k >= FIELD_COUNT {
        None
    } else {
        let f = Field::spec_at(k);
        let w = f.spec_bounds().width();
        let p = m.payload(f);
        if i < w {
            Some(((p.len() / radix((w - 1 - i) as nat)) % 256) as u8)
        } else if i < w + p.len() {
            Some(p[i - w])
        } else {
            byte_from(m, k + 1, (i - w - p.len()) as nat)
        }
    }
}

/// Byte `i` of the wire form of `m` as the lazy producer finds it.
pub open spec fn stream_byte(m: ClientHelloView, i: nat) -> Option<u8> {
    byte_from(m, 0, i)
}

/// Finding bytes one field at a time agrees with the wire form.
pub proof fn lemma_byte_from(m: ClientHelloView, k: nat, i: nat)
    requires
        k <= FIELD_COUNT,
    ensures
        i < serialize_from(m, k).len() ==> byte_from(m, k, i) == Some(serialize_from(m, k)[i as int]),
        i >= serialize_from(m, k).len() ==> byte_from(m, k, i) is None,
    decreases FIELD_COUNT - k,
{
    if k < FIELD_COUNT {
        let f = Field::spec_at(k);
        let w = f.spec_bounds().width();
        let p = m.payload(f);
        lemma_be_bytes_len(p.len(), w);
        if i < w {
            lemma_be_byte(p.len(), w, i);
        } else if i >= w + p.len() {
            lemma_byte_from(m, k + 1, (i - w - p.len()) as nat);
        }
    }
}

/// The lazily produced bytes of a message are its wire form, byte for byte,
/// and the producer ends exactly where the wire form ends.
pub proof fn lemma_stream_matches_serialize(m: ClientHelloView, i: nat)
    ensures
        i < serialize(m).len() ==> stream_byte(m, i) == Some(serialize(m)[i as int]),
        i >= serialize(m).len() ==> stream_byte(m, i) is None,
{
    lemma_byte_from(m, 0, i);
}

/// The wire form of a valid message is short: every field is.
pub proof fn lemma_serialize_from_len(m: ClientHelloView, k: nat)
    requires
        m.valid(),
        k <= FIELD_COUNT,
    ensures
        serialize_from(m, k).len() <= (FIELD_COUNT - k) * 0x1_0003,
    decreases FIELD_COUNT - k,
{
    if k < FIELD_COUNT {
        let f = Field::spec_at(k);
        assert(m.field_ok(f));
        lemma_be_bytes_len(m.payload(f).len(), f.spec_bounds().width());
        lemma_serialize_from_len(m, k + 1);
    }
}

/// Byte `i` of the wire form of a valid message, or `None` past its end.
pub fn byte_at(m: &ClientHello, i: usize) -> (r: Option<u8>)
    requires
        m@.valid(),
    ensures
        r == stream_byte(m@, i as nat),
{
    let mut k: usize = 0;
    let mut rem: usize = i;
    while k < FIELD_COUNT
        invariant
            m@.valid(),
            k <= FIELD_COUNT,
            byte_from(m@, 0, i as nat) == byte_from(m@, k as nat, rem as nat),
        decreases FIELD_COUNT - k,
    {
        let f = Field::at(k);
        let w = f.bounds().prefix_width();
        let p = m.payload(f);
        let n = p.len();
        assert(m@.field_ok(f));
        if rem < w {
            proof {
                lemma_be_byte(n as nat, w as nat, rem as nat);
            }
            return Some(be_byte_at(n, w, rem));
        }
        if rem - w < n {
            return Some(p[rem - w]);
        }
        rem = rem - w - n;
        k = k + 1;
    }
    None
}

/// Length of the wire form of a valid message.
pub fn encoded_len(m: &ClientHello) -> (r: usize)
    requires
        m@.valid(),
    ensures
        r == serialize(m@).len(),
{
    proof {
        lemma_serialize_from_len(m@, 0);
    }
    let mut total: usize = 0;
    let mut k: usize = 0;
    while k < FIELD_COUNT
        invariant
            m@.valid(),
            k <= FIELD_COUNT,
            total + serialize_from(m@, k as nat).len() == serialize(m@).len(),
            serialize(m@).len() <= FIELD_COUNT * 0x1_0003,
        decreases FIELD_COUNT - k,
    {
        let f = Field::at(k);
        proof {
            lemma_be_bytes_len(m@.payload(f).len(), f.spec_bounds().width());
        }
        total = total + f.bounds().prefix_width() + m.payload(f).len();
        k = k + 1;
    }
    total
}

/// The wire form starts with the protocol version at bytes 0 and 1 and the
/// random at bytes 2 to 33, whatever the variable-length fields hold; the
/// session id's one-byte length prefix follows at byte 34, holding its
/// length exactly, and the session id itself from byte 35 on.
pub proof fn lemma_wire_layout(m: ClientHelloView)
    requires
        m.valid(),
    ensures
        serialize(m).len() >= 35 + m.legacy_session_id.len(),
        serialize(m).subrange(0, 2) == m.protocol_version,
        serialize(m).subrange(2, 34) == m.random,
        serialize(m)[34] == m.legacy_session_id.len() as u8,
        serialize(m)[34] as nat == m.legacy_session_id.len(),
        serialize(m).subrange(35, 35 + m.legacy_session_id.len() as int) == m.legacy_session_id,
{
    let pv = Field::ProtocolVersion.spec_bounds().encoded(m.protocol_version);
    let rd = Field::Random.spec_bounds().encoded(m.random);
    let sid = Field::LegacySessionId.spec_bounds().encoded(m.legacy_session_id);
    let rest = serialize_from(m, 3);
    let len = m.legacy_session_id.len();
    lemma_be_bytes_len(2, 0);
    lemma_be_bytes_len(32, 0);
    lemma_be_bytes_len(len, 1);
    assert(be_bytes(len, 0) =~= Seq::<u8>::empty());
    assert(be_bytes(len, 1) =~= seq![(len % 256) as u8]);
    assert(pv =~= m.protocol_version);
    assert(rd =~= m.random);
    let s = serialize(m);
    assert(serialize_from(m, 2) == sid + rest);
    assert(serialize_from(m, 1) == rd + serialize_from(m, 2));
    assert(s == pv + serialize_from(m, 1));
    assert(s.subrange(0, 2) =~= m.protocol_version);
    assert(s.subrange(2, 34) =~= m.random);
    assert(s[34] == sid[0]);
    assert(s.subrange(35, 35 + len as int) =~= m.legacy_session_id);
}

/// A cipher suite list of 0 or of 65535 bytes is out of range: a message
/// holding one is invalid, and the list is the first offending field when
/// the fields before it are in range.
pub proof fn lemma_cipher_suites_rejected(m: ClientHelloView)
    requires
        m.cipher_suites.len() == 0 || m.cipher_suites.len() == 0xffff,
    ensures
        !m.valid(),
        m.first_violation() is Some,
        m.field_ok(Field::ProtocolVersion) && m.field_ok(Field::Random) && m.field_ok(
            Field::LegacySessionId,
        ) ==> m.first_violation() == Some(Field::CipherSuites),
{
}

/// Compression methods of 1 byte, the least, and of 255 bytes, the most
/// that a one-byte prefix holds, are accepted beside otherwise valid fields,
/// and the message decodes back from its wire form exactly.
pub proof fn lemma_compression_methods_bounds(m: ClientHelloView)
    requires
        m.legacy_compression_methods.len() == 1 || m.legacy_compression_methods.len() == 0xff,
        m.field_ok(Field::ProtocolVersion),
        m.field_ok(Field::Random),
        m.field_ok(Field::LegacySessionId),
        m.field_ok(Field::CipherSuites),
        m.field_ok(Field::Extensions),
    ensures
        m.valid(),
        m.first_violation() is None,
        parse(serialize(m)) == Ok::<_, DecodingError>(m),
{
    lemma_round_trip(m);
}

/// Input that ends inside the legacy session id, or right before its length
/// prefix, is rejected, and the error names the session id.
pub proof fn lemma_truncated_session_id(s: Seq<u8>)
    requires
        34 <= s.len(),
        s.len() == 34 || s.len() < 35 + s[34],
    ensures
        parse(s) is Err,
        parse(s)->Err_0.field == Field::LegacySessionId,
{
    let pv = parse_field(Field::ProtocolVersion, s, 0);
    assert(pv == Ok::<_, DecodingError>((s.subrange(0, 2), 2nat)));
    let rd = parse_field(Field::Random, s, 2);
    assert(rd == Ok::<_, DecodingError>((s.subrange(2, 34), 34nat)));
    if s.len() > 34 {
        let b = s.subrange(34, 35);
        assert(b.drop_last() =~= Seq::<u8>::empty());
        assert(be_value(b.drop_last()) == 0);
        assert(be_value(b) == s[34]);
    }
    let e = parse_field(Field::LegacySessionId, s, 34);
    assert(e is Err);
    assert(parse_from(s, 2, 34) == Err::<Seq<Seq<u8>>, _>(e->Err_0));
    assert(parse_from(s, 1, 2) == Err::<Seq<Seq<u8>>, _>(e->Err_0));
    assert(parse_from(s, 0, 0) == Err::<Seq<Seq<u8>>, _>(e->Err_0));
}

impl ClientHello {
    /// The wire form of the message; fails, naming the first field in wire
    /// order that breaks its size rule, if any does.
    pub fn encode(&self) -> (r: Result<Vec<u8>, EncodingError>)
        ensures
            r is Ok <==> self@.valid(),
            match r {
                Ok(bytes) => bytes@ == serialize(self@),
                Err(e) => self@.first_violation() == Some(e.field),
            },
    {
        if let Some(f) = self.first_violation() {
            return Err(EncodingError { field: f });
        }
        let n = encoded_len(self);
        let mut out: Vec<u8> = Vec::with_capacity(n);
        let mut i: usize = 0;
        while i < n
            invariant
                self@.valid(),
                i <= n == serialize(self@).len(),
                out@ == serialize(self@).subrange(0, i as int),
            decreases n - i,
        {
            proof {
                lemma_stream_matches_serialize(self@, i as nat);
            }
            if let Some(b) = byte_at(self, i) {
                out.push(b);
            }
            assert(out@ =~= serialize(self@).subrange(0, i + 1));
            i = i + 1;
        }
        assert(out@ =~= serialize(self@));
        Ok(out)
    }

    /// Parses a message from its wire form.
    pub fn decode(bytes: &[u8]) -> (r: Result<ClientHello, DecodingError>)
        ensures
            match r {
                Ok(m) => parse(bytes@) == Ok::<_, DecodingError>(m@) && m@.valid(),
                Err(e) => parse(bytes@) == Err::<ClientHelloView, _>(e),
            },
    {
        let len = bytes.len();
        let mut payloads: Vec<Vec<u8>> = Vec::new();
        let ghost mut ps: Seq<Seq<u8>> = Seq::empty();
        let mut pos: usize = 0;
        let mut k: usize = 0;
        while k < FIELD_COUNT
            invariant
                len == bytes@.len(),
                k <= FIELD_COUNT,
                pos <= len,
                ps.len() == k,
                payloads@.len() == k,
                forall|i: int| 0 <= i < k ==> (#[trigger] payloads@[i])@ == ps[i],
                forall|i: nat|
                    i < k ==> Field::spec_at(i).spec_bounds().admits(#[trigger] ps[i as int].len()),
                parse_from(bytes@, 0, 0) == prepend(ps, parse_from(bytes@, k as nat, pos as nat)),
            decreases FIELD_COUNT - k,
        {
            match read_field(bytes, pos, Field::at(k)) {
                Err(e) => {
                    return Err(e);
                },
                Ok((p, next)) => {
                    proof {
                        lemma_prepend_push(ps, p@, parse_from(bytes@, (k + 1) as nat, next as nat));
                        ps = ps.push(p@);
                    }
                    payloads.push(p);
                    pos = next;
                },
            }
            k = k + 1;
        }
        if pos != len {
            return Err(
                DecodingError { field: Field::Extensions, offset: pos, kind: DecodeErrorKind::TrailingBytes },
            );
        }
        assert(ps + Seq::<Seq<u8>>::empty() =~= ps);
        assert(ps.len() == 6);
        let ghost ok = |i: nat| Field::spec_at(i).spec_bounds().admits(ps[i as int].len());
        assert(ok(0) && ok(1) && ok(2) && ok(3) && ok(4) && ok(5));
        let extensions = payloads.pop().unwrap();
        let legacy_compression_methods = payloads.pop().unwrap();
        let cipher_suites = payloads.pop().unwrap();
        let legacy_session_id = payloads.pop().unwrap();
        let random_bytes = payloads.pop().unwrap();
        let version_bytes = payloads.pop().unwrap();
        let protocol_version: [u8; 2] = [version_bytes[0], version_bytes[1]];
        assert(protocol_version@ =~= version_bytes@);
        let mut random = [0u8; 32];
        let mut i: usize = 0;
        while i < 32
            invariant
                i <= 32,
                random_bytes@.len() == 32,
                forall|j: int| 0 <= j < i ==> random@[j] == random_bytes@[j],
            decreases 32 - i,
        {
            random[i] = random_bytes[i];
            i = i + 1;
        }
        assert(random@ =~= random_bytes@);
        let m = ClientHello {
            protocol_version,
            random,
            legacy_session_id,
            cipher_suites,
            legacy_compression_methods,
            extensions,
        };
        Ok(m)
    }
}

} // verus!
