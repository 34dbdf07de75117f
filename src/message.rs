//! The ClientHello message: its fields, their size rules, and construction.
use crate::vector::VectorBounds;
use vstd::prelude::*;

verus! {

/// The fields of a ClientHello, in wire order.
#[derive(Clone, Copy, Debug, PartialEq, Eq, Structural)]
pub enum Field {
    ProtocolVersion,
    Random,
    LegacySessionId,
    CipherSuites,
    LegacyCompressionMethods,
    Extensions,
}

/// Number of fields in a ClientHello.
pub const FIELD_COUNT: usize = 6;

impl Field {
    /// The field at position `k` of the wire order.
    pub open spec fn spec_at(k: nat) -> Field {
        if k == 0 {
            Field::ProtocolVersion
        } else if k == 1 {
            Field::Random
        } else if k == 2 {
            Field::LegacySessionId
        } else if k == 3 {
            Field::CipherSuites
        } else if k == 4 {
            Field::LegacyCompressionMethods
        } else {
            Field::Extensions
        }
    }

    /// The field at position `k` of the wire order.
    pub fn at(k: usize) -> (r: Field)
        requires
            k < FIELD_COUNT,
        ensures
            r == Field::spec_at(k as nat),
    {
        if k == 0 {
            Field::ProtocolVersion
        } else if k == 1 {
            Field::Random
        } else if k == 2 {
            Field::LegacySessionId
        } else if k == 3 {
            Field::CipherSuites
        } else if k == 4 {
            Field::LegacyCompressionMethods
        } else {
            Field::Extensions
        }
    }

    /// The size rule of the field on the wire.
    pub open spec fn spec_bounds(self) -> VectorBounds {
        match self {
            Field::ProtocolVersion => VectorBounds { floor: 2, ceiling: 2, unit: 1 },
            Field::Random => VectorBounds { floor: 32, ceiling: 32, unit: 1 },
            Field::LegacySessionId => VectorBounds { floor: 0, ceiling: 32, unit: 1 },
            Field::CipherSuites => VectorBounds { floor: 2, ceiling: 0xfffe, unit: 2 },
            Field::LegacyCompressionMethods => VectorBounds { floor: 1, ceiling: 0xff, unit: 1 },
            Field::Extensions => VectorBounds { floor: 0, ceiling: 0xffff, unit: 1 },
        }
    }

    /// The size rule of the field on the wire.
    #[verifier::when_used_as_spec(spec_bounds)]
    pub fn bounds(self) -> (r: VectorBounds)
        ensures
            r == self.spec_bounds(),
            r.wf(),
    {
        match self {
            Field::ProtocolVersion => VectorBounds { floor: 2, ceiling: 2, unit: 1 },
            Field::Random => VectorBounds { floor: 32, ceiling: 32, unit: 1 },
            Field::LegacySessionId => VectorBounds { floor: 0, ceiling: 32, unit: 1 },
            Field::CipherSuites => VectorBounds { floor: 2, ceiling: 0xfffe, unit: 2 },
            Field::LegacyCompressionMethods => VectorBounds { floor: 1, ceiling: 0xff, unit: 1 },
            Field::Extensions => VectorBounds { floor: 0, ceiling: 0xffff, unit: 1 },
        }
    }
}

/// A caller-supplied field value breaks that field's size rule.
#[derive(Clone, Copy, Debug, PartialEq, Eq, Structural)]
pub struct ValidationError {
    pub field: Field,
}

/// A TLS ClientHello handshake message body.
///
/// `cipher_suites` holds the suite identifiers as bytes, two per suite, and
/// `extensions` the already-encoded extension records.
#[derive(Clone, Debug, PartialEq, Eq)]
pub struct ClientHello {
    pub protocol_version: [u8; 2],
    pub random: [u8; 32],
    pub legacy_session_id: Vec<u8>,
    pub cipher_suites: Vec<u8>,
    pub legacy_compression_methods: Vec<u8>,
    pub extensions: Vec<u8>,
}

/// A ClientHello as the byte contents of its six fields.
pub struct ClientHelloView {
    pub protocol_version: Seq<u8>,
    pub random: Seq<u8>,
    pub legacy_session_id: Seq<u8>,
    pub cipher_suites: Seq<u8>,
    pub legacy_compression_methods: Seq<u8>,
    pub extensions: Seq<u8>,
}

impl View for ClientHello {
    type V = ClientHelloView;

    open spec fn view(&self) -> ClientHelloView {
        ClientHelloView {
            protocol_version: self.protocol_version@,
            random: self.random@,
            legacy_session_id: self.legacy_session_id@,
            cipher_suites: self.cipher_suites@,
            legacy_compression_methods: self.legacy_compression_methods@,
            extensions: self.extensions@,
        }
    }
}

impl ClientHelloView {
    /// The bytes that field `f` holds.
    pub open spec fn payload(self, f: Field) -> Seq<u8> {
        match f {
            Field::ProtocolVersion => self.protocol_version,
            Field::Random => self.random,
            Field::LegacySessionId => self.legacy_session_id,
            Field::CipherSuites => self.cipher_suites,
            Field::LegacyCompressionMethods => self.legacy_compression_methods,
            Field::Extensions => self.extensions,
        }
    }

    /// Whether field `f` obeys its size rule.
    pub open spec fn field_ok(self, f: Field) -> bool {
        f.spec_bounds().admits(self.payload(f).len())
    }

    /// The first field, in wire order, that breaks its size rule.
    pub open spec fn first_violation(self) -> Option<Field> {
        if !self.field_ok(Field::ProtocolVersion) {
            Some(Field::ProtocolVersion)
        } else if !self.field_ok(Field::Random) {
            Some(Field::Random)
        } else if !self.field_ok(Field::LegacySessionId) {
            Some(Field::LegacySessionId)
        } else if !self.field_ok(Field::CipherSuites) {
            Some(Field::CipherSuites)
        } else if !self.field_ok(Field::LegacyCompressionMethods) {
            Some(Field::LegacyCompressionMethods)
        } else if !self.field_ok(Field::Extensions) {
            Some(Field::Extensions)
        } else {
            None
        }
    }

    /// Every field obeys its size rule.
    pub open spec fn valid(self) -> bool {
        &&& self.field_ok(Field::ProtocolVersion)
        &&& self.field_ok(Field::Random)
        &&& self.field_ok(Field::LegacySessionId)
        &&& self.field_ok(Field::CipherSuites)
        &&& self.field_ok(Field::LegacyCompressionMethods)
        &&& self.field_ok(Field::Extensions)
    }

    /// The default message: TLS 1.2 version bytes, an all-zero random, no
    /// session id, the single suite TLS_AES_128_GCM_SHA256, null compression
    /// and no extensions.
    pub open spec fn default_message() -> ClientHelloView {
        ClientHelloView {
            protocol_version: seq![0x03u8, 0x03u8],
            random: Seq::new(32, |i: int| 0u8),
            legacy_session_id: Seq::empty(),
            cipher_suites: seq![0x13u8, 0x01u8],
            legacy_compression_methods: seq![0x00u8],
            extensions: Seq::empty(),
        }
    }
}

impl ClientHello {
    /// The default message (see `ClientHelloView::default_message`).
    pub fn new() -> (r: ClientHello)
        ensures
            r@ == ClientHelloView::default_message(),
            r@.valid(),
    {
        let r = ClientHello {
            protocol_version: [0x03, 0x03],
            random: [0u8; 32],
            legacy_session_id: Vec::new(),
            cipher_suites: vec![0x13, 0x01],
            legacy_compression_methods: vec![0x00],
            extensions: Vec::new(),
        };
        assert(r@.protocol_version =~= seq![0x03u8, 0x03u8]);
        assert(r@.random =~= Seq::new(32, |i: int| 0u8));
        assert(r@.cipher_suites =~= seq![0x13u8, 0x01u8]);
        assert(r@.legacy_compression_methods =~= seq![0x00u8]);
        r
    }

    /// The bytes that field `f` holds.
    pub fn payload(&self, f: Field) -> (r: &[u8])
        ensures
            r@ == self@.payload(f),
    {
        match f {
            Field::ProtocolVersion => self.protocol_version.as_slice(),
            Field::Random => self.random.as_slice(),
            Field::LegacySessionId => self.legacy_session_id.as_slice(),
            Field::CipherSuites => self.cipher_suites.as_slice(),
            Field::LegacyCompressionMethods => self.legacy_compression_methods.as_slice(),
            Field::Extensions => self.extensions.as_slice(),
        }
    }

    /// The first field, in wire order, that breaks its size rule, if any.
    pub fn first_violation(&self) -> (r: Option<Field>)
        ensures
            r == self@.first_violation(),
            r is None <==> self@.valid(),
    {
        let mut k: usize = 0;
        while k < FIELD_COUNT
            invariant
                k <= FIELD_COUNT,
                forall|i: nat| i < k ==> self@.field_ok(#[trigger] Field::spec_at(i)),
            decreases FIELD_COUNT - k,
        {
            let f = Field::at(k);
            if !f.bounds().admits_len(self.payload(f).len()) {
                proof {
                    let earlier = |i: nat| i < k ==> self@.field_ok(Field::spec_at(i));
                    assert(earlier(0) && earlier(1) && earlier(2) && earlier(3) && earlier(4));
                }
                return Some(f);
            }
            k = k + 1;
        }
        let ghost ok = |i: nat| self@.field_ok(Field::spec_at(i));
        assert(ok(0) && ok(1) && ok(2) && ok(3) && ok(4) && ok(5));
        None
    }

    /// Replaces the protocol version.
    pub fn with_protocol_version(self, v: [u8; 2]) -> (r: ClientHello)
        ensures
            r@ == (ClientHelloView { protocol_version: v@, ..self@ }),
    {
        ClientHello { protocol_version: v, ..self }
    }

    /// Replaces the random nonce.
    pub fn with_random(self, v: [u8; 32]) -> (r: ClientHello)
        ensures
            r@ == (ClientHelloView { random: v@, ..self@ }),
    {
        ClientHello { random: v, ..self }
    }

    /// Replaces the legacy session id, which must hold 0 to 32 bytes.
    pub fn with_legacy_session_id(self, v: Vec<u8>) -> (r: Result<ClientHello, ValidationError>)
        ensures
            match r {
                Ok(m) => Field::LegacySessionId.spec_bounds().admits(v@.len())
                    && m@ == (ClientHelloView { legacy_session_id: v@, ..self@ }),
                Err(e) => !Field::LegacySessionId.spec_bounds().admits(v@.len())
                    && e.field == Field::LegacySessionId,
            },
    {
        if Field::LegacySessionId.bounds().admits_len(v.len()) {
            Ok(ClientHello { legacy_session_id: v, ..self })
        } else {
            Err(ValidationError { field: Field::LegacySessionId })
        }
    }

    /// Replaces the cipher suites, which must hold 1 to 32767 two-byte suites.
    pub fn with_cipher_suites(self, v: Vec<u8>) -> (r: Result<ClientHello, ValidationError>)
        ensures
            match r {
                Ok(m) => Field::CipherSuites.spec_bounds().admits(v@.len())
                    && m@ == (ClientHelloView { cipher_suites: v@, ..self@ }),
                Err(e) => !Field::CipherSuites.spec_bounds().admits(v@.len())
                    && e.field == Field::CipherSuites,
            },
    {
        if Field::CipherSuites.bounds().admits_len(v.len()) {
            Ok(ClientHello { cipher_suites: v, ..self })
        } else {
            Err(ValidationError { field: Field::CipherSuites })
        }
    }

    /// Replaces the compression methods, which must hold 1 to 255 bytes.
    pub fn with_legacy_compression_methods(self, v: Vec<u8>) -> (r: Result<
        ClientHello,
        ValidationError,
    >)
        ensures
            match r {
                Ok(m) => Field::LegacyCompressionMethods.spec_bounds().admits(v@.len())
                    && m@ == (ClientHelloView { legacy_compression_methods: v@, ..self@ }),
                Err(e) => !Field::LegacyCompressionMethods.spec_bounds().admits(v@.len())
                    && e.field == Field::LegacyCompressionMethods,
            },
    {
        if Field::LegacyCompressionMethods.bounds().admits_len(v.len()) {
            Ok(ClientHello { legacy_compression_methods: v, ..self })
        } else {
            Err(ValidationError { field: Field::LegacyCompressionMethods })
        }
    }

    /// Replaces the encoded extensions, which must hold at most 65535 bytes.
    pub fn with_extensions(self, v: Vec<u8>) -> (r: Result<ClientHello, ValidationError>)
        ensures
            match r {
                Ok(m) => Field::Extensions.spec_bounds().admits(v@.len())
                    && m@ == (ClientHelloView { extensions: v@, ..self@ }),
                Err(e) => !Field::Extensions.spec_bounds().admits(v@.len())
                    && e.field == Field::Extensions,
            },
    {
        if Field::Extensions.bounds().admits_len(v.len()) {
            Ok(ClientHello { extensions: v, ..self })
        } else {
            Err(ValidationError { field: Field::Extensions })
        }
    }
}

} // verus!
