use vstd::prelude::*;

verus! {

/// Length of a key, and of an initialisation vector, in bytes.
pub const BLOCK_LEN: usize = 16;

/// Length of the handshake: direction, key, IV.
pub const HANDSHAKE_LEN: usize = 33;

/// Length of the big-endian length field that opens each response.
pub const LENGTH_FIELD_LEN: usize = 4;

/// Whether a session decrypts or encrypts.
#[derive(Debug, Clone, Copy, PartialEq, Eq, Structural)]
pub enum Mode {
    Decrypt,
    Encrypt,
}

/// The byte that stands for a mode on the wire.
pub open spec fn mode_byte(m: Mode) -> u8 {
    match m {
        Mode::Decrypt => 0u8,
        Mode::Encrypt => 1u8,
    }
}

/// The mode that a wire byte stands for, if any.
pub open spec fn mode_of_byte(b: u8) -> Option<Mode> {
    if b == 0 {
        Some(Mode::Decrypt)
    } else if b == 1 {
        Some(Mode::Encrypt)
    } else {
        None
    }
}

impl Mode {
    /// The byte that stands for this mode in the handshake.
    pub fn to_byte(&self) -> (r: u8)
        ensures
            r == mode_byte(*self),
    {
        match self {
            Mode::Decrypt => 0,
            Mode::Encrypt => 1,
        }
    }

    /// The mode that `b` stands for, or `None` for an unknown byte.
    pub fn from_byte(b: u8) -> (r: Option<Mode>)
        ensures
            r == mode_of_byte(b),
    {
        if b == 0 {
            Some(Mode::Decrypt)
        } else if b == 1 {
            Some(Mode::Encrypt)
        } else {
            None
        }
    }
}

/// What a session is bound to: key, IV and direction.
#[derive(Debug)]
pub struct Session {
    pub mode: Mode,
    pub key: Vec<u8>,
    pub iv: Vec<u8>,
}

/// A session as plain values.
pub struct SessionView {
    pub mode: Mode,
    pub key: Seq<u8>,
    pub iv: Seq<u8>,
}

impl View for Session {
    type V = SessionView;

    open spec fn view(&self) -> SessionView {
        SessionView { mode: self.mode, key: self.key@, iv: self.iv@ }
    }
}

impl SessionView {
    /// Key and IV have their fixed length.
    pub open spec fn wf(self) -> bool {
        self.key.len() == BLOCK_LEN && self.iv.len() == BLOCK_LEN
    }
}

impl Session {
    /// A session with the given direction, key and IV.
    pub fn new(mode: Mode, key: &[u8], iv: &[u8]) -> (r: Session)
        requires
            key@.len() == BLOCK_LEN,
            iv@.len() == BLOCK_LEN,
        ensures
            r@ == (SessionView { mode, key: key@, iv: iv@ }),
            r@.wf(),
    {
        let k = copy_range(key, 0, BLOCK_LEN);
        let v = copy_range(iv, 0, BLOCK_LEN);
        assert(k@ =~= key@);
        assert(v@ =~= iv@);
        Session { mode, key: k, iv: v }
    }
}

/// The handshake bytes of a session: direction, then key, then IV.
pub open spec fn handshake_bytes(s: SessionView) -> Seq<u8> {
    seq![mode_byte(s.mode)] + s.key + s.iv
}

/// Why a handshake is refused.
#[derive(Debug, Clone, Copy, PartialEq, Eq, Structural)]
pub enum HandshakeError {
    /// The first byte names no direction.
    InvalidDirection(u8),
    /// Fewer than the handshake's bytes arrived.
    IncompleteHandshake,
}

/// The outcome that a handshake of bytes `b` must have.
pub open spec fn handshake_outcome(b: Seq<u8>) -> Result<SessionView, HandshakeError> {
    if b.len() < HANDSHAKE_LEN {
        Err(HandshakeError::IncompleteHandshake)
    } else if mode_of_byte(b[0]) is None {
        Err(HandshakeError::InvalidDirection(b[0]))
    } else {
        Ok(SessionView {
            mode: mode_of_byte(b[0])->Some_0,
            key: b.subrange(1, 17),
            iv: b.subrange(17, 33),
        })
    }
}

/// Reading the handshake that a session wrote gives back that session.
pub proof fn lemma_handshake_round_trip(s: SessionView)
    requires
        s.wf(),
    ensures
        handshake_outcome(handshake_bytes(s)) == Ok::<SessionView, HandshakeError>(s),
{
    let b = handshake_bytes(s);
    assert(b[0] == mode_byte(s.mode));
    assert(b.subrange(1, 17) =~= s.key);
    assert(b.subrange(17, 33) =~= s.iv);
}

/// Copies `b[start..end]` into a new vector.
fn copy_range(b: &[u8], start: usize, end: usize) -> (r: Vec<u8>)
    requires
        start <= end <= b@.len(),
    ensures
        r@ == b@.subrange(start as int, end as int),
{
    let mut r: Vec<u8> = Vec::new();
    let mut i: usize = start;
    while i < end
        invariant
            start <= i <= end <= b@.len(),
            r@ == b@.subrange(start as int, i as int),
        decreases end - i,
    {
        r.push(b[i]);
        i = i + 1;
    }
    r
}

/// Encodes the handshake that opens a session.
pub fn encode_handshake(mode: Mode, key: &[u8], iv: &[u8]) -> (r: Vec<u8>)
    requires
        key@.len() == BLOCK_LEN,
        iv@.len() == BLOCK_LEN,
    ensures
        r@ == handshake_bytes(SessionView { mode, key: key@, iv: iv@ }),
        r@.len() == HANDSHAKE_LEN,
{
    let mut r: Vec<u8> = Vec::new();
    r.push(mode.to_byte());
    let mut i: usize = 0;
    while i < key.len()
        invariant
            key@.len() == BLOCK_LEN,
            i <= key@.len(),
            r@ == seq![mode_byte(mode)] + key@.subrange(0, i as int),
        decreases key@.len() - i,
    {
        r.push(key[i]);
        i = i + 1;
    }
    assert(key@.subrange(0, i as int) =~= key@);
    assert(iv@.subrange(0, 0) =~= Seq::<u8>::empty());
    assert(r@ + iv@.subrange(0, 0) =~= r@);
    let mut j: usize = 0;
    while j < iv.len()
        invariant
            iv@.len() == BLOCK_LEN,
            j <= iv@.len(),
            r@ == seq![mode_byte(mode)] + key@ + iv@.subrange(0, j as int),
        decreases iv@.len() - j,
    {
        r.push(iv[j]);
        j = j + 1;
    }
    assert(iv@.subrange(0, j as int) =~= iv@);
    r
}

/// Reads a session from the first handshake bytes that a connection sent.
pub fn parse_handshake(b: &[u8]) -> (r: Result<Session, HandshakeError>)
    ensures
        match r {
            Ok(s) => handshake_outcome(b@) == Ok::<SessionView, HandshakeError>(s@) && s@.wf(),
            Err(e) => handshake_outcome(b@) == Err::<SessionView, HandshakeError>(e),
        },
{
    if b.len() < HANDSHAKE_LEN {
        return Err(HandshakeError::IncompleteHandshake);
    }
    match Mode::from_byte(b[0]) {
        None => Err(HandshakeError::InvalidDirection(b[0])),
        Some(mode) => {
            let key = copy_range(b, 1, 17);
            let iv = copy_range(b, 17, 33);
            Ok(Session { mode, key, iv })
        },
    }
}

/// The big-endian bytes of a 32-bit length.
pub open spec fn be32_bytes(n: u32) -> Seq<u8> {
    seq![
        (n / 16777216) as u8,
        ((n / 65536) % 256) as u8,
        ((n / 256) % 256) as u8,
        (n % 256) as u8,
    ]
}

/// The number that four big-endian bytes stand for.
pub open spec fn be32_value(h: Seq<u8>) -> int {
    h[0] * 16777216 + h[1] * 65536 + h[2] * 256 + h[3]
}

/// The response frame for a transformed chunk: its length, then its bytes.
pub open spec fn response_frame(payload: Seq<u8>) -> Seq<u8> {
    be32_bytes(payload.len() as u32) + payload
}

/// Reading a length field gives back the length that was written.
pub proof fn lemma_be32_round_trip(n: u32)
    ensures
        be32_value(be32_bytes(n)) == n,
{
    let b = be32_bytes(n);
    assert(b[0] == n / 16777216);
    assert(b[1] == (n / 65536) % 256);
    assert(b[2] == (n / 256) % 256);
    assert(b[3] == n % 256);
    assert((n / 16777216) * 16777216 + ((n / 65536) % 256) * 65536 + ((n / 256) % 256) * 256 + n
        % 256 == n) by (nonlinear_arith);
}

/// Frames a transformed chunk as the daemon sends it back.
pub fn encode_response(payload: &[u8]) -> (r: Vec<u8>)
    requires
        payload@.len() <= u32::MAX,
    ensures
        r@ == response_frame(payload@),
        r@.len() == LENGTH_FIELD_LEN + payload@.len(),
{
    let n = payload.len() as u32;
    let mut r: Vec<u8> = Vec::new();
    r.push((n / 16777216) as u8);
    r.push(((n / 65536) % 256) as u8);
    r.push(((n / 256) % 256) as u8);
    r.push((n % 256) as u8);
    assert(r@ =~= be32_bytes(n));
    let mut i: usize = 0;
    while i < payload.len()
        invariant
            i <= payload@.len(),
            r@ == be32_bytes(n) + payload@.subrange(0, i as int),
        decreases payload@.len() - i,
    {
        r.push(payload[i]);
        i = i + 1;
        assert(r@ =~= be32_bytes(n) + payload@.subrange(0, i as int));
    }
    assert(payload@.subrange(0, i as int) =~= payload@);
    r
}

/// The length that a four-byte length field announces.
pub fn decode_length(header: &[u8]) -> (r: u32)
    requires
        header@.len() == LENGTH_FIELD_LEN,
    ensures
        r == be32_value(header@),
{
    let b0 = header[0] as u32;
    let b1 = header[1] as u32;
    let b2 = header[2] as u32;
    let b3 = header[3] as u32;
    assert(b0 * 16777216 + b1 * 65536 + b2 * 256 + b3 <= u32::MAX) by (nonlinear_arith)
        requires
            b0 <= 255,
            b1 <= 255,
            b2 <= 255,
            b3 <= 255,
    ;
    b0 * 16777216 + b1 * 65536 + b2 * 256 + b3
}

/// Why a response frame is refused.
#[derive(Debug, Clone, Copy, PartialEq, Eq, Structural)]
pub enum FrameError {
    /// The length field is shorter than four bytes.
    TruncatedFrame,
    /// The announced length differs from the length of the request.
    LengthMismatch { expected: usize, announced: u32 },
}

/// The outcome that a length field must have, for a request of `expected` bytes.
pub open spec fn response_length_outcome(header: Seq<u8>, expected: usize) -> Result<usize, FrameError> {
    if header.len() != LENGTH_FIELD_LEN {
        Err(FrameError::TruncatedFrame)
    } else if be32_value(header) != expected {
        Err(FrameError::LengthMismatch { expected, announced: be32_value(header) as u32 })
    } else {
        Ok(expected)
    }
}

/// A frame that answers a request announces the request's length, and so
/// passes the requester's length check.
pub proof fn lemma_response_frame_checks(payload: Seq<u8>, request_len: usize)
    requires
        payload.len() == request_len,
        request_len <= u32::MAX,
    ensures
        response_frame(payload).len() == LENGTH_FIELD_LEN + payload.len(),
        response_frame(payload).skip(LENGTH_FIELD_LEN as int) == payload,
        response_length_outcome(response_frame(payload).take(LENGTH_FIELD_LEN as int), request_len)
            == Ok::<usize, FrameError>(request_len),
{
    let f = response_frame(payload);
    lemma_be32_round_trip(payload.len() as u32);
    assert(f.take(LENGTH_FIELD_LEN as int) =~= be32_bytes(payload.len() as u32));
    assert(f.skip(LENGTH_FIELD_LEN as int) =~= payload);
}

/// Checks the length field of a response against the request it answers:
/// a stream cipher hands back exactly as many bytes as it was given.
pub fn check_response_length(header: &[u8], expected: usize) -> (r: Result<usize, FrameError>)
    ensures
        r == response_length_outcome(header@, expected),
{
    if header.len() != LENGTH_FIELD_LEN {
        return Err(FrameError::TruncatedFrame);
    }
    let announced = decode_length(header);
    if announced as u64 != expected as u64 {
        Err(FrameError::LengthMismatch { expected, announced })
    } else {
        Ok(expected)
    }
}

} // verus!
