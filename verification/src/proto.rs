//! The daemon's socket messages: requests and responses, each one frame
//! body `u8 TAG ++ payload`, integers little-endian, blobs length-prefixed.
//! Request tags have the top bit clear and response tags have it set, so a
//! message read in the wrong direction is an unknown tag.
use vstd::prelude::*;
use crate::blob_format::{get32, le32, lemma_le32};
use crate::canonical_hash::{Blake3Hash, push_u32};
use crate::wire::utf8_string;
use vstd::utf8::{decode_utf8, encode_utf8, valid_utf8};

verus! {

/// The protocol version a ping reports.
pub const PROTO_VERSION: u32 = 1;

pub const TAG_BUILD: u8 = 0x01;

pub const TAG_STORE_QUERY: u8 = 0x03;

pub const TAG_CACHE_LOOKUP: u8 = 0x04;

pub const TAG_PING: u8 = 0x05;

pub const TAG_SHUTDOWN: u8 = 0x06;

/// The kind of a failure reported over the socket.
#[derive(Debug, Clone, Copy, PartialEq, Eq, Structural)]
pub enum DaemonErrorKind {
    Io,
    FrameTooLarge,
    BadTag,
    Build,
    NotFound,
    Protocol,
    HashMismatch,
}

/// The kind of each byte.
pub open spec fn kind_of_code(b: u8) -> Option<DaemonErrorKind> {
    if b == 0 {
        Some(DaemonErrorKind::Io)
    } else if b == 1 {
        Some(DaemonErrorKind::FrameTooLarge)
    } else if b == 2 {
        Some(DaemonErrorKind::BadTag)
    } else if b == 3 {
        Some(DaemonErrorKind::Build)
    } else if b == 4 {
        Some(DaemonErrorKind::NotFound)
    } else if b == 5 {
        Some(DaemonErrorKind::Protocol)
    } else if b == 6 {
        Some(DaemonErrorKind::HashMismatch)
    } else {
        None
    }
}

/// The byte of each kind.
pub open spec fn kind_code(k: DaemonErrorKind) -> u8 {
    match k {
        DaemonErrorKind::Io => 0,
        DaemonErrorKind::FrameTooLarge => 1,
        DaemonErrorKind::BadTag => 2,
        DaemonErrorKind::Build => 3,
        DaemonErrorKind::NotFound => 4,
        DaemonErrorKind::Protocol => 5,
        DaemonErrorKind::HashMismatch => 6,
    }
}

impl DaemonErrorKind {
    pub fn code(self) -> (b: u8)
        ensures
            b == kind_code(self),
    {
        match self {
            DaemonErrorKind::Io => 0,
            DaemonErrorKind::FrameTooLarge => 1,
            DaemonErrorKind::BadTag => 2,
            DaemonErrorKind::Build => 3,
            DaemonErrorKind::NotFound => 4,
            DaemonErrorKind::Protocol => 5,
            DaemonErrorKind::HashMismatch => 6,
        }
    }

    /// The kind of a byte, if it is one.
    pub fn from_u8(b: u8) -> (r: Option<DaemonErrorKind>)
        ensures
            r == kind_of_code(b),
            r matches Some(k) ==> kind_code(k) == b,
            r is None <==> b > 6,
    {
        match b {
            0 => Some(DaemonErrorKind::Io),
            1 => Some(DaemonErrorKind::FrameTooLarge),
            2 => Some(DaemonErrorKind::BadTag),
            3 => Some(DaemonErrorKind::Build),
            4 => Some(DaemonErrorKind::NotFound),
            5 => Some(DaemonErrorKind::Protocol),
            6 => Some(DaemonErrorKind::HashMismatch),
            _ => None,
        }
    }
}

/// A daemon failure: transport, framing, protocol, build or store errors,
/// a build with no output, or no daemon at the socket.
#[derive(Debug, Clone, PartialEq, Eq)]
pub enum DaemonError {
    Io(String),
    FrameTooLarge,
    BadTag,
    Protocol(String),
    Build(String),
    Store(String),
    NoOutput,
    NotRunning,
}

/// Largest frame body (256 MiB).
pub const MAX_FRAME: u32 = 268435456;

/// A client's request.
#[derive(Debug, Clone, PartialEq, Eq)]
pub enum Request {
    /// Realize a derivation given in its byte encoding.
    Build(Vec<u8>),
    /// Is this content hash in the store?
    StoreQuery(Blake3Hash),
    /// The cached result for this hash, if any.
    CacheLookup(Blake3Hash),
    Ping,
    Shutdown,
}

/// A request as plain data.
pub enum RequestV {
    Build(Seq<u8>),
    StoreQuery(Seq<u8>),
    CacheLookup(Seq<u8>),
    Ping,
    Shutdown,
}

impl View for Request {
    type V = RequestV;

    open spec fn view(&self) -> RequestV {
        match self {
            Request::Build(d) => RequestV::Build(d@),
            Request::StoreQuery(h) => RequestV::StoreQuery(h@),
            Request::CacheLookup(h) => RequestV::CacheLookup(h@),
            Request::Ping => RequestV::Ping,
            Request::Shutdown => RequestV::Shutdown,
        }
    }
}

/// The body of a request.
pub open spec fn enc_request(r: RequestV) -> Seq<u8> {
    match r {
        RequestV::Build(d) => seq![TAG_BUILD] + le32(d.len() as u32) + d,
        RequestV::StoreQuery(h) => seq![TAG_STORE_QUERY] + h,
        RequestV::CacheLookup(h) => seq![TAG_CACHE_LOOKUP] + h,
        RequestV::Ping => seq![TAG_PING],
        RequestV::Shutdown => seq![TAG_SHUTDOWN],
    }
}

/// What decoding a request body gives: the request, or `Err(true)` for an
/// unknown tag and `Err(false)` for a short body or trailing bytes.
pub open spec fn parse_request(b: Seq<u8>) -> Result<RequestV, bool> {
    if b.len() == 0 {
        Err(false)
    } else if b[0] == TAG_BUILD {
        if b.len() < 5 {
            Err(false)
        } else {
            let n = get32(b[1], b[2], b[3], b[4]) as int;
            if 5 + n > b.len() || 5 + n < b.len() {
                Err(false)
            } else {
                Ok(RequestV::Build(b.subrange(5, b.len() as int)))
            }
        }
    } else if b[0] == TAG_STORE_QUERY || b[0] == TAG_CACHE_LOOKUP {
        if b.len() != 33 {
            Err(false)
        } else if b[0] == TAG_STORE_QUERY {
            Ok(RequestV::StoreQuery(b.subrange(1, 33)))
        } else {
            Ok(RequestV::CacheLookup(b.subrange(1, 33)))
        }
    } else if b[0] == TAG_PING || b[0] == TAG_SHUTDOWN {
        if b.len() != 1 {
            Err(false)
        } else if b[0] == TAG_PING {
            Ok(RequestV::Ping)
        } else {
            Ok(RequestV::Shutdown)
        }
    } else {
        Err(true)
    }
}

fn push_all(buf: &mut Vec<u8>, s: &[u8])
    ensures
        final(buf)@ == old(buf)@ + s@,
{
    let mut i: usize = 0;
    while i < s.len()
        invariant
            i <= s@.len(),
            buf@ == old(buf)@ + s@.subrange(0, i as int),
        decreases s@.len() - i,
    {
        buf.push(s[i]);
        proof {
            assert(s@.subrange(0, i + 1) =~= s@.subrange(0, i as int).push(s@[i as int]));
        }
        i = i + 1;
    }
    proof {
        assert(s@.subrange(0, s@.len() as int) =~= s@);
    }
}

/// The body of a request (a derivation's length prefix keeps the low 32
/// bits of its length).
pub fn encode_request(req: &Request) -> (b: Vec<u8>)
    ensures
        b@ == enc_request(req@),
{
    let mut buf: Vec<u8> = Vec::new();
    match req {
        Request::Build(drv) => {
            buf.push(TAG_BUILD);
            push_u32(&mut buf, drv.len() as u32);
            push_all(&mut buf, drv.as_slice());
        },
        Request::StoreQuery(h) => {
            buf.push(TAG_STORE_QUERY);
            push_all(&mut buf, h.as_slice());
        },
        Request::CacheLookup(h) => {
            buf.push(TAG_CACHE_LOOKUP);
            push_all(&mut buf, h.as_slice());
        },
        Request::Ping => {
            buf.push(TAG_PING);
        },
        Request::Shutdown => {
            buf.push(TAG_SHUTDOWN);
        },
    }
    proof {
        assert(buf@ =~= enc_request(req@));
    }
    buf
}

/// Frame a body: its length, then the body; a body over the frame limit is
/// refused.
pub fn write_frame(w: &mut Vec<u8>, body: &[u8]) -> (r: Result<(), DaemonError>)
    ensures
        body@.len() <= MAX_FRAME ==> r is Ok && final(w)@ == old(w)@ + le32(body@.len() as u32) + body@,
        body@.len() > MAX_FRAME ==> r == Err::<(), DaemonError>(DaemonError::FrameTooLarge) && final(w)@ == old(w)@,
{
    if body.len() > MAX_FRAME as usize {
        return Err(DaemonError::FrameTooLarge);
    }
    push_u32(w, body.len() as u32);
    push_all(w, body);
    Ok(())
}

/// Read one frame from the front of `r`, advancing it past the frame. No
/// complete length prefix means the peer hung up; a length over the frame
/// limit is refused before the body is read; a short body is an I/O error.
pub fn read_frame(r: &mut &[u8]) -> (res: Result<Vec<u8>, DaemonError>)
    ensures
        old(r)@.len() < 4 ==> res == Err::<Vec<u8>, DaemonError>(DaemonError::NotRunning),
        old(r)@.len() >= 4 ==> {
            let n = get32(old(r)@[0], old(r)@[1], old(r)@[2], old(r)@[3]) as int;
            &&& n > MAX_FRAME ==> res == Err::<Vec<u8>, DaemonError>(DaemonError::FrameTooLarge)
            &&& n <= MAX_FRAME && 4 + n > old(r)@.len() ==> (res matches Err(e) && e is Io)
            &&& n <= MAX_FRAME && 4 + n <= old(r)@.len() ==> (res matches Ok(b) && b@ == old(r)@.subrange(
                4,
                4 + n,
            ) && final(r)@ == old(r)@.subrange(4 + n, old(r)@.len() as int))
        },
{
    let s: &[u8] = *r;
    if s.len() < 4 {
        return Err(DaemonError::NotRunning);
    }
    let len = (s[0] as u32) | ((s[1] as u32) << 8) | ((s[2] as u32) << 16) | ((s[3] as u32) << 24);
    if len > MAX_FRAME {
        return Err(DaemonError::FrameTooLarge);
    }
    if (len as usize) > s.len() - 4 {
        return Err(DaemonError::Io("failed to fill whole buffer".to_owned()));
    }
    let end = 4 + len as usize;
    let body = copy_range(s, 4, end);
    let (_, rest) = s.split_at(end);
    *r = rest;
    Ok(body)
}

fn copy_range(b: &[u8], a: usize, e: usize) -> (v: Vec<u8>)
    requires
        a <= e <= b@.len(),
    ensures
        v@ == b@.subrange(a as int, e as int),
{
    let mut v: Vec<u8> = Vec::new();
    let mut i = a;
    while i < e
        invariant
            a <= i <= e <= b@.len(),
            v@ == b@.subrange(a as int, i as int),
        decreases e - i,
    {
        v.push(b[i]);
        proof {
            assert(b@.subrange(a as int, i + 1) =~= b@.subrange(a as int, i as int).push(b@[i as int]));
        }
        i = i + 1;
    }
    v
}

fn hash_at(b: &[u8], a: usize) -> (h: Blake3Hash)
    requires
        a + 32 <= b@.len(),
    ensures
        h@ == b@.subrange(a as int, a + 32),
{
    let mut h: Blake3Hash = [0u8; 32];
    let mut i: usize = 0;
    let blen = b.len();
    while i < 32
        invariant
            i <= 32,
            a + 32 <= b@.len(),
            blen == b@.len(),
            h@.len() == 32,
            forall|j: int| 0 <= j < i ==> h@[j] == b@[a + j],
        decreases 32 - i,
    {
        h[i] = b[a + i];
        i = i + 1;
    }
    proof {
        assert(h@ =~= b@.subrange(a as int, a + 32));
    }
    h
}

/// Decode a request body exactly.
pub fn decode_request(body: &[u8]) -> (r: Result<Request, DaemonError>)
    ensures
        match parse_request(body@) {
            Ok(v) => r matches Ok(q) && q@ == v,
            Err(true) => r == Err::<Request, DaemonError>(DaemonError::BadTag),
            Err(false) => r matches Err(e) && e is Protocol,
        },
{
    let n = body.len();
    if n == 0 {
        return Err(DaemonError::Protocol("frame body too short".to_owned()));
    }
    let tag = body[0];
    if tag == TAG_BUILD {
        if n < 5 {
            return Err(DaemonError::Protocol("frame body too short".to_owned()));
        }
        let len = (body[1] as u32) | ((body[2] as u32) << 8) | ((body[3] as u32) << 16) | ((body[4] as u32) << 24);
        if (len as usize) > n - 5 {
            return Err(DaemonError::Protocol("frame body too short".to_owned()));
        }
        if (len as usize) < n - 5 {
            return Err(DaemonError::Protocol("trailing bytes in frame".to_owned()));
        }
        Ok(Request::Build(copy_range(body, 5, n)))
    } else if tag == TAG_STORE_QUERY || tag == TAG_CACHE_LOOKUP {
        if n < 33 {
            return Err(DaemonError::Protocol("frame body too short".to_owned()));
        }
        if n > 33 {
            return Err(DaemonError::Protocol("trailing bytes in frame".to_owned()));
        }
        let h = hash_at(body, 1);
        if tag == TAG_STORE_QUERY {
            Ok(Request::StoreQuery(h))
        } else {
            Ok(Request::CacheLookup(h))
        }
    } else if tag == TAG_PING || tag == TAG_SHUTDOWN {
        if n != 1 {
            return Err(DaemonError::Protocol("trailing bytes in frame".to_owned()));
        }
        if tag == TAG_PING {
            Ok(Request::Ping)
        } else {
            Ok(Request::Shutdown)
        }
    } else {
        Err(DaemonError::BadTag)
    }
}

/// A request whose derivation fits a 32-bit length decodes from its own
/// body.
pub proof fn lemma_request_round_trip(r: RequestV)
    requires
        r matches RequestV::Build(d) ==> d.len() <= u32::MAX,
        r matches RequestV::StoreQuery(h) ==> h.len() == 32,
        r matches RequestV::CacheLookup(h) ==> h.len() == 32,
    ensures
        parse_request(enc_request(r)) == Ok::<RequestV, bool>(r),
{
    let b = enc_request(r);
    match r {
        RequestV::Build(d) => {
            lemma_le32(d.len() as u32);
            assert((d.len() as u32) as int == d.len());
            assert(b.subrange(5, b.len() as int) =~= d);
        },
        RequestV::StoreQuery(h) => {
            assert(b.subrange(1, 33) =~= h);
        },
        RequestV::CacheLookup(h) => {
            assert(b.subrange(1, 33) =~= h);
        },
        _ => {},
    }
}

pub const TAG_BUILT: u8 = 0x81;

pub const TAG_STORE_PRESENT: u8 = 0x82;

pub const TAG_CACHE_HIT: u8 = 0x83;

pub const TAG_CACHE_MISS: u8 = 0x84;

pub const TAG_PONG: u8 = 0x85;

pub const TAG_FAILED: u8 = 0x86;

/// The daemon's reply.
#[derive(Debug, Clone, PartialEq, Eq)]
pub enum Response {
    /// The realized output, as its store path text.
    Built(String),
    StorePresent(bool),
    /// A cached result as its canonical blob.
    CacheHit(Vec<u8>),
    CacheMiss,
    Pong { version: u32, queue_depth: u32, built: u32 },
    Failed(DaemonErrorKind, String),
}

/// A reply as plain data.
pub enum ResponseV {
    Built(Seq<char>),
    StorePresent(bool),
    CacheHit(Seq<u8>),
    CacheMiss,
    Pong(u32, u32, u32),
    Failed(DaemonErrorKind, Seq<char>),
}

impl View for Response {
    type V = ResponseV;

    open spec fn view(&self) -> ResponseV {
        match self {
            Response::Built(s) => ResponseV::Built(s@),
            Response::StorePresent(b) => ResponseV::StorePresent(*b),
            Response::CacheHit(d) => ResponseV::CacheHit(d@),
            Response::CacheMiss => ResponseV::CacheMiss,
            Response::Pong { version, queue_depth, built } => ResponseV::Pong(*version, *queue_depth, *built),
            Response::Failed(k, s) => ResponseV::Failed(*k, s@),
        }
    }
}

/// A length-prefixed byte string (the prefix keeps the low 32 bits of the
/// length).
pub open spec fn counted(d: Seq<u8>) -> Seq<u8> {
    le32(d.len() as u32) + d
}

/// The body of a reply.
pub open spec fn enc_response(r: ResponseV) -> Seq<u8> {
    match r {
        ResponseV::Built(s) => seq![TAG_BUILT] + counted(encode_utf8(s)),
        ResponseV::StorePresent(b) => seq![TAG_STORE_PRESENT, if b {
            1u8
        } else {
            0u8
        }],
        ResponseV::CacheHit(d) => seq![TAG_CACHE_HIT] + counted(d),
        ResponseV::CacheMiss => seq![TAG_CACHE_MISS],
        ResponseV::Pong(v, q, b) => seq![TAG_PONG] + le32(v) + le32(q) + le32(b),
        ResponseV::Failed(k, s) => seq![TAG_FAILED, kind_code(k)] + counted(encode_utf8(s)),
    }
}

/// The text of bytes that are not valid UTF-8, each invalid sequence
/// replaced by U+FFFD.
pub uninterp spec fn lossy_text(bytes: Seq<u8>) -> Seq<char>;

/// `String::from_utf8_lossy`: the text of `bytes`, each invalid sequence
/// replaced by U+FFFD. The contract names the result (the replacement rules
/// are not written out) and states what the documentation states: valid
/// UTF-8 is decoded unchanged.
#[verifier::external_body]
fn lossy_string(bytes: &[u8]) -> (r: String)
    ensures
        r@ == lossy_text(bytes@),
        valid_utf8(bytes@) ==> r@ == decode_utf8(bytes@),
{
    String::from_utf8_lossy(bytes).into_owned()
}

/// A counted byte string occupies exactly `b` from `at` on.
pub open spec fn counted_fits(b: Seq<u8>, at: int) -> bool {
    &&& at + 4 <= b.len()
    &&& at + 4 + get32(b[at], b[at + 1], b[at + 2], b[at + 3]) == b.len()
}

/// What decoding a reply body gives: the reply, or `Err(true)` for an
/// unknown tag or failure kind and `Err(false)` for a short body, trailing
/// bytes or a path that is not UTF-8.
pub open spec fn parse_response(b: Seq<u8>) -> Result<ResponseV, bool> {
    if b.len() == 0 {
        Err(false)
    } else if b[0] == TAG_BUILT {
        if counted_fits(b, 1) && valid_utf8(b.subrange(5, b.len() as int)) {
            Ok(ResponseV::Built(decode_utf8(b.subrange(5, b.len() as int))))
        } else {
            Err(false)
        }
    } else if b[0] == TAG_STORE_PRESENT {
        if b.len() == 2 {
            Ok(ResponseV::StorePresent(b[1] != 0))
        } else {
            Err(false)
        }
    } else if b[0] == TAG_CACHE_HIT {
        if counted_fits(b, 1) {
            Ok(ResponseV::CacheHit(b.subrange(5, b.len() as int)))
        } else {
            Err(false)
        }
    } else if b[0] == TAG_CACHE_MISS {
        if b.len() == 1 {
            Ok(ResponseV::CacheMiss)
        } else {
            Err(false)
        }
    } else if b[0] == TAG_PONG {
        if b.len() == 13 {
            Ok(ResponseV::Pong(get32(b[1], b[2], b[3], b[4]), get32(b[5], b[6], b[7], b[8]), get32(b[9], b[10], b[11], b[12])))
        } else {
            Err(false)
        }
    } else if b[0] == TAG_FAILED {
        if b.len() < 2 {
            Err(false)
        } else {
            match kind_of_code(b[1]) {
                None => Err(true),
                Some(k) => if counted_fits(b, 2) {
                    let d = b.subrange(6, b.len() as int);
                    Ok(ResponseV::Failed(k, if valid_utf8(d) { decode_utf8(d) } else { lossy_text(d) }))
                } else {
                    Err(false)
                },
            }
        }
    } else {
        Err(true)
    }
}

fn u32_at(b: &[u8], i: usize) -> (v: u32)
    requires
        i + 4 <= b@.len(),
    ensures
        v == get32(b@[i as int], b@[i + 1], b@[i + 2], b@[i + 3]),
{
    (b[i] as u32) | ((b[i + 1] as u32) << 8) | ((b[i + 2] as u32) << 16) | ((b[i + 3] as u32) << 24)
}

/// The body of a reply.
pub fn encode_response(res: &Response) -> (b: Vec<u8>)
    ensures
        b@ == enc_response(res@),
{
    let mut buf: Vec<u8> = Vec::new();
    match res {
        Response::Built(path) => {
            buf.push(TAG_BUILT);
            let bytes = path.as_str().as_bytes();
            push_u32(&mut buf, bytes.len() as u32);
            push_all(&mut buf, bytes);
        },
        Response::StorePresent(p) => {
            buf.push(TAG_STORE_PRESENT);
            buf.push(if *p { 1u8 } else { 0u8 });
        },
        Response::CacheHit(blob) => {
            buf.push(TAG_CACHE_HIT);
            push_u32(&mut buf, blob.len() as u32);
            push_all(&mut buf, blob.as_slice());
        },
        Response::CacheMiss => {
            buf.push(TAG_CACHE_MISS);
        },
        Response::Pong { version, queue_depth, built } => {
            buf.push(TAG_PONG);
            push_u32(&mut buf, *version);
            push_u32(&mut buf, *queue_depth);
            push_u32(&mut buf, *built);
        },
        Response::Failed(kind, detail) => {
            buf.push(TAG_FAILED);
            buf.push(kind.code());
            let bytes = detail.as_str().as_bytes();
            push_u32(&mut buf, bytes.len() as u32);
            push_all(&mut buf, bytes);
        },
    }
    proof {
        assert(buf@ =~= enc_response(res@));
    }
    buf
}

/// Decode a reply body exactly.
pub fn decode_response(body: &[u8]) -> (r: Result<Response, DaemonError>)
    ensures
        match parse_response(body@) {
            Ok(v) => r matches Ok(q) && q@ == v,
            Err(true) => r == Err::<Response, DaemonError>(DaemonError::BadTag),
            Err(false) => r matches Err(e) && e is Protocol,
        },
{
    let n = body.len();
    if n == 0 {
        return Err(DaemonError::Protocol("frame body too short".to_owned()));
    }
    let tag = body[0];
    if tag == TAG_BUILT || tag == TAG_CACHE_HIT {
        if n < 5 {
            return Err(DaemonError::Protocol("frame body too short".to_owned()));
        }
        let len = u32_at(body, 1);
        if (len as usize) != n - 5 {
            return Err(DaemonError::Protocol("frame body length mismatch".to_owned()));
        }
        let data = copy_range(body, 5, n);
        if tag == TAG_CACHE_HIT {
            return Ok(Response::CacheHit(data));
        }
        match utf8_string(data.as_slice()) {
            Some(s) => {
                proof {
                    vstd::utf8::encode_utf8_decode_utf8(s@);
                }
                Ok(Response::Built(s))
            },
            None => Err(DaemonError::Protocol("store path is not utf-8".to_owned())),
        }
    } else if tag == TAG_STORE_PRESENT {
        if n != 2 {
            return Err(DaemonError::Protocol("frame body length mismatch".to_owned()));
        }
        Ok(Response::StorePresent(body[1] != 0))
    } else if tag == TAG_CACHE_MISS {
        if n != 1 {
            return Err(DaemonError::Protocol("trailing bytes in frame".to_owned()));
        }
        Ok(Response::CacheMiss)
    } else if tag == TAG_PONG {
        if n != 13 {
            return Err(DaemonError::Protocol("frame body length mismatch".to_owned()));
        }
        Ok(Response::Pong { version: u32_at(body, 1), queue_depth: u32_at(body, 5), built: u32_at(body, 9) })
    } else if tag == TAG_FAILED {
        if n < 2 {
            return Err(DaemonError::Protocol("frame body too short".to_owned()));
        }
        let kind = match DaemonErrorKind::from_u8(body[1]) {
            Some(k) => k,
            None => {
                return Err(DaemonError::BadTag);
            },
        };
        if n < 6 {
            return Err(DaemonError::Protocol("frame body too short".to_owned()));
        }
        let len = u32_at(body, 2);
        if (len as usize) != n - 6 {
            return Err(DaemonError::Protocol("frame body length mismatch".to_owned()));
        }
        let data = copy_range(body, 6, n);
        let detail = match utf8_string(data.as_slice()) {
            Some(t) => {
                proof {
                    vstd::utf8::encode_utf8_decode_utf8(t@);
                }
                t
            },
            None => lossy_string(data.as_slice()),
        };
        Ok(Response::Failed(kind, detail))
    } else {
        Err(DaemonError::BadTag)
    }
}

/// A reply whose byte strings fit a 32-bit length decodes from its own
/// body.
pub proof fn lemma_response_round_trip(r: ResponseV)
    requires
        r matches ResponseV::Built(s) ==> encode_utf8(s).len() <= u32::MAX,
        r matches ResponseV::CacheHit(d) ==> d.len() <= u32::MAX,
        r matches ResponseV::Failed(k, s) ==> encode_utf8(s).len() <= u32::MAX,
    ensures
        parse_response(enc_response(r)) == Ok::<ResponseV, bool>(r),
{
    let b = enc_response(r);
    match r {
        ResponseV::Built(s) => {
            let e = encode_utf8(s);
            lemma_le32(e.len() as u32);
            assert(b.subrange(5, b.len() as int) =~= e);
            vstd::utf8::encode_utf8_valid_utf8(s);
            vstd::utf8::encode_utf8_decode_utf8(s);
        },
        ResponseV::CacheHit(d) => {
            lemma_le32(d.len() as u32);
            assert(b.subrange(5, b.len() as int) =~= d);
        },
        ResponseV::StorePresent(x) => {},
        ResponseV::Pong(v, q, c) => {
            lemma_le32(v);
            lemma_le32(q);
            lemma_le32(c);
        },
        ResponseV::Failed(k, s) => {
            let e = encode_utf8(s);
            lemma_le32(e.len() as u32);
            assert(b.subrange(6, b.len() as int) =~= e);
            vstd::utf8::encode_utf8_valid_utf8(s);
            vstd::utf8::encode_utf8_decode_utf8(s);
        },
        ResponseV::CacheMiss => {},
    }
}

/// The error a reported failure kind stands for on the client side.
pub open spec fn spec_from_kind(kind: DaemonErrorKind, detail: String) -> DaemonError {
    match kind {
        DaemonErrorKind::FrameTooLarge => DaemonError::FrameTooLarge,
        DaemonErrorKind::BadTag => DaemonError::BadTag,
        DaemonErrorKind::NotFound => DaemonError::NoOutput,
        _ => DaemonError::Protocol(detail),
    }
}

/// The kind an error is reported as.
pub open spec fn spec_kind(e: DaemonError) -> DaemonErrorKind {
    match e {
        DaemonError::Io(_) => DaemonErrorKind::Io,
        DaemonError::FrameTooLarge => DaemonErrorKind::FrameTooLarge,
        DaemonError::BadTag => DaemonErrorKind::BadTag,
        DaemonError::Protocol(_) => DaemonErrorKind::Protocol,
        DaemonError::Build(_) => DaemonErrorKind::Build,
        DaemonError::Store(_) => DaemonErrorKind::Io,
        DaemonError::NoOutput => DaemonErrorKind::NotFound,
        DaemonError::NotRunning => DaemonErrorKind::Io,
    }
}

impl DaemonError {
    /// The kind this error is reported as over the socket.
    pub fn kind(&self) -> (k: DaemonErrorKind)
        ensures
            k == spec_kind(*self),
    {
        match self {
            DaemonError::Io(_) => DaemonErrorKind::Io,
            DaemonError::FrameTooLarge => DaemonErrorKind::FrameTooLarge,
            DaemonError::BadTag => DaemonErrorKind::BadTag,
            DaemonError::Protocol(_) => DaemonErrorKind::Protocol,
            DaemonError::Build(_) => DaemonErrorKind::Build,
            DaemonError::Store(_) => DaemonErrorKind::Io,
            DaemonError::NoOutput => DaemonErrorKind::NotFound,
            DaemonError::NotRunning => DaemonErrorKind::Io,
        }
    }

    /// The client-side error for a reported failure.
    pub fn from_kind(kind: DaemonErrorKind, detail: String) -> (e: DaemonError)
        ensures
            e == spec_from_kind(kind, detail),
    {
        match kind {
            DaemonErrorKind::FrameTooLarge => DaemonError::FrameTooLarge,
            DaemonErrorKind::BadTag => DaemonError::BadTag,
            DaemonErrorKind::NotFound => DaemonError::NoOutput,
            _ => DaemonError::Protocol(detail),
        }
    }
}

/// A daemon's self-report: wire version, pending builds, and distinct
/// derivations realized so far.
#[derive(Debug, Clone, Copy, PartialEq, Eq)]
pub struct DaemonStatus {
    pub version: u32,
    pub queue_depth: u32,
    pub built: u32,
}

/// The answer to a ping: the status a pong carries; `None` for any other
/// reply or a failed exchange.
pub fn status_of_reply(reply: Result<Response, DaemonError>) -> (r: Option<DaemonStatus>)
    ensures
        match reply {
            Ok(Response::Pong { version, queue_depth, built }) => r == Some(
                DaemonStatus { version, queue_depth, built },
            ),
            _ => r is None,
        },
{
    match reply {
        Ok(Response::Pong { version, queue_depth, built }) => Some(DaemonStatus { version, queue_depth, built }),
        _ => None,
    }
}

/// The answer to a store query: presence, the reported failure, or a bad
/// tag for any other reply.
pub fn store_query_reply(reply: Response) -> (r: Result<bool, DaemonError>)
    ensures
        match reply {
            Response::StorePresent(p) => r == Ok::<bool, DaemonError>(p),
            Response::Failed(k, d) => r == Err::<bool, DaemonError>(spec_from_kind(k, d)),
            _ => r == Err::<bool, DaemonError>(DaemonError::BadTag),
        },
{
    match reply {
        Response::StorePresent(p) => Ok(p),
        Response::Failed(k, d) => Err(DaemonError::from_kind(k, d)),
        _ => Err(DaemonError::BadTag),
    }
}

/// The answer to a cache lookup: the cached blob, none, the reported
/// failure, or a bad tag for any other reply.
pub fn cache_lookup_reply(reply: Response) -> (r: Result<Option<Vec<u8>>, DaemonError>)
    ensures
        match reply {
            Response::CacheHit(b) => r == Ok::<Option<Vec<u8>>, DaemonError>(Some(b)),
            Response::CacheMiss => r == Ok::<Option<Vec<u8>>, DaemonError>(None),
            Response::Failed(k, d) => r == Err::<Option<Vec<u8>>, DaemonError>(spec_from_kind(k, d)),
            _ => r == Err::<Option<Vec<u8>>, DaemonError>(DaemonError::BadTag),
        },
{
    match reply {
        Response::CacheHit(b) => Ok(Some(b)),
        Response::CacheMiss => Ok(None),
        Response::Failed(k, d) => Err(DaemonError::from_kind(k, d)),
        _ => Err(DaemonError::BadTag),
    }
}

/// The answer to a shutdown request: a pong acknowledges it.
pub fn shutdown_reply(reply: Response) -> (r: Result<(), DaemonError>)
    ensures
        match reply {
            Response::Pong { .. } => r == Ok::<(), DaemonError>(()),
            Response::Failed(k, d) => r == Err::<(), DaemonError>(spec_from_kind(k, d)),
            _ => r == Err::<(), DaemonError>(DaemonError::BadTag),
        },
{
    match reply {
        Response::Pong { .. } => Ok(()),
        Response::Failed(k, d) => Err(DaemonError::from_kind(k, d)),
        _ => Err(DaemonError::BadTag),
    }
}

/// The answer to a build request: the realized path, the reported failure,
/// or a bad tag for any other reply.
pub fn built_reply(reply: Response) -> (r: Result<String, DaemonError>)
    ensures
        match reply {
            Response::Built(p) => r == Ok::<String, DaemonError>(p),
            Response::Failed(k, d) => r == Err::<String, DaemonError>(spec_from_kind(k, d)),
            _ => r == Err::<String, DaemonError>(DaemonError::BadTag),
        },
{
    match reply {
        Response::Built(p) => Ok(p),
        Response::Failed(k, d) => Err(DaemonError::from_kind(k, d)),
        _ => Err(DaemonError::BadTag),
    }
}

} // verus!
