//! The sync protocol between stores: a closed set of messages, each sent as
//! one frame `u32_le LEN ++ BODY`, where `BODY = u8 TAG ++ payload`. A body
//! decodes exactly or not at all: an unknown tag, a short body or trailing
//! bytes are errors.
use vstd::prelude::*;
use crate::blob_format::{get32, le32, lemma_le32};
use crate::canonical_hash::{Blake3Hash, push_u32};
use crate::error::DnxError;
use vstd::utf8::{encode_utf8, valid_utf8};

verus! {

/// Largest frame body accepted (256 MiB).
pub const MAX_FRAME: u32 = 268435456;

pub const TAG_WANT: u8 = 0x10;

pub const TAG_HAVE: u8 = 0x11;

pub const TAG_BLOBS: u8 = 0x90;

pub const TAG_HELD: u8 = 0x91;

pub const TAG_FAILED: u8 = 0x9F;

/// A failure of the store or of its transport: an I/O or framing error
/// (with its message), a blob that does not decode, or a blob whose bytes
/// do not hash to its key.
#[derive(Debug)]
pub enum CacheError {
    Io(String),
    Decode(DnxError),
    HashMismatch,
}

impl From<DnxError> for CacheError {
    fn from(e: DnxError) -> (r: CacheError) {
        CacheError::Decode(e)
    }
}

impl vstd::std_specs::convert::FromSpecImpl<DnxError> for CacheError {
    open spec fn obeys_from_spec() -> bool {
        true
    }

    open spec fn from_spec(e: DnxError) -> CacheError {
        CacheError::Decode(e)
    }
}

/// The sync messages.
#[derive(Debug, PartialEq, Eq)]
pub enum Msg {
    /// The keys the sender lacks.
    Want(Vec<Blake3Hash>),
    /// The blobs of the wanted keys the sender holds.
    Blobs(Vec<(Blake3Hash, Vec<u8>)>),
    /// "Do you hold these?"
    Have(Vec<Blake3Hash>),
    /// For each asked key, whether it is held.
    Held(Vec<bool>),
    /// A typed failure: kind byte and message.
    Failed(u8, String),
}

/// A message as plain data: hashes and blobs as byte strings, the failure
/// message as its UTF-8 bytes.
pub enum MsgV {
    Want(Seq<Seq<u8>>),
    Blobs(Seq<(Seq<u8>, Seq<u8>)>),
    Have(Seq<Seq<u8>>),
    Held(Seq<bool>),
    Failed(u8, Seq<u8>),
}

impl View for Msg {
    type V = MsgV;

    open spec fn view(&self) -> MsgV {
        match self {
            Msg::Want(hs) => MsgV::Want(hs@.map_values(|h: Blake3Hash| h@)),
            Msg::Blobs(ps) => MsgV::Blobs(ps@.map_values(|p: (Blake3Hash, Vec<u8>)| (p.0@, p.1@))),
            Msg::Have(hs) => MsgV::Have(hs@.map_values(|h: Blake3Hash| h@)),
            Msg::Held(bs) => MsgV::Held(bs@),
            Msg::Failed(k, s) => MsgV::Failed(*k, encode_utf8(s@)),
        }
    }
}

/// Hashes back to back.
pub open spec fn flat(hs: Seq<Seq<u8>>) -> Seq<u8>
    decreases hs.len(),
{
    if hs.len() == 0 {
        Seq::empty()
    } else {
        flat(hs.drop_last()) + hs.last()
    }
}

/// One blob: its hash, its length and its bytes.
pub open spec fn enc_pair(p: (Seq<u8>, Seq<u8>)) -> Seq<u8> {
    p.0 + le32(p.1.len() as u32) + p.1
}

pub open spec fn enc_pairs(ps: Seq<(Seq<u8>, Seq<u8>)>) -> Seq<u8>
    decreases ps.len(),
{
    if ps.len() == 0 {
        Seq::empty()
    } else {
        enc_pairs(ps.drop_last()) + enc_pair(ps.last())
    }
}

pub open spec fn enc_bools(bs: Seq<bool>) -> Seq<u8> {
    Seq::new(bs.len(), |i: int| if bs[i] { 1u8 } else { 0u8 })
}

/// The body of a message.
pub open spec fn enc_msg(m: MsgV) -> Seq<u8> {
    match m {
        MsgV::Want(hs) => seq![TAG_WANT] + le32(hs.len() as u32) + flat(hs),
        MsgV::Have(hs) => seq![TAG_HAVE] + le32(hs.len() as u32) + flat(hs),
        MsgV::Blobs(ps) => seq![TAG_BLOBS] + le32(ps.len() as u32) + enc_pairs(ps),
        MsgV::Held(bs) => seq![TAG_HELD] + le32(bs.len() as u32) + enc_bools(bs),
        MsgV::Failed(k, s) => seq![TAG_FAILED, k] + le32(s.len() as u32) + s,
    }
}

/// Every count and length fits the 32-bit fields of the body.
pub open spec fn msg_fits(m: MsgV) -> bool {
    match m {
        MsgV::Want(hs) => hs.len() <= u32::MAX,
        MsgV::Have(hs) => hs.len() <= u32::MAX,
        MsgV::Blobs(ps) => ps.len() <= u32::MAX && forall|i: int| 0 <= i < ps.len() ==> (#[trigger] ps[i]).1.len() <= u32::MAX,
        MsgV::Held(bs) => bs.len() <= u32::MAX,
        MsgV::Failed(_, s) => s.len() <= u32::MAX,
    }
}

/// `n` hashes from position `p`, and the position after them.
pub open spec fn parse_hashes(b: Seq<u8>, p: int, n: nat) -> Option<(Seq<Seq<u8>>, int)>
    decreases n,
{
    if n == 0 {
        Some((Seq::empty(), p))
    } else {
        match parse_hashes(b, p, (n - 1) as nat) {
            Some((hs, q)) => if q + 32 <= b.len() {
                Some((hs.push(b.subrange(q, q + 32)), q + 32))
            } else {
                None
            },
            None => None,
        }
    }
}

/// `n` blobs from position `p`, and the position after them.
pub open spec fn parse_pairs(b: Seq<u8>, p: int, n: nat) -> Option<(Seq<(Seq<u8>, Seq<u8>)>, int)>
    decreases n,
{
    if n == 0 {
        Some((Seq::empty(), p))
    } else {
        match parse_pairs(b, p, (n - 1) as nat) {
            Some((ps, q)) => if q + 36 <= b.len() {
                let len = get32(b[q + 32], b[q + 33], b[q + 34], b[q + 35]) as int;
                if q + 36 + len <= b.len() {
                    Some((ps.push((b.subrange(q, q + 32), b.subrange(q + 36, q + 36 + len))), q + 36 + len))
                } else {
                    None
                }
            } else {
                None
            },
            None => None,
        }
    }
}

/// The count at position `p`.
pub open spec fn count_at(b: Seq<u8>, p: int) -> nat {
    get32(b[p], b[p + 1], b[p + 2], b[p + 3]) as nat
}

/// The message a body decodes to, if it decodes.
pub open spec fn parse_msg(b: Seq<u8>) -> Option<MsgV> {
    if b.len() < 5 {
        None
    } else if b[0] == TAG_WANT || b[0] == TAG_HAVE {
        match parse_hashes(b, 5, count_at(b, 1)) {
            Some((hs, q)) => if q == b.len() {
                Some(if b[0] == TAG_WANT { MsgV::Want(hs) } else { MsgV::Have(hs) })
            } else {
                None
            },
            None => None,
        }
    } else if b[0] == TAG_BLOBS {
        match parse_pairs(b, 5, count_at(b, 1)) {
            Some((ps, q)) => if q == b.len() {
                Some(MsgV::Blobs(ps))
            } else {
                None
            },
            None => None,
        }
    } else if b[0] == TAG_HELD {
        let n = count_at(b, 1);
        if 5 + n == b.len() {
            Some(MsgV::Held(Seq::new(n, |i: int| b[5 + i] != 0)))
        } else {
            None
        }
    } else if b[0] == TAG_FAILED {
        if b.len() >= 6 {
            let n = count_at(b, 2);
            if 6 + n == b.len() && valid_utf8(b.subrange(6, b.len() as int)) {
                Some(MsgV::Failed(b[1], b.subrange(6, b.len() as int)))
            } else {
                None
            }
        } else {
            None
        }
    } else {
        None
    }
}

fn io_error(msg: &str) -> (e: CacheError)
    ensures
        e matches CacheError::Io(m) && m@ == msg@,
{
    CacheError::Io(msg.to_owned())
}

/// `std::str::from_utf8`, owned: the string whose UTF-8 encoding is
/// `bytes`, or none when `bytes` is not valid UTF-8 (as the function's
/// documentation states; the contract takes vstd's `valid_utf8` to be the
/// same check).
#[verifier::external_body]
pub(crate) fn utf8_string(bytes: &[u8]) -> (r: Option<String>)
    ensures
        r matches Some(s) ==> encode_utf8(s@) == bytes@,
        r is None <==> !valid_utf8(bytes@),
{
    match std::str::from_utf8(bytes) {
        Ok(s) => Some(s.to_owned()),
        Err(_) => None,
    }
}

fn push_hash(buf: &mut Vec<u8>, h: &Blake3Hash)
    ensures
        final(buf)@ == old(buf)@ + h@,
{
    let mut i: usize = 0;
    while i < 32
        invariant
            i <= 32,
            h@.len() == 32,
            buf@ == old(buf)@ + h@.subrange(0, i as int),
        decreases 32 - i,
    {
        buf.push(h[i]);
        proof {
            assert(h@.subrange(0, i + 1) =~= h@.subrange(0, i as int).push(h@[i as int]));
        }
        i = i + 1;
    }
    proof {
        assert(h@.subrange(0, 32) =~= h@);
    }
}

fn push_bytes(buf: &mut Vec<u8>, s: &[u8])
    ensures
        final(buf)@ == old(buf)@ + s@,
{
    let mut i: usize = 0;
    while i < s.len()
        invariant
            i <= s@.len(),
            buf@ == old(buf)@ + s@.subrange(0, i as int),
        decreases s@.len() - i,
    {
        buf.push(s[i]);
        proof {
            assert(s@.subrange(0, i + 1) =~= s@.subrange(0, i as int).push(s@[i as int]));
        }
        i = i + 1;
    }
    proof {
        assert(s@.subrange(0, s@.len() as int) =~= s@);
    }
}

fn encode_hashes(buf: &mut Vec<u8>, hs: &Vec<Blake3Hash>)
    requires
        hs@.len() <= u32::MAX,
    ensures
        final(buf)@ == old(buf)@ + le32(hs@.len() as u32) + flat(hs@.map_values(|h: Blake3Hash| h@)),
{
    push_u32(buf, hs.len() as u32);
    let ghost start = buf@;
    let mut i: usize = 0;
    while i < hs.len()
        invariant
            i <= hs@.len(),
            buf@ == start + flat(hs@.subrange(0, i as int).map_values(|h: Blake3Hash| h@)),
        decreases hs@.len() - i,
    {
        push_hash(buf, &hs[i]);
        proof {
            let s = hs@.subrange(0, i + 1).map_values(|h: Blake3Hash| h@);
            assert(s.drop_last() =~= hs@.subrange(0, i as int).map_values(|h: Blake3Hash| h@));
            assert(s.last() == hs@[i as int]@);
        }
        i = i + 1;
    }
    proof {
        assert(hs@.subrange(0, hs@.len() as int) =~= hs@);
    }
}

/// The body of a message; an error when a count or length does not fit
/// its 32-bit field.
pub fn encode_body(m: &Msg) -> (r: Result<Vec<u8>, CacheError>)
    ensures
        msg_fits(m@) ==> (r matches Ok(b) && b@ == enc_msg(m@)),
        !msg_fits(m@) ==> (r matches Err(e) && e is Io),
{
    let mut buf: Vec<u8> = Vec::new();
    match m {
        Msg::Want(keys) => {
            if keys.len() > 0xFFFF_FFFF {
                return Err(io_error("length exceeds u32"));
            }
            buf.push(TAG_WANT);
            encode_hashes(&mut buf, keys);
        },
        Msg::Have(keys) => {
            if keys.len() > 0xFFFF_FFFF {
                return Err(io_error("length exceeds u32"));
            }
            buf.push(TAG_HAVE);
            encode_hashes(&mut buf, keys);
        },
        Msg::Blobs(pairs) => {
            if pairs.len() > 0xFFFF_FFFF {
                return Err(io_error("length exceeds u32"));
            }
            buf.push(TAG_BLOBS);
            push_u32(&mut buf, pairs.len() as u32);
            let ghost start = buf@;
            let mut i: usize = 0;
            while i < pairs.len()
                invariant
                    i <= pairs@.len(),
                    pairs@.len() <= u32::MAX,
                    m@ == MsgV::Blobs(pairs@.map_values(|p: (Blake3Hash, Vec<u8>)| (p.0@, p.1@))),
                    forall|j: int| 0 <= j < i ==> (#[trigger] pairs@[j]).1@.len() <= u32::MAX,
                    buf@ == start + enc_pairs(
                        pairs@.subrange(0, i as int).map_values(|p: (Blake3Hash, Vec<u8>)| (p.0@, p.1@)),
                    ),
                decreases pairs@.len() - i,
            {
                let (h, blob) = &pairs[i];
                if blob.len() > 0xFFFF_FFFF {
                    proof {
                        let ps = pairs@.map_values(|p: (Blake3Hash, Vec<u8>)| (p.0@, p.1@));
                        assert(ps[i as int].1.len() > u32::MAX);
                        assert(m@ == MsgV::Blobs(ps));
                        assert(!msg_fits(m@));
                    }
                    return Err(io_error("length exceeds u32"));
                }
                push_hash(&mut buf, h);
                push_u32(&mut buf, blob.len() as u32);
                push_bytes(&mut buf, blob.as_slice());
                proof {
                    let s = pairs@.subrange(0, i + 1).map_values(|p: (Blake3Hash, Vec<u8>)| (p.0@, p.1@));
                    assert(s.drop_last() =~= pairs@.subrange(0, i as int).map_values(
                        |p: (Blake3Hash, Vec<u8>)| (p.0@, p.1@),
                    ));
                    assert(s.last() == (pairs@[i as int].0@, pairs@[i as int].1@));
                    assert(buf@ =~= start + enc_pairs(s));
                }
                i = i + 1;
            }
            proof {
                assert(pairs@.subrange(0, pairs@.len() as int) =~= pairs@);
            }
        },
        Msg::Held(bits) => {
            if bits.len() > 0xFFFF_FFFF {
                return Err(io_error("length exceeds u32"));
            }
            buf.push(TAG_HELD);
            push_u32(&mut buf, bits.len() as u32);
            let ghost start = buf@;
            let mut i: usize = 0;
            while i < bits.len()
                invariant
                    i <= bits@.len(),
                    buf@ == start + enc_bools(bits@.subrange(0, i as int)),
                decreases bits@.len() - i,
            {
                buf.push(if bits[i] {
                    1u8
                } else {
                    0u8
                });
                proof {
                    assert(enc_bools(bits@.subrange(0, i + 1)) =~= enc_bools(bits@.subrange(0, i as int)).push(
                        if bits@[i as int] {
                            1u8
                        } else {
                            0u8
                        },
                    ));
                }
                i = i + 1;
            }
            proof {
                assert(bits@.subrange(0, bits@.len() as int) =~= bits@);
            }
        },
        Msg::Failed(kind, why) => {
            let bytes = why.as_str().as_bytes();
            if bytes.len() > 0xFFFF_FFFF {
                return Err(io_error("length exceeds u32"));
            }
            buf.push(TAG_FAILED);
            buf.push(*kind);
            push_u32(&mut buf, bytes.len() as u32);
            push_bytes(&mut buf, bytes);
        },
    }
    proof {
        assert(buf@ =~= enc_msg(m@));
    }
    Ok(buf)
}

/// Every hash is 32 bytes and a failure message is valid UTF-8.
pub open spec fn msg_wf(m: MsgV) -> bool {
    match m {
        MsgV::Want(hs) => forall|i: int| 0 <= i < hs.len() ==> (#[trigger] hs[i]).len() == 32,
        MsgV::Have(hs) => forall|i: int| 0 <= i < hs.len() ==> (#[trigger] hs[i]).len() == 32,
        MsgV::Blobs(ps) => forall|i: int| 0 <= i < ps.len() ==> (#[trigger] ps[i]).0.len() == 32,
        MsgV::Held(_) => true,
        MsgV::Failed(_, s) => valid_utf8(s),
    }
}

proof fn lemma_flat_len(hs: Seq<Seq<u8>>)
    requires
        forall|i: int| 0 <= i < hs.len() ==> (#[trigger] hs[i]).len() == 32,
    ensures
        flat(hs).len() == 32 * hs.len(),
    decreases hs.len(),
{
    if hs.len() > 0 {
        lemma_flat_len(hs.drop_last());
    }
}

/// Hashes laid out from `p` decode back.
proof fn lemma_parse_hashes(b: Seq<u8>, p: int, hs: Seq<Seq<u8>>)
    requires
        0 <= p,
        forall|i: int| 0 <= i < hs.len() ==> (#[trigger] hs[i]).len() == 32,
        p + flat(hs).len() <= b.len(),
        b.subrange(p, p + flat(hs).len()) == flat(hs),
    ensures
        parse_hashes(b, p, hs.len()) == Some((hs, p + flat(hs).len())),
    decreases hs.len(),
{
    if hs.len() > 0 {
        let init = hs.drop_last();
        let fi = flat(init);
        assert(b.subrange(p, p + fi.len()) =~= b.subrange(p, p + flat(hs).len()).subrange(0, fi.len() as int));
        assert(flat(hs).subrange(0, fi.len() as int) =~= fi);
        lemma_parse_hashes(b, p, init);
        let q = p + fi.len();
        assert(b.subrange(q, q + 32) =~= b.subrange(p, p + flat(hs).len()).subrange(fi.len() as int, (fi.len() + 32) as int));
        assert(flat(hs).subrange(fi.len() as int, (fi.len() + 32) as int) =~= hs.last());
        assert(init.push(hs.last()) =~= hs);
        assert((hs.len() - 1) as nat == init.len());
    }
}

/// Blobs laid out from `p` decode back.
proof fn lemma_parse_pairs(b: Seq<u8>, p: int, ps: Seq<(Seq<u8>, Seq<u8>)>)
    requires
        0 <= p,
        forall|i: int| 0 <= i < ps.len() ==> (#[trigger] ps[i]).0.len() == 32 && ps[i].1.len() <= u32::MAX,
        p + enc_pairs(ps).len() <= b.len(),
        b.subrange(p, p + enc_pairs(ps).len()) == enc_pairs(ps),
    ensures
        parse_pairs(b, p, ps.len()) == Some((ps, p + enc_pairs(ps).len())),
    decreases ps.len(),
{
    if ps.len() > 0 {
        let init = ps.drop_last();
        let x = ps.last();
        let fi = enc_pairs(init);
        let whole = b.subrange(p, p + enc_pairs(ps).len());
        assert(b.subrange(p, p + fi.len()) =~= whole.subrange(0, fi.len() as int));
        assert(enc_pairs(ps).subrange(0, fi.len() as int) =~= fi);
        lemma_parse_pairs(b, p, init);
        let q = p + fi.len();
        let e = enc_pair(x);
        assert(enc_pairs(ps).subrange(fi.len() as int, enc_pairs(ps).len() as int) =~= e);
        lemma_le32(x.1.len() as u32);
        assert(b[q + 32] == e[32]);
        assert(b[q + 33] == e[33]);
        assert(b[q + 34] == e[34]);
        assert(b[q + 35] == e[35]);
        assert(e.subrange(32, 36) =~= le32(x.1.len() as u32));
        assert(b.subrange(q, q + 32) =~= e.subrange(0, 32));
        assert(e.subrange(0, 32) =~= x.0);
        assert(b.subrange(q + 36, q + 36 + x.1.len()) =~= e.subrange(36, e.len() as int));
        assert(e.subrange(36, e.len() as int) =~= x.1);
        assert(init.push(x) =~= ps);
        assert((ps.len() - 1) as nat == init.len());
    }
}

/// A message that fits its fields decodes from its own body: what the
/// decoder reads is what the encoder wrote.
pub proof fn lemma_msg_round_trip(m: MsgV)
    requires
        msg_fits(m),
        msg_wf(m),
    ensures
        parse_msg(enc_msg(m)) == Some(m),
{
    let b = enc_msg(m);
    match m {
        MsgV::Want(hs) => {
            lemma_le32(hs.len() as u32);
            lemma_flat_len(hs);
            assert(b.subrange(5, (5 + flat(hs).len()) as int) =~= flat(hs));
            lemma_parse_hashes(b, 5, hs);
            assert(count_at(b, 1) == hs.len());
        },
        MsgV::Have(hs) => {
            lemma_le32(hs.len() as u32);
            lemma_flat_len(hs);
            assert(b.subrange(5, (5 + flat(hs).len()) as int) =~= flat(hs));
            lemma_parse_hashes(b, 5, hs);
            assert(count_at(b, 1) == hs.len());
        },
        MsgV::Blobs(ps) => {
            lemma_le32(ps.len() as u32);
            assert(b.subrange(5, (5 + enc_pairs(ps).len()) as int) =~= enc_pairs(ps));
            lemma_parse_pairs(b, 5, ps);
            assert(count_at(b, 1) == ps.len());
        },
        MsgV::Held(bs) => {
            lemma_le32(bs.len() as u32);
            assert(count_at(b, 1) == bs.len());
            assert(Seq::new(bs.len(), |i: int| b[5 + i] != 0) =~= bs);
        },
        MsgV::Failed(k, s) => {
            lemma_le32(s.len() as u32);
            assert(count_at(b, 2) == s.len());
            assert(b.subrange(6, b.len() as int) =~= s);
        },
    }
}

/// The view of a message built by this library is well formed.
pub proof fn lemma_msg_view_wf(m: Msg)
    ensures
        msg_wf(m@),
{
    match m {
        Msg::Failed(_, s) => {
            vstd::utf8::encode_utf8_valid_utf8(s@);
        },
        _ => {},
    }
}

/// Decoding from a position that already failed keeps failing.
proof fn lemma_hashes_fail(b: Seq<u8>, p: int, k: nat, n: nat)
    requires
        k <= n,
        parse_hashes(b, p, k) is None,
    ensures
        parse_hashes(b, p, n) is None,
    decreases n,
{
    if n > k {
        lemma_hashes_fail(b, p, k, (n - 1) as nat);
    }
}

proof fn lemma_pairs_fail(b: Seq<u8>, p: int, k: nat, n: nat)
    requires
        k <= n,
        parse_pairs(b, p, k) is None,
    ensures
        parse_pairs(b, p, n) is None,
    decreases n,
{
    if n > k {
        lemma_pairs_fail(b, p, k, (n - 1) as nat);
    }
}

fn read_count(b: &[u8], p: usize) -> (r: Result<u32, CacheError>)
    ensures
        (p + 4 <= b@.len()) == (r is Ok),
        r matches Ok(v) ==> v == count_at(b@, p as int),
        r matches Err(e) ==> e is Io,
{
    if p < b.len() && b.len() - p >= 4 {
        Ok((b[p] as u32) | ((b[p + 1] as u32) << 8) | ((b[p + 2] as u32) << 16) | ((b[p + 3] as u32) << 24))
    } else {
        Err(io_error("frame body truncated"))
    }
}

fn read_hash(b: &[u8], p: usize) -> (r: Result<Blake3Hash, CacheError>)
    ensures
        (p + 32 <= b@.len()) == (r is Ok),
        r matches Ok(h) ==> h@ == b@.subrange(p as int, p + 32),
        r matches Err(e) ==> e is Io,
{
    if !(p < b.len() && b.len() - p >= 32) {
        return Err(io_error("frame body truncated"));
    }
    let mut h: Blake3Hash = [0u8; 32];
    let mut i: usize = 0;
    let blen = b.len();
    while i < 32
        invariant
            i <= 32,
            p + 32 <= b@.len(),
            blen == b@.len(),
            h@.len() == 32,
            forall|j: int| 0 <= j < i ==> h@[j] == b@[p + j],
        decreases 32 - i,
    {
        h[i] = b[p + i];
        i = i + 1;
    }
    proof {
        assert(h@ =~= b@.subrange(p as int, p + 32));
    }
    Ok(h)
}

fn decode_hashes(b: &[u8], p: usize) -> (r: Result<(Vec<Blake3Hash>, usize), CacheError>)
    requires
        p + 4 <= b@.len(),
    ensures
        match parse_hashes(b@, p + 4, count_at(b@, p as int)) {
            Some((hs, q)) => r matches Ok((v, q2)) && v@.map_values(|h: Blake3Hash| h@) == hs && q2 == q,
            None => r matches Err(e) && e is Io,
        },
{
    let blen = b.len();
    let n = match read_count(b, p) {
        Ok(v) => v,
        Err(e) => {
            return Err(e);
        },
    };
    let mut out: Vec<Blake3Hash> = Vec::new();
    let mut pos: usize = p + 4;
    let mut k: u32 = 0;
    while k < n
        invariant
            k <= n,
            n == count_at(b@, p as int),
            parse_hashes(b@, p + 4, k as nat) == Some((out@.map_values(|h: Blake3Hash| h@), pos as int)),
            pos <= b@.len(),
            blen == b@.len(),
        decreases n - k,
    {
        let h = match read_hash(b, pos) {
            Ok(h) => h,
            Err(e) => {
                proof {
                    assert(parse_hashes(b@, p + 4, (k + 1) as nat) is None);
                    lemma_hashes_fail(b@, p + 4, (k + 1) as nat, n as nat);
                }
                return Err(e);
            },
        };
        let ghost before = out@;
        out.push(h);
        proof {
            assert(out@.map_values(|h: Blake3Hash| h@) =~= before.map_values(|h: Blake3Hash| h@).push(h@));
        }
        pos = pos + 32;
        k = k + 1;
    }
    Ok((out, pos))
}

fn decode_pairs(b: &[u8], p: usize) -> (r: Result<(Vec<(Blake3Hash, Vec<u8>)>, usize), CacheError>)
    requires
        p + 4 <= b@.len(),
    ensures
        match parse_pairs(b@, p + 4, count_at(b@, p as int)) {
            Some((ps, q)) => r matches Ok((v, q2)) && v@.map_values(|x: (Blake3Hash, Vec<u8>)| (x.0@, x.1@)) == ps
                && q2 == q,
            None => r matches Err(e) && e is Io,
        },
{
    let blen = b.len();
    let n = match read_count(b, p) {
        Ok(v) => v,
        Err(e) => {
            return Err(e);
        },
    };
    let mut out: Vec<(Blake3Hash, Vec<u8>)> = Vec::new();
    let mut pos: usize = p + 4;
    let mut k: u32 = 0;
    while k < n
        invariant
            k <= n,
            n == count_at(b@, p as int),
            parse_pairs(b@, p + 4, k as nat) == Some(
                (out@.map_values(|x: (Blake3Hash, Vec<u8>)| (x.0@, x.1@)), pos as int),
            ),
            pos <= b@.len(),
            blen == b@.len(),
        decreases n - k,
    {
        if !(b.len() - pos >= 36) {
            proof {
                assert(parse_pairs(b@, p + 4, (k + 1) as nat) is None);
                lemma_pairs_fail(b@, p + 4, (k + 1) as nat, n as nat);
            }
            return Err(io_error("frame body truncated"));
        }
        let h = match read_hash(b, pos) {
            Ok(h) => h,
            Err(e) => {
                return Err(e);
            },
        };
        let len = match read_count(b, pos + 32) {
            Ok(v) => v,
            Err(e) => {
                return Err(e);
            },
        };
        let start = pos + 36;
        if !(b.len() - start >= len as usize) {
            proof {
                assert(parse_pairs(b@, p + 4, (k + 1) as nat) is None);
                lemma_pairs_fail(b@, p + 4, (k + 1) as nat, n as nat);
            }
            return Err(io_error("frame body truncated"));
        }
        let mut blob: Vec<u8> = Vec::new();
        let mut i: usize = 0;
        while i < len as usize
            invariant
                i <= len,
                start + len <= b@.len(),
                blen == b@.len(),
                blob@ == b@.subrange(start as int, start + i),
            decreases len - i,
        {
            blob.push(b[start + i]);
            proof {
                assert(b@.subrange(start as int, start + i + 1) =~= b@.subrange(start as int, start + i).push(
                    b@[start + i],
                ));
            }
            i = i + 1;
        }
        let ghost before = out@;
        out.push((h, blob));
        proof {
            assert(out@.map_values(|x: (Blake3Hash, Vec<u8>)| (x.0@, x.1@)) =~= before.map_values(
                |x: (Blake3Hash, Vec<u8>)| (x.0@, x.1@),
            ).push((b@.subrange(pos as int, pos + 32), b@.subrange(start as int, start + len))));
        }
        pos = start + len as usize;
        k = k + 1;
    }
    Ok((out, pos))
}

/// Decode a frame body into the message it encodes; an I/O error when it
/// does not decode exactly.
pub fn decode_body(body: &[u8]) -> (r: Result<Msg, CacheError>)
    ensures
        match parse_msg(body@) {
            Some(v) => r matches Ok(m) && m@ == v,
            None => r matches Err(e) && e is Io,
        },
{
    if body.len() < 5 {
        return Err(io_error("frame body truncated"));
    }
    let tag = body[0];
    if tag == TAG_WANT || tag == TAG_HAVE {
        let (hs, q) = match decode_hashes(body, 1) {
            Ok(v) => v,
            Err(e) => {
                return Err(e);
            },
        };
        if q != body.len() {
            return Err(io_error("frame body has trailing bytes"));
        }
        if tag == TAG_WANT {
            Ok(Msg::Want(hs))
        } else {
            Ok(Msg::Have(hs))
        }
    } else if tag == TAG_BLOBS {
        let (ps, q) = match decode_pairs(body, 1) {
            Ok(v) => v,
            Err(e) => {
                return Err(e);
            },
        };
        if q != body.len() {
            return Err(io_error("frame body has trailing bytes"));
        }
        Ok(Msg::Blobs(ps))
    } else if tag == TAG_HELD {
        let n = match read_count(body, 1) {
            Ok(v) => v,
            Err(e) => {
                return Err(e);
            },
        };
        if body.len() - 5 != n as usize {
            return Err(io_error("frame body truncated or has trailing bytes"));
        }
        let mut bits: Vec<bool> = Vec::new();
        let mut i: usize = 0;
        while i < n as usize
            invariant
                i <= n,
                5 + n == body@.len(),
                body.len() == body@.len(),
                bits@ == Seq::new(i as nat, |j: int| body@[5 + j] != 0),
            decreases n - i,
        {
            bits.push(body[5 + i] != 0);
            proof {
                assert(bits@ =~= Seq::new((i + 1) as nat, |j: int| body@[5 + j] != 0));
            }
            i = i + 1;
        }
        Ok(Msg::Held(bits))
    } else if tag == TAG_FAILED {
        if body.len() < 6 {
            return Err(io_error("frame body truncated"));
        }
        let kind = body[1];
        let n = match read_count(body, 2) {
            Ok(v) => v,
            Err(e) => {
                return Err(e);
            },
        };
        if body.len() - 6 != n as usize {
            return Err(io_error("frame body truncated or has trailing bytes"));
        }
        let mut text: Vec<u8> = Vec::new();
        let mut i: usize = 6;
        while i < body.len()
            invariant
                6 <= i <= body@.len(),
                text@ == body@.subrange(6, i as int),
            decreases body@.len() - i,
        {
            text.push(body[i]);
            proof {
                assert(body@.subrange(6, i + 1) =~= body@.subrange(6, i as int).push(body@[i as int]));
            }
            i = i + 1;
        }
        match utf8_string(text.as_slice()) {
            Some(why) => Ok(Msg::Failed(kind, why)),
            None => Err(io_error("Failed message is not utf-8")),
        }
    } else {
        Err(io_error("unknown wire tag"))
    }
}

/// A whole frame: the body's length, then the body. Bodies over the frame
/// limit are refused.
pub fn encode_frame(m: &Msg) -> (r: Result<Vec<u8>, CacheError>)
    ensures
        msg_fits(m@) && enc_msg(m@).len() <= MAX_FRAME ==> (r matches Ok(f) && f@ == le32(
            enc_msg(m@).len() as u32,
        ) + enc_msg(m@)),
        !(msg_fits(m@) && enc_msg(m@).len() <= MAX_FRAME) ==> (r matches Err(e) && e is Io),
{
    let body = match encode_body(m) {
        Ok(b) => b,
        Err(e) => {
            return Err(e);
        },
    };
    if body.len() > MAX_FRAME as usize {
        return Err(io_error("frame exceeds MAX_FRAME"));
    }
    let mut out: Vec<u8> = Vec::new();
    push_u32(&mut out, body.len() as u32);
    push_bytes(&mut out, body.as_slice());
    Ok(out)
}

/// The body length a frame's four-byte prefix announces; a length over the
/// frame limit is refused before anything is read.
pub fn frame_len(prefix: [u8; 4]) -> (r: Result<u32, CacheError>)
    ensures
        get32(prefix@[0], prefix@[1], prefix@[2], prefix@[3]) <= MAX_FRAME ==> r == Ok::<u32, CacheError>(
            get32(prefix@[0], prefix@[1], prefix@[2], prefix@[3]),
        ),
        get32(prefix@[0], prefix@[1], prefix@[2], prefix@[3]) > MAX_FRAME ==> (r matches Err(e) && e is Io),
{
    let n = (prefix[0] as u32) | ((prefix[1] as u32) << 8) | ((prefix[2] as u32) << 16) | ((prefix[3] as u32) << 24);
    if n > MAX_FRAME {
        Err(io_error("incoming frame exceeds MAX_FRAME"))
    } else {
        Ok(n)
    }
}

/// The answer to a `Have` of `keys`: the `Held` flags, one per key in
/// order, or an I/O error when the peer sent another number of them.
pub fn check_held(keys: &[Blake3Hash], present: Vec<bool>) -> (r: Result<Vec<bool>, CacheError>)
    ensures
        present@.len() == keys@.len() ==> r == Ok::<Vec<bool>, CacheError>(present),
        present@.len() != keys@.len() ==> (r matches Err(CacheError::Io(m)) && m@
            == "Held length does not match Have"@),
{
    if present.len() == keys.len() {
        Ok(present)
    } else {
        Err(io_error("Held length does not match Have"))
    }
}

} // verus!
