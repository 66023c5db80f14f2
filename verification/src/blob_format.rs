//! The canonical byte format of a net: a version byte, a little-endian
//! record count, then one record per agent in canonical (first-visit)
//! order. Edges name the peer's canonical index and port.
use vstd::prelude::*;
use crate::port::PortKind;

verus! {

/// Format version byte.
pub const CANON_HASH_V1_TAG: u8 = 1;

pub const KIND_FAN_ABS: u8 = 1;

pub const KIND_FAN_APP: u8 = 2;

pub const KIND_REP_IN: u8 = 3;

pub const KIND_FREE_VAR: u8 = 4;

pub const KIND_ERASER: u8 = 0xFF;

/// Index and selector of an edge to the eraser.
pub const ERASER_IDX: u32 = 0xFFFF_FFFF;

pub const ERASER_SEL: u8 = 0xFF;

/// Largest free-variable id (14 bits).
pub const FREE_VAR_ID_MAX: u32 = 0x3FFF;

/// The far end of a wire: the eraser, or port `k` of the agent with
/// canonical index `i`.
#[derive(Clone, Copy, Debug, PartialEq, Eq, Structural)]
pub enum Edge {
    Era,
    To(u32, PortKind),
}

/// One agent of a serialized net with the edges it carries: an abstraction
/// its body and variable, an application its function and argument, a
/// replicator its level, deltas and two branches.
#[derive(Clone, Copy, Debug, PartialEq, Eq, Structural)]
pub enum BlobRecord {
    Eraser,
    FreeVar(u32),
    Abs(Edge, Edge),
    App(Edge, Edge),
    Rep(u16, i16, i16, Edge, Edge),
}

pub open spec fn le32(x: u32) -> Seq<u8> {
    seq![x as u8, (x >> 8) as u8, (x >> 16) as u8, (x >> 24) as u8]
}

pub open spec fn le16(x: u16) -> Seq<u8> {
    seq![x as u8, (x >> 8) as u8]
}

/// The little-endian value of four bytes.
pub open spec fn get32(b0: u8, b1: u8, b2: u8, b3: u8) -> u32 {
    (b0 as u32) | ((b1 as u32) << 8) | ((b2 as u32) << 16) | ((b3 as u32) << 24)
}

pub open spec fn get16(b0: u8, b1: u8) -> u16 {
    (b0 as u16) | ((b1 as u16) << 8)
}

/// The selector byte of a port kind.
pub open spec fn sel_of(k: PortKind) -> u8 {
    match k {
        PortKind::Principal => 0,
        PortKind::Aux0 => 1,
        PortKind::Aux1 => 2,
    }
}

pub open spec fn enc_edge(e: Edge) -> Seq<u8> {
    match e {
        Edge::Era => le32(ERASER_IDX) + seq![ERASER_SEL],
        Edge::To(i, k) => le32(i) + seq![sel_of(k)],
    }
}

pub open spec fn enc_record(r: BlobRecord) -> Seq<u8> {
    match r {
        BlobRecord::Eraser => seq![KIND_ERASER],
        BlobRecord::FreeVar(v) => seq![KIND_FREE_VAR] + le32(v),
        BlobRecord::Abs(e0, e1) => seq![KIND_FAN_ABS] + enc_edge(e0) + enc_edge(e1),
        BlobRecord::App(e0, e1) => seq![KIND_FAN_APP] + enc_edge(e0) + enc_edge(e1),
        BlobRecord::Rep(l, d0, d1, e0, e1) => seq![KIND_REP_IN] + le16(l) + le16(d0 as u16) + le16(
            d1 as u16,
        ) + enc_edge(e0) + enc_edge(e1),
    }
}

pub open spec fn enc_records(rs: Seq<BlobRecord>) -> Seq<u8>
    decreases rs.len(),
{
    if rs.len() == 0 {
        Seq::empty()
    } else {
        enc_records(rs.drop_last()) + enc_record(rs.last())
    }
}

/// The bytes of a net made of records `rs`.
pub open spec fn enc_blob(rs: Seq<BlobRecord>) -> Seq<u8> {
    seq![CANON_HASH_V1_TAG] + le32(rs.len() as u32) + enc_records(rs)
}

/// A record the format can carry: free-variable ids have 14 bits.
pub open spec fn record_wf(r: BlobRecord) -> bool {
    match r {
        BlobRecord::FreeVar(v) => v <= FREE_VAR_ID_MAX,
        _ => true,
    }
}

pub open spec fn kind_of_sel(s: u8) -> Option<PortKind> {
    if s == 0 {
        Some(PortKind::Principal)
    } else if s == 1 {
        Some(PortKind::Aux0)
    } else if s == 2 {
        Some(PortKind::Aux1)
    } else {
        None
    }
}

/// Decode the edge at `p`, with the position after it.
pub open spec fn parse_edge(b: Seq<u8>, p: int) -> Option<(Edge, int)> {
    if 0 <= p && p + 5 <= b.len() {
        let i = get32(b[p], b[p + 1], b[p + 2], b[p + 3]);
        let s = b[p + 4];
        if i == ERASER_IDX && s == ERASER_SEL {
            Some((Edge::Era, p + 5))
        } else {
            match kind_of_sel(s) {
                Some(k) => Some((Edge::To(i, k), p + 5)),
                None => None,
            }
        }
    } else {
        None
    }
}

/// Decode two edges from `p`.
pub open spec fn parse_edges(b: Seq<u8>, p: int) -> Option<(Edge, Edge, int)> {
    match parse_edge(b, p) {
        Some((e0, p1)) => match parse_edge(b, p1) {
            Some((e1, p2)) => Some((e0, e1, p2)),
            None => None,
        },
        None => None,
    }
}

/// Decode the record at `p`, with the position after it.
pub open spec fn parse_record(b: Seq<u8>, p: int) -> Option<(BlobRecord, int)> {
    if 0 <= p < b.len() {
        let kind = b[p];
        if kind == KIND_ERASER {
            Some((BlobRecord::Eraser, p + 1))
        } else if kind == KIND_FREE_VAR {
            if p + 5 <= b.len() {
                let v = get32(b[p + 1], b[p + 2], b[p + 3], b[p + 4]);
                if v <= FREE_VAR_ID_MAX {
                    Some((BlobRecord::FreeVar(v), p + 5))
                } else {
                    None
                }
            } else {
                None
            }
        } else if kind == KIND_FAN_ABS {
            match parse_edges(b, p + 1) {
                Some((e0, e1, q)) => Some((BlobRecord::Abs(e0, e1), q)),
                None => None,
            }
        } else if kind == KIND_FAN_APP {
            match parse_edges(b, p + 1) {
                Some((e0, e1, q)) => Some((BlobRecord::App(e0, e1), q)),
                None => None,
            }
        } else if kind == KIND_REP_IN {
            if p + 7 <= b.len() {
                let l = get16(b[p + 1], b[p + 2]);
                let d0 = get16(b[p + 3], b[p + 4]) as i16;
                let d1 = get16(b[p + 5], b[p + 6]) as i16;
                match parse_edges(b, p + 7) {
                    Some((e0, e1, q)) => Some((BlobRecord::Rep(l, d0, d1, e0, e1), q)),
                    None => None,
                }
            } else {
                None
            }
        } else {
            None
        }
    } else {
        None
    }
}

/// Decode `n` records from `p`.
pub open spec fn parse_records(b: Seq<u8>, p: int, n: nat) -> Option<(Seq<BlobRecord>, int)>
    decreases n,
{
    if n == 0 {
        Some((Seq::empty(), p))
    } else {
        match parse_records(b, p, (n - 1) as nat) {
            Some((rs, q)) => match parse_record(b, q) {
                Some((r, q2)) => Some((rs.push(r), q2)),
                None => None,
            },
            None => None,
        }
    }
}

/// Decode a whole blob: version, count, exactly that many records, nothing
/// after them.
pub open spec fn parse_blob(b: Seq<u8>) -> Option<Seq<BlobRecord>> {
    if b.len() >= 5 && b[0] == CANON_HASH_V1_TAG {
        let n = get32(b[1], b[2], b[3], b[4]);
        match parse_records(b, 5, n as nat) {
            Some((rs, q)) => if q == b.len() {
                Some(rs)
            } else {
                None
            },
            None => None,
        }
    } else {
        None
    }
}

pub proof fn lemma_le32(x: u32)
    ensures
        get32(le32(x)[0], le32(x)[1], le32(x)[2], le32(x)[3]) == x,
        le32(x).len() == 4,
{
    assert(((x as u8) as u32) | ((((x >> 8) as u8) as u32) << 8) | ((((x >> 16) as u8) as u32) << 16)
        | ((((x >> 24) as u8) as u32) << 24) == x) by (bit_vector);
}

pub proof fn lemma_le16(x: u16)
    ensures
        get16(le16(x)[0], le16(x)[1]) == x,
        le16(x).len() == 2,
{
    assert(((x as u8) as u16) | ((((x >> 8) as u8) as u16) << 8) == x) by (bit_vector);
}

pub proof fn lemma_i16_round(d: i16)
    ensures
        ((d as u16) as i16) == d,
{
    assert(((d as u16) as i16) == d) by (bit_vector);
}

proof fn lemma_parse_edge(b: Seq<u8>, p: int, e: Edge)
    requires
        0 <= p,
        p + 5 <= b.len(),
        b.subrange(p, p + 5) == enc_edge(e),
    ensures
        parse_edge(b, p) == Some((e, p + 5)),
{
    let s = b.subrange(p, p + 5);
    match e {
        Edge::Era => {
            lemma_le32(ERASER_IDX);
            assert(s[0] == b[p] && s[1] == b[p + 1] && s[2] == b[p + 2] && s[3] == b[p + 3] && s[4]
                == b[p + 4]);
        },
        Edge::To(i, k) => {
            lemma_le32(i);
            assert(s[0] == b[p] && s[1] == b[p + 1] && s[2] == b[p + 2] && s[3] == b[p + 3] && s[4]
                == b[p + 4]);
            assert(b[p + 4] == sel_of(k));
        },
    }
}

proof fn lemma_parse_edges(b: Seq<u8>, p: int, e0: Edge, e1: Edge)
    requires
        0 <= p,
        p + 10 <= b.len(),
        b.subrange(p, p + 10) == enc_edge(e0) + enc_edge(e1),
    ensures
        parse_edges(b, p) == Some((e0, e1, p + 10)),
{
    assert(b.subrange(p, p + 5) =~= b.subrange(p, p + 10).subrange(0, 5));
    assert(b.subrange(p + 5, p + 10) =~= b.subrange(p, p + 10).subrange(5, 10));
    assert(enc_edge(e0).len() == 5) by {
        lemma_le32(0);
    }
    assert((enc_edge(e0) + enc_edge(e1)).subrange(0, 5) =~= enc_edge(e0));
    assert((enc_edge(e0) + enc_edge(e1)).subrange(5, 10) =~= enc_edge(e1));
    lemma_parse_edge(b, p, e0);
    lemma_parse_edge(b, p + 5, e1);
}


proof fn lemma_parse_record(b: Seq<u8>, p: int, r: BlobRecord)
    requires
        record_wf(r),
        0 <= p,
        p + enc_record(r).len() <= b.len(),
        b.subrange(p, p + enc_record(r).len()) == enc_record(r),
    ensures
        parse_record(b, p) == Some((r, p + enc_record(r).len())),
{
    let e = enc_record(r);
    let n = e.len() as int;
    assert(b[p] == e[0]) by {
        assert(b.subrange(p, p + n)[0] == b[p]);
    }
    lemma_le32(0);
    match r {
        BlobRecord::Eraser => {
            assert(e[0] == KIND_ERASER);
            assert(e.len() == 1);
            assert(b[p] == KIND_ERASER);
            assert(0 <= p < b.len());
            assert(parse_record(b, p) == Some((BlobRecord::Eraser, p + 1)));
            assert(r == BlobRecord::Eraser);
            assert(enc_record(r).len() == 1);
            assert(parse_record(b, p) == Some((r, p + enc_record(r).len())));
        },
        BlobRecord::FreeVar(v) => {
            lemma_le32(v);
            assert forall|j: int| 1 <= j < 5 implies b[p + j] == e[j] by {
                assert(b.subrange(p, p + n)[j] == b[p + j]);
            }
            let w = le32(v);
            assert(e[1] == w[0] && e[2] == w[1] && e[3] == w[2] && e[4] == w[3]);
            assert(get32(b[p + 1], b[p + 2], b[p + 3], b[p + 4]) == v);
            assert(parse_record(b, p) == Some((r, p + enc_record(r).len())));
        },
        BlobRecord::Abs(e0, e1) => {
            assert(b.subrange(p + 1, p + 11) =~= b.subrange(p, p + 11).subrange(1, 11));
            assert(e.subrange(1, 11) =~= enc_edge(e0) + enc_edge(e1));
            lemma_parse_edges(b, p + 1, e0, e1);
        },
        BlobRecord::App(e0, e1) => {
            assert(b.subrange(p + 1, p + 11) =~= b.subrange(p, p + 11).subrange(1, 11));
            assert(e.subrange(1, 11) =~= enc_edge(e0) + enc_edge(e1));
            lemma_parse_edges(b, p + 1, e0, e1);
        },
        BlobRecord::Rep(l, d0, d1, e0, e1) => {
            lemma_le16(l);
            lemma_le16(#[verifier::truncate] (d0 as u16));
            lemma_le16(#[verifier::truncate] (d1 as u16));
            lemma_i16_round(d0);
            lemma_i16_round(d1);
            assert forall|j: int| 1 <= j < 7 implies b[p + j] == e[j] by {
                assert(b.subrange(p, p + n)[j] == b[p + j]);
            }
            let wl = le16(l);
            let w0 = le16(d0 as u16);
            let w1 = le16(d1 as u16);
            assert(e[1] == wl[0] && e[2] == wl[1] && e[3] == w0[0] && e[4] == w0[1] && e[5] == w1[0]
                && e[6] == w1[1]);
            assert(get16(b[p + 1], b[p + 2]) == l);
            assert(get16(b[p + 3], b[p + 4]) == d0 as u16);
            assert(get16(b[p + 5], b[p + 6]) == d1 as u16);
            assert(b.subrange(p + 7, p + 17) =~= b.subrange(p, p + 17).subrange(7, 17));
            assert(e.subrange(7, 17) =~= enc_edge(e0) + enc_edge(e1));
            lemma_parse_edges(b, p + 7, e0, e1);
            assert(parse_record(b, p) == Some((r, p + enc_record(r).len())));
        },
    }
}

proof fn lemma_parse_records(b: Seq<u8>, p: int, rs: Seq<BlobRecord>)
    requires
        forall|i: int| 0 <= i < rs.len() ==> record_wf(#[trigger] rs[i]),
        0 <= p,
        p + enc_records(rs).len() <= b.len(),
        b.subrange(p, p + enc_records(rs).len()) == enc_records(rs),
    ensures
        parse_records(b, p, rs.len()) == Some((rs, p + enc_records(rs).len())),
    decreases rs.len(),
{
    if rs.len() > 0 {
        let init = rs.drop_last();
        let last = rs.last();
        let ei = enc_records(init);
        let el = enc_record(last);
        assert(enc_records(rs) == ei + el);
        assert(b.subrange(p, p + ei.len()) =~= b.subrange(p, p + enc_records(rs).len()).subrange(
            0,
            ei.len() as int,
        ));
        assert((ei + el).subrange(0, ei.len() as int) =~= ei);
        assert forall|i: int| 0 <= i < init.len() implies record_wf(#[trigger] init[i]) by {
            assert(init[i] == rs[i]);
        }
        lemma_parse_records(b, p, init);
        let q = p + ei.len();
        assert(b.subrange(q, q + el.len()) =~= b.subrange(p, p + enc_records(rs).len()).subrange(
            ei.len() as int,
            (ei.len() + el.len()) as int,
        ));
        assert((ei + el).subrange(ei.len() as int, (ei.len() + el.len()) as int) =~= el);
        assert(record_wf(rs[rs.len() - 1]));
        lemma_parse_record(b, q, last);
        assert(init.push(last) =~= rs);
    } else {
        assert(rs =~= Seq::<BlobRecord>::empty());
    }
}

/// Decoding the bytes of records gives back those records: the format is
/// read back exactly as it was written.
pub proof fn lemma_blob_round_trip(rs: Seq<BlobRecord>)
    requires
        rs.len() <= 0xFFFF_FFFF,
        forall|i: int| 0 <= i < rs.len() ==> record_wf(#[trigger] rs[i]),
    ensures
        parse_blob(enc_blob(rs)) == Some(rs),
{
    let b = enc_blob(rs);
    let h = seq![CANON_HASH_V1_TAG] + le32(rs.len() as u32);
    lemma_le32(rs.len() as u32);
    assert(b =~= h + enc_records(rs));
    assert(b.subrange(5, 5 + enc_records(rs).len() as int) =~= enc_records(rs));
    lemma_parse_records(b, 5, rs);
    assert(b[1] == le32(rs.len() as u32)[0]);
    assert(b[2] == le32(rs.len() as u32)[1]);
    assert(b[3] == le32(rs.len() as u32)[2]);
    assert(b[4] == le32(rs.len() as u32)[3]);
}

} // verus!
