//! The lock file: local-path inputs, each pinned by the BLAKE3 hash of its
//! content, sorted by name, one per line as `name TAB path TAB hex(hash)`.
use vstd::prelude::*;
use crate::canonical_hash::{Blake3Hash, blake3_hash, blake3_of};
use crate::dist::{hex, hex_digit, hex_of, lemma_nibbles, same_hash};
use crate::text::push_char;

verus! {

/// Why a flake could not be loaded, shown, evaluated or locked.
#[derive(Debug, Clone, PartialEq, Eq)]
pub enum FlakeError {
    Io(String),
    Parse(String),
    NotAFlake(String),
    AttrNotFound(String),
    Eval(String),
    Lock(String),
    HashMismatch { input: String },
}

/// Whether a flake's lock file pins exactly its declared inputs with
/// current content.
#[derive(Debug, Clone, Copy, PartialEq, Eq)]
pub enum LockStatus {
    Absent,
    UpToDate,
    Stale,
}

/// One locked input: a local path pinned by the hash of its content.
#[derive(Debug, Clone, PartialEq, Eq)]
pub struct LockEntry {
    pub name: String,
    pub path: String,
    pub hash: Blake3Hash,
}

/// An entry as plain data.
pub type EntryV = (Seq<char>, Seq<char>, Seq<u8>);

pub open spec fn entry_v(e: LockEntry) -> EntryV {
    (e.name@, e.path@, e.hash@)
}

/// The lock file: its entries, sorted by name.
#[derive(Debug, Clone, PartialEq, Eq)]
pub struct LockFile {
    pub entries: Vec<LockEntry>,
}

/// Lexicographic order of names by character (the order of their UTF-8
/// bytes).
pub open spec fn name_lt(a: Seq<char>, b: Seq<char>) -> bool
    decreases a.len(),
{
    if b.len() == 0 {
        false
    } else if a.len() == 0 {
        true
    } else if a[0] != b[0] {
        (a[0] as u32) < (b[0] as u32)
    } else {
        name_lt(a.drop_first(), b.drop_first())
    }
}

/// One line of the text form.
pub open spec fn line_of(e: EntryV) -> Seq<char> {
    e.0 + seq!['\t'] + e.1 + seq!['\t'] + hex_of(e.2) + seq!['\n']
}

/// The text form of entries, in order.
pub open spec fn text_of(es: Seq<EntryV>) -> Seq<char>
    decreases es.len(),
{
    if es.len() == 0 {
        Seq::empty()
    } else {
        line_of(es[0]) + text_of(es.drop_first())
    }
}

/// The position of the first `c` at or after `i`, or the length.
pub open spec fn find_char(t: Seq<char>, i: int, c: char) -> int
    decreases t.len() - i,
{
    if i >= t.len() {
        t.len() as int
    } else if t[i] == c {
        i
    } else {
        find_char(t, i + 1, c)
    }
}

/// The value of a lower-case hex digit.
pub open spec fn nibble_of(c: char) -> Option<u8> {
    if '0' <= c && c <= '9' {
        Some(((c as u32) - ('0' as u32)) as u8)
    } else if 'a' <= c && c <= 'f' {
        Some(((c as u32) - ('a' as u32) + 10) as u8)
    } else {
        None
    }
}

/// Sixty-four lower-case hex digits as 32 bytes.
pub open spec fn unhex(h: Seq<char>) -> Option<Seq<u8>> {
    if h.len() == 64 && forall|i: int| 0 <= i < 64 ==> (#[trigger] nibble_of(h[i])) is Some {
        Some(
            Seq::new(
                32,
                |k: int| ((nibble_of(h[2 * k])->0 * 16) + nibble_of(h[2 * k + 1])->0) as u8,
            ),
        )
    } else {
        None
    }
}

/// A line `name TAB path TAB hash` with exactly three columns and a valid
/// hash.
pub open spec fn parse_line(l: Seq<char>) -> Option<EntryV> {
    let t1 = find_char(l, 0, '\t');
    let t2 = find_char(l, t1 + 1, '\t');
    let t3 = find_char(l, t2 + 1, '\t');
    if t1 >= l.len() || t2 >= l.len() || t3 < l.len() {
        None
    } else {
        match unhex(l.subrange(t2 + 1, l.len() as int)) {
            Some(h) => Some((l.subrange(0, t1), l.subrange(t1 + 1, t2), h)),
            None => None,
        }
    }
}

/// The line starting at `i`, without its newline, and without a carriage
/// return before that newline.
pub open spec fn line_at(t: Seq<char>, i: int) -> Seq<char> {
    let end = find_char(t, i, '\n');
    if end < t.len() && end > i && t[end - 1] == '\r' {
        t.subrange(i, end - 1)
    } else {
        t.subrange(i, end)
    }
}

/// The entries of the lines from position `i` on, skipping empty lines.
pub open spec fn parse_from(t: Seq<char>, i: int) -> Option<Seq<EntryV>>
    decreases t.len() - i,
{
    if i < 0 || i >= t.len() {
        Some(Seq::empty())
    } else {
        proof {
            lemma_find_char_bounds(t, i, '\n');
        }
        let end = find_char(t, i, '\n');
        let next = if end < t.len() {
            end + 1
        } else {
            end
        };
        let l = line_at(t, i);
        if next <= i {
            None
        } else if l.len() == 0 {
            parse_from(t, next)
        } else {
            match (parse_line(l), parse_from(t, next)) {
                (Some(e), Some(rest)) => Some(seq![e] + rest),
                _ => None,
            }
        }
    }
}

pub proof fn lemma_find_char_bounds(t: Seq<char>, i: int, c: char)
    requires
        0 <= i,
    ensures
        i <= find_char(t, i, c) <= t.len() || (i > t.len() && find_char(t, i, c) == t.len()),
        find_char(t, i, c) < t.len() ==> t[find_char(t, i, c)] == c,
        forall|k: int| i <= k < find_char(t, i, c) ==> t[k] != c,
    decreases t.len() - i,
{
    if i < t.len() && t[i] != c {
        lemma_find_char_bounds(t, i + 1, c);
    }
}

/// The characters of a string.
pub(crate) fn chars_of(s: &str) -> (v: Vec<char>)
    ensures
        v@ == s@,
{
    broadcast use vstd::string::axiom_spec_iter;

    let mut v: Vec<char> = Vec::new();
    for c in it: s.chars()
        invariant
            it.seq() == s@,
            v@ == s@.subrange(0, it.index() as int),
    {
        v.push(c);
        proof {
            assert(s@.subrange(0, it.index() + 1) =~= s@.subrange(0, it.index() as int).push(c));
        }
    }
    proof {
        assert(s@.subrange(0, s@.len() as int) =~= s@);
    }
    v
}

/// The characters `a .. b` as a string.
fn string_of(cs: &Vec<char>, a: usize, b: usize) -> (s: String)
    requires
        a <= b <= cs@.len(),
    ensures
        s@ == cs@.subrange(a as int, b as int),
{
    let mut s = String::new();
    let mut i = a;
    proof {
        assert(cs@.subrange(a as int, a as int) =~= Seq::<char>::empty());
    }
    while i < b
        invariant
            a <= i <= b <= cs@.len(),
            s@ == cs@.subrange(a as int, i as int),
        decreases b - i,
    {
        push_char(&mut s, cs[i]);
        proof {
            assert(cs@.subrange(a as int, i + 1) =~= cs@.subrange(a as int, i as int).push(cs@[i as int]));
        }
        i = i + 1;
    }
    s
}

fn find_in(cs: &Vec<char>, i: usize, end: usize, c: char) -> (r: usize)
    requires
        i <= end <= cs@.len(),
    ensures
        i <= r <= end,
        r < end ==> cs@[r as int] == c,
        forall|k: int| i <= k < r ==> cs@[k] != c,
{
    let mut j = i;
    while j < end
        invariant
            i <= j <= end,
            end <= cs@.len(),
            forall|k: int| i <= k < j ==> cs@[k] != c,
        decreases end - j,
    {
        if cs[j] == c {
            return j;
        }
        j = j + 1;
    }
    j
}

fn nibble(c: char) -> (r: Option<u8>)
    ensures
        r == nibble_of(c),
{
    if '0' <= c && c <= '9' {
        Some(((c as u32) - ('0' as u32)) as u8)
    } else if 'a' <= c && c <= 'f' {
        Some(((c as u32) - ('a' as u32) + 10) as u8)
    } else {
        None
    }
}

/// The hash written as the characters `a .. b`.
fn hex_decode(cs: &Vec<char>, a: usize, b: usize) -> (r: Result<Blake3Hash, FlakeError>)
    requires
        a <= b <= cs@.len(),
    ensures
        match unhex(cs@.subrange(a as int, b as int)) {
            Some(h) => r matches Ok(x) && x@ == h,
            None => r matches Err(e) && e is Lock,
        },
{
    let ghost h = cs@.subrange(a as int, b as int);
    if b - a != 64 {
        return Err(FlakeError::Lock("hash must be 64 hex chars".to_owned()));
    }
    let mut out: Blake3Hash = [0u8; 32];
    let mut k: usize = 0;
    while k < 32
        invariant
            k <= 32,
            b - a == 64,
            b <= cs@.len(),
            h == cs@.subrange(a as int, b as int),
            out@.len() == 32,
            forall|i: int| 0 <= i < 2 * k ==> (#[trigger] nibble_of(h[i])) is Some,
            forall|j: int|
                0 <= j < k ==> out@[j] == ((nibble_of(h[2 * j])->0 * 16) + nibble_of(h[2 * j + 1])->0) as u8,
        decreases 32 - k,
    {
        let hi = match nibble(cs[a + 2 * k]) {
            Some(v) => v,
            None => {
                proof {
                    assert(nibble_of(h[2 * k as int]) is None);
                }
                return Err(FlakeError::Lock("invalid hex digit".to_owned()));
            },
        };
        let lo = match nibble(cs[a + 2 * k + 1]) {
            Some(v) => v,
            None => {
                proof {
                    assert(nibble_of(h[2 * k + 1]) is None);
                }
                return Err(FlakeError::Lock("invalid hex digit".to_owned()));
            },
        };
        assert(hi < 16 && lo < 16);
        out[k] = hi * 16 + lo;
        proof {
            assert(h[2 * k as int] == cs@[a + 2 * k]);
            assert(h[2 * k + 1] == cs@[a + 2 * k + 1]);
        }
        k = k + 1;
    }
    proof {
        assert(out@ =~= Seq::new(
            32,
            |j: int| ((nibble_of(h[2 * j])->0 * 16) + nibble_of(h[2 * j + 1])->0) as u8,
        ));
    }
    Ok(out)
}

/// The first `c` at or after `i` is at `j`.
proof fn lemma_find_char_is(t: Seq<char>, i: int, j: int, c: char)
    requires
        0 <= i <= j <= t.len(),
        forall|k: int| i <= k < j ==> t[k] != c,
        j < t.len() ==> t[j] == c,
    ensures
        find_char(t, i, c) == j,
    decreases j - i,
{
    if i < j {
        lemma_find_char_is(t, i + 1, j, c);
    }
}

/// Parse the line held in characters `a .. b`.
fn parse_line_at(cs: &Vec<char>, a: usize, b: usize) -> (r: Result<LockEntry, FlakeError>)
    requires
        a <= b <= cs@.len(),
    ensures
        match parse_line(cs@.subrange(a as int, b as int)) {
            Some(e) => r matches Ok(x) && entry_v(x) == e,
            None => r matches Err(e) && e is Lock,
        },
{
    let ghost l = cs@.subrange(a as int, b as int);
    let t1 = find_in(cs, a, b, '\t');
    proof {
        lemma_find_char_is(l, 0, (t1 - a) as int, '\t');
    }
    if t1 == b {
        return Err(FlakeError::Lock("missing path column".to_owned()));
    }
    let t2 = find_in(cs, t1 + 1, b, '\t');
    proof {
        lemma_find_char_is(l, (t1 - a + 1) as int, (t2 - a) as int, '\t');
    }
    if t2 == b {
        return Err(FlakeError::Lock("missing hash column".to_owned()));
    }
    let t3 = find_in(cs, t2 + 1, b, '\t');
    proof {
        lemma_find_char_is(l, (t2 - a + 1) as int, (t3 - a) as int, '\t');
    }
    if t3 < b {
        return Err(FlakeError::Lock("extra columns".to_owned()));
    }
    let hash = match hex_decode(cs, t2 + 1, b) {
        Ok(h) => h,
        Err(e) => {
            proof {
                assert(l.subrange((t2 - a + 1) as int, l.len() as int) =~= cs@.subrange(t2 + 1, b as int));
            }
            return Err(e);
        },
    };
    let name = string_of(cs, a, t1);
    let path = string_of(cs, t1 + 1, t2);
    proof {
        assert(l.subrange((t2 - a + 1) as int, l.len() as int) =~= cs@.subrange(t2 + 1, b as int));
        assert(l.subrange(0, (t1 - a) as int) =~= cs@.subrange(a as int, t1 as int));
        assert(l.subrange((t1 - a + 1) as int, (t2 - a) as int) =~= cs@.subrange(t1 + 1, t2 as int));
    }
    Ok(LockEntry { name, path, hash })
}

/// `a` sorts before `b`.
pub(crate) fn name_less(a: &String, b: &String) -> (r: bool)
    ensures
        r == name_lt(a@, b@),
{
    let x = chars_of(a.as_str());
    let y = chars_of(b.as_str());
    let mut i: usize = 0;
    proof {
        assert(a@.subrange(0, a@.len() as int) =~= a@);
        assert(b@.subrange(0, b@.len() as int) =~= b@);
    }
    while i < x.len() && i < y.len()
        invariant
            i <= x@.len(),
            i <= y@.len(),
            x@ == a@,
            y@ == b@,
            name_lt(a@, b@) == name_lt(a@.subrange(i as int, a@.len() as int), b@.subrange(i as int, b@.len() as int)),
        decreases x@.len() - i,
    {
        if x[i] != y[i] {
            return (x[i] as u32) < (y[i] as u32);
        }
        proof {
            let s = a@.subrange(i as int, a@.len() as int);
            let t = b@.subrange(i as int, b@.len() as int);
            assert(s.drop_first() =~= a@.subrange(i + 1, a@.len() as int));
            assert(t.drop_first() =~= b@.subrange(i + 1, b@.len() as int));
        }
        i = i + 1;
    }
    i < y.len()
}

pub open spec fn sorted_v(es: Seq<EntryV>) -> bool {
    forall|i: int, j: int| 0 <= i < j < es.len() ==> !name_lt((#[trigger] es[j]).0, (#[trigger] es[i]).0)
}

/// Put `e` after every entry whose name does not sort after it.
fn insert_sorted(out: &mut Vec<LockEntry>, e: LockEntry)
    requires
        sorted_v(old(out)@.map_values(|x: LockEntry| entry_v(x))),
    ensures
        sorted_v(final(out)@.map_values(|x: LockEntry| entry_v(x))),
        final(out)@.map_values(|x: LockEntry| entry_v(x)).to_multiset() == old(out)@.map_values(
            |x: LockEntry| entry_v(x),
        ).to_multiset().insert(entry_v(e)),
        (forall|i: int| 0 <= i < old(out)@.len() ==> !name_lt(e.name@, (#[trigger] old(out)@[i]).name@))
            ==> final(out)@.map_values(|x: LockEntry| entry_v(x)) == old(out)@.map_values(|x: LockEntry| entry_v(x)).push(
            entry_v(e),
        ),
{
    let ghost ov = out@.map_values(|x: LockEntry| entry_v(x));
    let mut k: usize = 0;
    while k < out.len() && !name_less(&e.name, &out[k].name)
        invariant
            k <= out@.len(),
            out@ == old(out)@,
            forall|i: int| 0 <= i < k ==> !name_lt(e.name@, (#[trigger] out@[i]).name@),
        decreases out@.len() - k,
    {
        k = k + 1;
    }
    let ghost ev = entry_v(e);
    out.insert(k, e);
    proof {
        let nv = out@.map_values(|x: LockEntry| entry_v(x));
        assert(nv =~= ov.insert(k as int, ev));
        vstd::seq_lib::to_multiset_insert(ov, k as int, ev);
        assert forall|i: int, j: int| 0 <= i < j < nv.len() implies !name_lt((#[trigger] nv[j]).0, (#[trigger] nv[i]).0) by {
            if i < k && j < k {
                assert(nv[i] == ov[i] && nv[j] == ov[j]);
            } else if i < k && j == k {
                assert(nv[i] == ov[i]);
                assert(!name_lt(ev.0, old(out)@[i].name@));
            } else if i < k && j > k {
                assert(nv[i] == ov[i] && nv[j] == ov[j - 1]);
            } else if i == k {
                assert(nv[j] == ov[j - 1]);
                lemma_name_lt_total(ev.0, ov[j - 1].0);
                if name_lt(ov[j - 1].0, ev.0) {
                    assert(k < ov.len());
                    assert(name_lt(ev.0, ov[k as int].0));
                    if j - 1 > k {
                        assert(!name_lt(ov[j - 1].0, ov[k as int].0));
                        lemma_name_lt_trans(ov[j - 1].0, ev.0, ov[k as int].0);
                    } else {
                        lemma_name_lt_trans(ev.0, ov[k as int].0, ev.0);
                        lemma_name_lt_irrefl(ev.0);
                    }
                }
            } else {
                assert(nv[i] == ov[i - 1] && nv[j] == ov[j - 1]);
            }
        }
        if forall|i: int| 0 <= i < old(out)@.len() ==> !name_lt(e.name@, (#[trigger] old(out)@[i]).name@) {
            assert(k == old(out)@.len()) by {
                if k < old(out)@.len() {
                    assert(!name_lt(e.name@, old(out)@[k as int].name@));
                }
            }
            assert(nv =~= ov.push(ev));
        }
    }
}

/// Either of two different names sorts first.
pub(crate) proof fn lemma_name_lt_total(a: Seq<char>, b: Seq<char>)
    ensures
        a == b || name_lt(a, b) || name_lt(b, a),
    decreases a.len(),
{
    if a.len() > 0 && b.len() > 0 && a[0] == b[0] {
        lemma_name_lt_total(a.drop_first(), b.drop_first());
        if a.drop_first() == b.drop_first() {
            let a1 = a.drop_first();
            let b1 = b.drop_first();
            assert(a.len() == a1.len() + 1);
            assert(b.len() == b1.len() + 1);
            assert forall|k: int| 0 <= k < a.len() implies a[k] == b[k] by {
                if k > 0 {
                    assert(a[k] == a1[k - 1]);
                    assert(b[k] == b1[k - 1]);
                }
            }
            assert(a =~= b);
        }
    } else if a.len() == 0 && b.len() == 0 {
        assert(a =~= b);
    } else if a.len() > 0 && b.len() > 0 {
        vstd::utf8::char_u32_cast(a[0], a[0] as u32);
        vstd::utf8::char_u32_cast(b[0], b[0] as u32);
        assert((a[0] as u32) != (b[0] as u32));
    }
}

pub(crate) proof fn lemma_name_lt_irrefl(a: Seq<char>)
    ensures
        !name_lt(a, a),
    decreases a.len(),
{
    if a.len() > 0 {
        lemma_name_lt_irrefl(a.drop_first());
    }
}

pub(crate) proof fn lemma_name_lt_trans(a: Seq<char>, b: Seq<char>, c: Seq<char>)
    requires
        name_lt(a, b),
        name_lt(b, c),
    ensures
        name_lt(a, c),
    decreases a.len(),
{
    if a.len() > 0 && b.len() > 0 && c.len() > 0 && a[0] == b[0] && b[0] == c[0] {
        lemma_name_lt_trans(a.drop_first(), b.drop_first(), c.drop_first());
    }
}

/// The name order is that of `str`: a proper prefix sorts before every
/// longer name that begins with it, and never after it.
pub proof fn lemma_prefix_sorts_first(a: Seq<char>, s: Seq<char>)
    requires
        s.len() > 0,
    ensures
        name_lt(a, a + s),
        !name_lt(a + s, a),
    decreases a.len(),
{
    if a.len() == 0 {
        assert(a + s =~= s);
    } else {
        lemma_prefix_sorts_first(a.drop_first(), s);
        assert((a + s).drop_first() =~= a.drop_first() + s);
        assert((a + s)[0] == a[0]);
    }
    if name_lt(a + s, a) {
        lemma_name_lt_trans(a, a + s, a);
        lemma_name_lt_irrefl(a);
    }
}

/// The name order is that of `str`: two names that agree up to position
/// `k` and differ there are ordered by the characters at `k`, which for
/// UTF-8 is the order of their bytes.
pub proof fn lemma_first_difference_decides(a: Seq<char>, b: Seq<char>, k: int)
    requires
        0 <= k < a.len(),
        k < b.len(),
        a.subrange(0, k) == b.subrange(0, k),
        a[k] != b[k],
    ensures
        name_lt(a, b) == ((a[k] as u32) < (b[k] as u32)),
    decreases k,
{
    if k > 0 {
        assert(a[0] == a.subrange(0, k)[0]);
        assert(b[0] == b.subrange(0, k)[0]);
        assert(a.drop_first().subrange(0, k - 1) =~= b.drop_first().subrange(0, k - 1)) by {
            assert forall|j: int| 0 <= j < k - 1 implies a.drop_first()[j] == b.drop_first()[j] by {
                assert(a.subrange(0, k)[j + 1] == b.subrange(0, k)[j + 1]);
                assert(a.subrange(0, k)[j + 1] == a[j + 1]);
                assert(b.subrange(0, k)[j + 1] == b[j + 1]);
            }
        }
        lemma_first_difference_decides(a.drop_first(), b.drop_first(), k - 1);
    }
}

/// Names and paths without tabs or newlines, and 32-byte hashes: the
/// entries the text form can carry.
pub open spec fn entries_ok(es: Seq<EntryV>) -> bool {
    forall|i: int|
        0 <= i < es.len() ==> {
            &&& (#[trigger] es[i]).2.len() == 32
            &&& forall|k: int| 0 <= k < es[i].0.len() ==> es[i].0[k] != '\t' && es[i].0[k] != '\n'
            &&& forall|k: int| 0 <= k < es[i].1.len() ==> es[i].1[k] != '\t' && es[i].1[k] != '\n'
        }
}

proof fn lemma_find_char_shift(p: Seq<char>, r: Seq<char>, i: int, c: char)
    requires
        0 <= i,
    ensures
        find_char(p + r, p.len() + i, c) == p.len() + find_char(r, i, c),
    decreases r.len() - i,
{
    if i < r.len() {
        assert((p + r)[p.len() + i] == r[i]);
        if r[i] != c {
            lemma_find_char_shift(p, r, i + 1, c);
        }
    }
}

/// Parsing is unaffected by text before the position it starts at.
proof fn lemma_parse_from_shift(p: Seq<char>, r: Seq<char>, i: int)
    requires
        0 <= i,
    ensures
        parse_from(p + r, p.len() + i) == parse_from(r, i),
    decreases r.len() - i,
{
    let t = p + r;
    if i < r.len() {
        lemma_find_char_shift(p, r, i, '\n');
        lemma_find_char_bounds(r, i, '\n');
        let end = find_char(r, i, '\n');
        assert(t.subrange(p.len() + i, p.len() + end) =~= r.subrange(i, end));
        if end > i {
            assert(t.subrange(p.len() + i, p.len() + end - 1) =~= r.subrange(i, end - 1));
            assert(t[p.len() + end - 1] == r[end - 1]);
        }
        assert(line_at(t, p.len() + i) == line_at(r, i));
        let next = if end < r.len() {
            end + 1
        } else {
            end
        };
        lemma_parse_from_shift(p, r, next);
    }
}

proof fn lemma_hex_of(h: Seq<u8>)
    ensures
        hex_of(h).len() == 2 * h.len(),
        forall|k: int|
            0 <= k < h.len() ==> hex_of(h)[2 * k] == hex_digit(h[k] >> 4) && hex_of(h)[2 * k + 1]
                == hex_digit(h[k] & 0x0F),
    decreases h.len(),
{
    if h.len() > 0 {
        lemma_hex_of(h.drop_last());
        assert forall|k: int| 0 <= k < h.len() implies hex_of(h)[2 * k] == hex_digit(h[k] >> 4) && hex_of(
            h,
        )[2 * k + 1] == hex_digit(h[k] & 0x0F) by {
            if k < h.len() - 1 {
                assert(h.drop_last()[k] == h[k]);
            }
        }
    }
}

proof fn lemma_nibble_digit(d: u8)
    requires
        d < 16,
    ensures
        nibble_of(hex_digit(d)) == Some(d),
        hex_digit(d) != '\t' && hex_digit(d) != '\n' && hex_digit(d) != '\r',
{
}

proof fn lemma_unhex_hex(h: Seq<u8>)
    requires
        h.len() == 32,
    ensures
        unhex(hex_of(h)) == Some(h),
{
    lemma_hex_of(h);
    let x = hex_of(h);
    assert forall|i: int| 0 <= i < 64 implies (#[trigger] nibble_of(x[i])) is Some by {
        let k = i / 2;
        let b = h[k];
        lemma_nibbles(b);
        lemma_nibble_digit(b >> 4);
        lemma_nibble_digit(b & 0x0F);
        if i % 2 == 0 {
            assert(x[i] == x[2 * k]);
        } else {
            assert(x[i] == x[2 * k + 1]);
        }
    }
    assert forall|k: int| 0 <= k < 32 implies #[trigger] h[k] == ((nibble_of(x[2 * k])->0 * 16) + nibble_of(
        x[2 * k + 1],
    )->0) as u8 by {
        let b = h[k];
        lemma_nibbles(b);
        lemma_nibble_digit(b >> 4);
        lemma_nibble_digit(b & 0x0F);
    }
    assert(Seq::new(32, |k: int| ((nibble_of(x[2 * k])->0 * 16) + nibble_of(x[2 * k + 1])->0) as u8) =~= h);
}

/// The line of an entry, without its newline, parses back to the entry.
proof fn lemma_parse_line_of(e: EntryV)
    requires
        e.2.len() == 32,
        forall|k: int| 0 <= k < e.0.len() ==> e.0[k] != '\t',
        forall|k: int| 0 <= k < e.1.len() ==> e.1[k] != '\t',
    ensures
        parse_line(line_of(e).drop_last()) == Some(e),
{
    let l = line_of(e).drop_last();
    let hx = hex_of(e.2);
    lemma_hex_of(e.2);
    assert(l =~= e.0 + seq!['\t'] + e.1 + seq!['\t'] + hx);
    let n0 = e.0.len() as int;
    let n1 = e.1.len() as int;
    assert forall|k: int| 0 <= k < hx.len() implies hx[k] != '\t' by {
        let j = k / 2;
        let b = e.2[j];
        lemma_nibbles(b);
        lemma_nibble_digit(b >> 4);
        lemma_nibble_digit(b & 0x0F);
        if k % 2 == 0 {
            assert(hx[k] == hx[2 * j]);
        } else {
            assert(hx[k] == hx[2 * j + 1]);
        }
    }
    lemma_find_char_is(l, 0, n0, '\t');
    lemma_find_char_is(l, n0 + 1, n0 + 1 + n1, '\t');
    lemma_find_char_is(l, n0 + 2 + n1, l.len() as int, '\t');
    assert(l.subrange(n0 + 2 + n1, l.len() as int) =~= hx);
    lemma_unhex_hex(e.2);
    assert(l.subrange(0, n0) =~= e.0);
    assert(l.subrange(n0 + 1, n0 + 1 + n1) =~= e.1);
}

/// Entries the text form can carry come back from their text: what
/// `from_text` reads is what `to_text` wrote.
pub proof fn lemma_lock_round_trip(es: Seq<EntryV>)
    requires
        entries_ok(es),
    ensures
        parse_from(text_of(es), 0) == Some(es),
    decreases es.len(),
{
    if es.len() == 0 {
        assert(text_of(es) == Seq::<char>::empty());
        assert(es =~= Seq::<EntryV>::empty());
    } else {
        let e = es[0];
        let rest = es.drop_first();
        assert(entries_ok(rest)) by {
            assert forall|i: int| 0 <= i < rest.len() implies {
                &&& (#[trigger] rest[i]).2.len() == 32
                &&& forall|k: int| 0 <= k < rest[i].0.len() ==> rest[i].0[k] != '\t' && rest[i].0[k] != '\n'
                &&& forall|k: int| 0 <= k < rest[i].1.len() ==> rest[i].1[k] != '\t' && rest[i].1[k] != '\n'
            } by {
                assert(rest[i] == es[i + 1]);
            }
        }
        lemma_lock_round_trip(rest);
        let l = line_of(e);
        let r = text_of(rest);
        let t = text_of(es);
        assert(t == l + r);
        let hx = hex_of(e.2);
        lemma_hex_of(e.2);
        assert forall|k: int| 0 <= k < hx.len() implies hx[k] != '\n' && hx[k] != '\r' by {
            let j = k / 2;
            let b = e.2[j];
            lemma_nibbles(b);
            lemma_nibble_digit(b >> 4);
            lemma_nibble_digit(b & 0x0F);
            if k % 2 == 0 {
                assert(hx[k] == hx[2 * j]);
            } else {
                assert(hx[k] == hx[2 * j + 1]);
            }
        }
        let n = l.len() as int;
        assert(l =~= e.0 + seq!['\t'] + e.1 + seq!['\t'] + hx + seq!['\n']);
        assert forall|k: int| 0 <= k < n - 1 implies t[k] != '\n' by {
            assert(t[k] == l[k]);
            let n0 = e.0.len() as int;
            let n1 = e.1.len() as int;
            if k < n0 {
                assert(l[k] == e.0[k]);
            } else if k == n0 {
            } else if k < n0 + 1 + n1 {
                assert(l[k] == e.1[k - n0 - 1]);
            } else if k == n0 + 1 + n1 {
            } else {
                assert(l[k] == hx[k - n0 - 2 - n1]);
            }
        }
        assert(t[n - 1] == '\n');
        lemma_find_char_is(t, 0, n - 1, '\n');
        assert(t[n - 2] == hx[hx.len() - 1]);
        assert(line_at(t, 0) =~= l.drop_last());
        lemma_parse_line_of(e);
        lemma_parse_from_shift(l, r, 0);
        assert(parse_from(t, n) == parse_from(r, 0));
        assert(seq![e] + rest =~= es);
    }
}

/// Append the characters of `t`.
pub(crate) fn push_text(s: &mut String, t: &str)
    ensures
        final(s)@ == old(s)@ + t@,
{
    let cs = chars_of(t);
    let mut i: usize = 0;
    while i < cs.len()
        invariant
            i <= cs@.len(),
            cs@ == t@,
            s@ == old(s)@ + t@.subrange(0, i as int),
        decreases cs@.len() - i,
    {
        push_char(s, cs[i]);
        proof {
            assert(t@.subrange(0, i + 1) =~= t@.subrange(0, i as int).push(t@[i as int]));
        }
        i = i + 1;
    }
    proof {
        assert(t@.subrange(0, t@.len() as int) =~= t@);
    }
}

proof fn lemma_text_of_push(es: Seq<EntryV>, x: EntryV)
    ensures
        text_of(es.push(x)) == text_of(es) + line_of(x),
    decreases es.len(),
{
    if es.len() == 0 {
        assert(es.push(x).drop_first() =~= Seq::<EntryV>::empty());
        assert(text_of(Seq::<EntryV>::empty()) == Seq::<char>::empty());
        assert(text_of(es) == Seq::<char>::empty());
        assert(text_of(es.push(x)) =~= line_of(x));
    } else {
        assert(es.push(x).drop_first() =~= es.drop_first().push(x));
        lemma_text_of_push(es.drop_first(), x);
        assert(text_of(es.push(x)) =~= line_of(es[0]) + (text_of(es.drop_first()) + line_of(x)));
    }
}

impl LockEntry {
    pub fn name(&self) -> (r: &str)
        ensures
            r@ == self.name@,
    {
        self.name.as_str()
    }

    pub fn path(&self) -> (r: &str)
        ensures
            r@ == self.path@,
    {
        self.path.as_str()
    }

    pub fn hash(&self) -> (r: &Blake3Hash)
        ensures
            *r == self.hash,
    {
        &self.hash
    }
}

impl Default for LockFile {
    fn default() -> (r: LockFile)
        ensures
            r.entries@.len() == 0,
    {
        LockFile { entries: Vec::new() }
    }
}

/// The entries of a lock file as plain data.
pub open spec fn lock_view(lf: LockFile) -> Seq<EntryV> {
    lf.entries@.map_values(|x: LockEntry| entry_v(x))
}

impl LockFile {
    /// Sorted by name.
    pub open spec fn wf(&self) -> bool {
        sorted_v(lock_view(*self))
    }

    pub fn entries(&self) -> (r: &[LockEntry])
        ensures
            r@ == self.entries@,
    {
        self.entries.as_slice()
    }

    /// Whether the entries are sorted by name, as every operation that
    /// changes a lock expects.
    pub fn is_sorted(&self) -> (r: bool)
        ensures
            r == self.wf(),
    {
        let ghost es = lock_view(*self);
        let n = self.entries.len();
        if n < 2 {
            return true;
        }
        let mut i: usize = 1;
        while i < n
            invariant
                1 <= i <= n,
                n == self.entries@.len(),
                es == lock_view(*self),
                sorted_v(es.subrange(0, i as int)),
            decreases n - i,
        {
            if name_less(&self.entries[i].name, &self.entries[i - 1].name) {
                proof {
                    assert(es[i as int].0 == self.entries@[i as int].name@);
                    assert(es[i - 1].0 == self.entries@[i - 1].name@);
                }
                return false;
            }
            proof {
                let p = es.subrange(0, i as int);
                let q = es.subrange(0, i + 1);
                assert(es[i as int].0 == self.entries@[i as int].name@);
                assert(es[i - 1].0 == self.entries@[i - 1].name@);
                assert forall|a: int, b: int| 0 <= a < b < q.len() implies !name_lt(
                    (#[trigger] q[b]).0,
                    (#[trigger] q[a]).0,
                ) by {
                    if b < i {
                        assert(q[a] == p[a] && q[b] == p[b]);
                    } else if a < i - 1 {
                        assert(q[a] == p[a] && q[i - 1] == p[i - 1]);
                        assert(!name_lt(p[i - 1].0, p[a].0));
                        if name_lt(es[i as int].0, es[a].0) {
                            lemma_name_lt_total(es[i - 1].0, es[a].0);
                            lemma_name_lt_total(es[i as int].0, es[i - 1].0);
                            if name_lt(es[a].0, es[i - 1].0) {
                                lemma_name_lt_trans(es[i as int].0, es[a].0, es[i - 1].0);
                            }
                        }
                    }
                }
                assert(q =~= es.subrange(0, i + 1));
            }
            i = i + 1;
        }
        proof {
            assert(es.subrange(0, n as int) =~= es);
        }
        true
    }

    /// The text form: one line per entry, in order.
    pub fn to_text(&self) -> (s: String)
        ensures
            s@ == text_of(lock_view(*self)),
    {
        let mut s = String::new();
        let mut i: usize = 0;
        proof {
            assert(lock_view(*self).subrange(0, 0) =~= Seq::<EntryV>::empty());
        }
        while i < self.entries.len()
            invariant
                i <= self.entries@.len(),
                s@ == text_of(lock_view(*self).subrange(0, i as int)),
            decreases self.entries@.len() - i,
        {
            let e = &self.entries[i];
            let ghost before = s@;
            push_text(&mut s, e.name.as_str());
            push_char(&mut s, '\t');
            push_text(&mut s, e.path.as_str());
            push_char(&mut s, '\t');
            let h = hex(&e.hash);
            push_text(&mut s, h.as_str());
            push_char(&mut s, '\n');
            proof {
                let v = lock_view(*self);
                assert(v.subrange(0, i + 1) =~= v.subrange(0, i as int).push(v[i as int]));
                lemma_text_of_push(v.subrange(0, i as int), v[i as int]);
                assert(s@ =~= before + line_of(v[i as int]));
            }
            i = i + 1;
        }
        proof {
            assert(lock_view(*self).subrange(0, self.entries@.len() as int) =~= lock_view(*self));
        }
        s
    }

    /// Parse the text form: non-empty lines (a carriage return before a
    /// newline is dropped), each of three tab-separated columns with a
    /// 64-digit lower-case hex hash; the entries come out sorted by name,
    /// lines of equal names in their order.
    pub fn from_text(text: &str) -> (r: Result<LockFile, FlakeError>)
        ensures
            match parse_from(text@, 0) {
                Some(es) => r matches Ok(lf) && lf.wf() && lock_view(lf).to_multiset() == es.to_multiset()
                    && (sorted_v(es) ==> lock_view(lf) == es),
                None => r matches Err(e) && e is Lock,
            },
    {
        let cs = chars_of(text);
        let ghost t = text@;
        let len = cs.len();
        let mut out: Vec<LockEntry> = Vec::new();
        let ghost mut done: Seq<EntryV> = Seq::empty();
        let mut pos: usize = 0;
        proof {
            assert(out@.map_values(|x: LockEntry| entry_v(x)) =~= done);
            assert(done + Seq::<EntryV>::empty() =~= done);
            if let Some(rest) = parse_from(t, 0) {
                assert(done + rest =~= rest);
            }
        }
        while pos < len
            invariant
                cs@ == t,
                t == text@,
                len == t.len(),
                pos <= len,
                parse_from(t, 0) is Some <==> parse_from(t, pos as int) is Some,
                parse_from(t, pos as int) matches Some(rest) ==> parse_from(t, 0) == Some(done + rest),
                sorted_v(out@.map_values(|x: LockEntry| entry_v(x))),
                out@.map_values(|x: LockEntry| entry_v(x)).to_multiset() == done.to_multiset(),
                sorted_v(done) ==> out@.map_values(|x: LockEntry| entry_v(x)) == done,
            decreases len - pos,
        {
            let end = find_in(&cs, pos, len, '\n');
            proof {
                lemma_find_char_is(t, pos as int, end as int, '\n');
            }
            let next = if end < len {
                end + 1
            } else {
                end
            };
            let line_end = if end < len && end > pos && cs[end - 1] == '\r' {
                end - 1
            } else {
                end
            };
            proof {
                assert(line_at(t, pos as int) == cs@.subrange(pos as int, line_end as int));
            }
            if line_end > pos {
                let e = match parse_line_at(&cs, pos, line_end) {
                    Ok(e) => e,
                    Err(err) => {
                        return Err(err);
                    },
                };
                let ghost ev = entry_v(e);
                let ghost ov = out@.map_values(|x: LockEntry| entry_v(x));
                proof {
                    if sorted_v(done.push(ev)) {
                        let dp = done.push(ev);
                        assert forall|i: int, j: int| 0 <= i < j < done.len() implies !name_lt(
                            (#[trigger] done[j]).0,
                            (#[trigger] done[i]).0,
                        ) by {
                            assert(dp[i] == done[i]);
                            assert(dp[j] == done[j]);
                        }
                        assert(sorted_v(done));
                        assert(ov == done);
                        assert forall|i: int| 0 <= i < out@.len() implies !name_lt(e.name@, (#[trigger] out@[i]).name@) by {
                            assert(ov[i] == done[i]);
                            assert(dp[i] == done[i]);
                            assert(dp[done.len() as int] == ev);
                            assert(!name_lt(dp[done.len() as int].0, dp[i].0));
                        }
                    }
                }
                insert_sorted(&mut out, e);
                proof {
                    let d0 = done;
                    done = d0.push(ev);
                    vstd::seq_lib::to_multiset_build(d0, ev);
                    if let Some(rest) = parse_from(t, next as int) {
                        assert(done + rest =~= d0 + (seq![ev] + rest));
                    }
                }
            }
            pos = next;
        }
        proof {
            assert(done + Seq::<EntryV>::empty() =~= done);
        }
        Ok(LockFile { entries: out })
    }

    /// Pin input `name` at `path` by the hash of `content`: an entry of that
    /// name is replaced in place, otherwise the entry goes in at its sorted
    /// place.
    pub fn pin_bytes(&mut self, name: &str, path: &str, content: &[u8])
        requires
            old(self).wf(),
        ensures
            final(self).wf(),
            ({
                let ev = (name@, path@, blake3_of(content@));
                let ov = lock_view(*old(self));
                &&& (exists|i: int| 0 <= i < ov.len() && (#[trigger] ov[i]).0 == name@) ==> exists|i: int|
                    0 <= i < ov.len() && (#[trigger] ov[i]).0 == name@ && (forall|j: int| 0 <= j < i ==> (#[trigger] ov[j]).0 != name@)
                        && lock_view(*final(self)) == ov.update(i, ev)
                &&& (forall|i: int| 0 <= i < ov.len() ==> (#[trigger] ov[i]).0 != name@) ==> lock_view(
                    *final(self),
                ).to_multiset() == ov.to_multiset().insert(ev)
            }),
    {
        let hash = blake3_hash(content);
        let key = name.to_owned();
        let entry = LockEntry { name: name.to_owned(), path: path.to_owned(), hash };
        let ghost ov = lock_view(*self);
        let ghost ev = entry_v(entry);
        let mut i: usize = 0;
        while i < self.entries.len()
            invariant
                i <= self.entries@.len(),
                self.entries@ == old(self).entries@,
                key@ == name@,
                entry.name@ == name@,
                entry.path@ == path@,
                entry.hash@ == blake3_of(content@),
                ov == lock_view(*old(self)),
                ev == entry_v(entry),
                sorted_v(ov),
                forall|j: int| 0 <= j < i ==> (#[trigger] self.entries@[j]).name@ != name@,
            decreases self.entries@.len() - i,
        {
            if self.entries[i].name == key {
                proof {
                    assert(self.entries@[i as int].name@ == name@);
                }
                self.entries.set(i, entry);
                proof {
                    let nv = lock_view(*self);
                    assert(nv =~= ov.update(i as int, ev));
                    assert forall|p: int, q: int| 0 <= p < q < nv.len() implies !name_lt(
                        (#[trigger] nv[q]).0,
                        (#[trigger] nv[p]).0,
                    ) by {
                        assert(ov[i as int].0 == name@);
                        if p == i {
                            assert(!name_lt(ov[q].0, ov[p].0));
                        } else if q == i {
                            assert(!name_lt(ov[q].0, ov[p].0));
                        }
                    }
                    assert forall|j: int| 0 <= j < i implies (#[trigger] ov[j]).0 != name@ by {
                        assert(ov[j].0 == old(self).entries@[j].name@);
                    }
                    assert(ov[i as int].0 == name@);
                    assert(0 <= i < ov.len() && ov[i as int].0 == name@ && (forall|j: int|
                        0 <= j < i ==> (#[trigger] ov[j]).0 != name@) && lock_view(*self) == ov.update(
                        i as int,
                        ev,
                    ));
                    assert(ev == (name@, path@, blake3_of(content@)));
                    assert(self.wf());
                    assert(!(forall|j: int| 0 <= j < ov.len() ==> (#[trigger] ov[j]).0 != name@));
                }
                return;
            }
            i = i + 1;
        }
        proof {
            assert forall|j: int| 0 <= j < ov.len() implies (#[trigger] ov[j]).0 != name@ by {
                assert(ov[j].0 == old(self).entries@[j].name@);
            }
        }
        insert_sorted(&mut self.entries, entry);
    }

    /// The hash of `content` is the one pinned for `entry`.
    pub fn check_entry(entry: &LockEntry, content: &[u8]) -> (r: Result<(), FlakeError>)
        ensures
            r is Ok <==> blake3_of(content@) == entry.hash@,
            r matches Err(e) ==> e == (FlakeError::HashMismatch { input: entry.name }),
    {
        let h = blake3_hash(content);
        if same_hash(&h, &entry.hash) {
            Ok(())
        } else {
            Err(FlakeError::HashMismatch { input: entry.name.clone() })
        }
    }
}

} // verus!
