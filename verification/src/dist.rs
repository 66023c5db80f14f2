//! Content-addressed results: the in-memory result cache keyed by the
//! caller's content hash, the file name of a stored blob, and the check a
//! blob from a peer must pass before it is kept.
use vstd::prelude::*;
use vstd::string::StringSliceAdditionalSpecFns;
use std::sync::Arc;
use crate::blob::from_blob;
use crate::blob_format::parse_blob;
use crate::canonical_hash::{Blake3Hash, blake3_of, canonical_hash, is_serialization, no_prim_agents, serialization_of};
use crate::class::{Canonical, NetClassMarker, Proper};
use crate::effect::EffectRow;
use crate::error::DnxError;
use crate::net::{Net, is_virtual, port_in, spec_is_canonical};
use crate::port::PortId;
use crate::reduce::{CRules, ReduceStats, normalize};
use crate::text::push_char;
use crate::wire::CacheError;

verus! {

/// The lower-case hex digit of `d`.
pub open spec fn hex_digit(d: u8) -> char {
    if d < 10 {
        (('0' as u8) + d) as char
    } else {
        (('a' as u8) + d - 10) as char
    }
}

/// Lower-case hex of a byte string, two digits per byte, high nibble first.
pub open spec fn hex_of(b: Seq<u8>) -> Seq<char>
    decreases b.len(),
{
    if b.len() == 0 {
        Seq::empty()
    } else {
        hex_of(b.drop_last()) + seq![hex_digit(b.last() >> 4), hex_digit(b.last() & 0x0F)]
    }
}

fn hex_char(d: u8) -> (c: char)
    requires
        d < 16,
    ensures
        c == hex_digit(d),
{
    if d < 10 {
        (('0' as u8) + d) as char
    } else {
        (('a' as u8) + d - 10) as char
    }
}

/// A byte's two nibbles are below 16 and make up the byte.
pub proof fn lemma_nibbles(b: u8)
    by (bit_vector)
    ensures
        (b >> 4u8) < 16u8,
        (b & 0x0Fu8) < 16u8,
        ((b >> 4u8) * 16 + (b & 0x0Fu8)) as u8 == b,
{
}

/// The file name a blob is stored under: the lower-case hex of its hash.
pub fn hex(hash: &Blake3Hash) -> (s: String)
    ensures
        s@ == hex_of(hash@),
        s@.len() == 64,
{
    let mut s = String::new();
    let mut i: usize = 0;
    proof {
        assert(hex_of(hash@.subrange(0, 0)) =~= Seq::<char>::empty());
    }
    while i < 32
        invariant
            i <= 32,
            hash@.len() == 32,
            s@ == hex_of(hash@.subrange(0, i as int)),
            s@.len() == 2 * i,
        decreases 32 - i,
    {
        let b = hash[i];
        proof {
            lemma_nibbles(b);
        }
        push_char(&mut s, hex_char(b >> 4));
        push_char(&mut s, hex_char(b & 0x0F));
        proof {
            let t = hash@.subrange(0, i + 1);
            assert(t.drop_last() =~= hash@.subrange(0, i as int));
            assert(t.last() == b);
        }
        i = i + 1;
    }
    proof {
        assert(hash@.subrange(0, 32) =~= hash@);
    }
    s
}

/// A blob a peer claims to be `claimed` is kept only when it decodes into a
/// canonical net and that net hashes back to `claimed`.
pub fn verify_blob<C: NetClassMarker>(claimed: &Blake3Hash, blob: &[u8]) -> (r: Result<
    (Net<Canonical, C>, PortId),
    CacheError,
>)
    ensures
        parse_blob(blob@) is None ==> (r matches Err(e) && e == CacheError::Decode(DnxError::ReadbackIncomplete)),
        r matches Ok((net, root)) ==> {
            &&& net.wf()
            &&& spec_is_canonical(&net)
            &&& exists|b: Seq<u8>| is_serialization(b) && #[trigger] blake3_of(b) == claimed@
            &&& blake3_of(serialization_of(net.slots(), root)) == claimed@
        },
        r matches Err(e) ==> e == CacheError::HashMismatch || e is Decode,
        r == Err::<(Net<Canonical, C>, PortId), CacheError>(CacheError::HashMismatch) ==> parse_blob(blob@) is Some,
{
    let (net, root) = match from_blob::<C>(blob) {
        Ok(v) => v,
        Err(e) => {
            return Err(CacheError::Decode(e));
        },
    };
    let h = match canonical_hash(&net, root) {
        Ok(h) => h,
        Err(e) => {
            return Err(CacheError::Decode(e));
        },
    };
    if !same_hash(&h, claimed) {
        return Err(CacheError::HashMismatch);
    }
    Ok((net, root))
}

/// Two hashes are the same bytes.
pub fn same_hash(a: &Blake3Hash, b: &Blake3Hash) -> (r: bool)
    ensures
        r == (a@ == b@),
{
    let mut i: usize = 0;
    while i < 32
        invariant
            i <= 32,
            a@.len() == 32,
            b@.len() == 32,
            forall|j: int| 0 <= j < i ==> a@[j] == b@[j],
        decreases 32 - i,
    {
        if a[i] != b[i] {
            return false;
        }
        i = i + 1;
    }
    proof {
        assert(a@ =~= b@);
    }
    true
}

/// `Arc::clone`: another handle on the same value.
#[verifier::external_body]
fn share<T>(a: &Arc<T>) -> (r: Arc<T>)
    ensures
        r == *a,
{
    Arc::clone(a)
}

/// Results of normalization keyed by the caller's content hash of the
/// computation. Each key occurs once.
pub struct ResultCache<C: CRules> {
    pub entries: Vec<(Blake3Hash, Arc<Net<Canonical, C>>)>,
}

impl<C: CRules> ResultCache<C> {
    /// Each key occurs once, and every result is a well-formed canonical
    /// net.
    pub open spec fn wf(&self) -> bool {
        &&& forall|i: int, j: int|
            0 <= i < j < self.entries@.len() ==> (#[trigger] self.entries@[i]).0@ != (
            #[trigger] self.entries@[j]).0@
        &&& forall|i: int|
            0 <= i < self.entries@.len() ==> (#[trigger] self.entries@[i]).1.wf() && spec_is_canonical(
                &*self.entries@[i].1,
            )
    }

    /// The result stored under `key`.
    pub open spec fn lookup(&self, key: Seq<u8>) -> Option<Net<Canonical, C>> {
        if exists|i: int| 0 <= i < self.entries@.len() && (#[trigger] self.entries@[i]).0@ == key {
            let i = choose|i: int| 0 <= i < self.entries@.len() && (#[trigger] self.entries@[i]).0@ == key;
            Some(*self.entries@[i].1)
        } else {
            None
        }
    }

    pub fn new() -> (c: ResultCache<C>)
        ensures
            c.wf(),
            c.entries@.len() == 0,
    {
        ResultCache { entries: Vec::new() }
    }

    pub fn len(&self) -> (n: usize)
        ensures
            n == self.entries@.len(),
    {
        self.entries.len()
    }

    pub fn is_empty(&self) -> (b: bool)
        ensures
            b == (self.entries@.len() == 0),
    {
        self.entries.len() == 0
    }

    /// Position of `key`.
    fn find(&self, key: &Blake3Hash) -> (r: Option<usize>)
        requires
            self.wf(),
        ensures
            r matches Some(i) ==> i < self.entries@.len() && self.entries@[i as int].0@ == key@,
            r is None ==> forall|i: int| 0 <= i < self.entries@.len() ==> (#[trigger] self.entries@[i]).0@ != key@,
    {
        let mut i: usize = 0;
        while i < self.entries.len()
            invariant
                i <= self.entries@.len(),
                forall|j: int| 0 <= j < i ==> (#[trigger] self.entries@[j]).0@ != key@,
            decreases self.entries@.len() - i,
        {
            if same_hash(&self.entries[i].0, key) {
                return Some(i);
            }
            i = i + 1;
        }
        None
    }

    /// Store `result` under `key`, replacing an earlier entry of that key.
    fn put(&mut self, key: Blake3Hash, result: Arc<Net<Canonical, C>>)
        requires
            old(self).wf(),
            result.wf(),
            spec_is_canonical(&*result),
        ensures
            final(self).wf(),
            final(self).lookup(key@) == Some(*result),
            forall|k: Seq<u8>| k != key@ ==> #[trigger] final(self).lookup(k) == old(self).lookup(k),
    {
        match self.find(&key) {
            Some(i) => {
                let ghost before = self.entries@;
                self.entries.set(i, (key, result));
                proof {
                    assert forall|p: int, q: int|
                        0 <= p < q < self.entries@.len() implies (#[trigger] self.entries@[p]).0@ != (
                        #[trigger] self.entries@[q]).0@ by {
                        if p != i && q != i {
                            assert(self.entries@[p] == before[p]);
                            assert(self.entries@[q] == before[q]);
                        } else if p == i {
                            assert(before[p].0@ == key@);
                            assert(self.entries@[q] == before[q]);
                        } else {
                            assert(before[q].0@ == key@);
                            assert(self.entries@[p] == before[p]);
                        }
                    }
                    self.lemma_lookup_at(i as int);
                    assert forall|k: Seq<u8>| k != key@ implies #[trigger] self.lookup(k) == old(self).lookup(k) by {
                        self.lemma_lookup_same(old(self), k, i as int);
                    }
                }
            },
            None => {
                let ghost before = self.entries@;
                self.entries.push((key, result));
                proof {
                    assert forall|p: int, q: int|
                        0 <= p < q < self.entries@.len() implies (#[trigger] self.entries@[p]).0@ != (
                        #[trigger] self.entries@[q]).0@ by {
                        if q == before.len() {
                            assert(self.entries@[p] == before[p]);
                        } else {
                            assert(self.entries@[p] == before[p]);
                            assert(self.entries@[q] == before[q]);
                        }
                    }
                    self.lemma_lookup_at(before.len() as int);
                    assert forall|k: Seq<u8>| k != key@ implies #[trigger] self.lookup(k) == old(self).lookup(k) by {
                        self.lemma_lookup_same(old(self), k, before.len() as int);
                    }
                }
            },
        }
    }

    /// The entry at `i` is what its key looks up.
    proof fn lemma_lookup_at(&self, i: int)
        requires
            self.wf(),
            0 <= i < self.entries@.len(),
        ensures
            self.lookup(self.entries@[i].0@) == Some(*self.entries@[i].1),
    {
        let key = self.entries@[i].0@;
        let c = choose|q: int| 0 <= q < self.entries@.len() && (#[trigger] self.entries@[q]).0@ == key;
        if c != i {
            if c < i {
                assert(self.entries@[c].0@ != self.entries@[i].0@);
            } else {
                assert(self.entries@[i].0@ != self.entries@[c].0@);
            }
        }
    }

    /// Other keys look up the same after the entry at `i` changed or was
    /// added.
    proof fn lemma_lookup_same(&self, old_c: &Self, k: Seq<u8>, i: int)
        requires
            self.wf(),
            old_c.wf(),
            0 <= i < self.entries@.len(),
            i <= old_c.entries@.len(),
            self.entries@[i].0@ != k,
            i < old_c.entries@.len() ==> old_c.entries@[i].0@ != k,
            self.entries@.len() == old_c.entries@.len() || self.entries@.len() == old_c.entries@.len() + 1,
            self.entries@.len() == old_c.entries@.len() + 1 ==> i == old_c.entries@.len(),
            forall|j: int| 0 <= j < old_c.entries@.len() && j != i ==> self.entries@[j] == old_c.entries@[j],
        ensures
            self.lookup(k) == old_c.lookup(k),
    {
        if exists|q: int| 0 <= q < self.entries@.len() && (#[trigger] self.entries@[q]).0@ == k {
            let q = choose|q: int| 0 <= q < self.entries@.len() && (#[trigger] self.entries@[q]).0@ == k;
            assert(q != i);
            assert(old_c.entries@[q] == self.entries@[q]);
            let c = choose|q: int| 0 <= q < old_c.entries@.len() && (#[trigger] old_c.entries@[q]).0@ == k;
            if c != q {
                assert(self.entries@[c] == old_c.entries@[c]);
                if c < q {
                    assert(self.entries@[c].0@ != self.entries@[q].0@);
                } else {
                    assert(self.entries@[q].0@ != self.entries@[c].0@);
                }
            }
        } else {
            if exists|q: int| 0 <= q < old_c.entries@.len() && (#[trigger] old_c.entries@[q]).0@ == k {
                let q = choose|q: int| 0 <= q < old_c.entries@.len() && (#[trigger] old_c.entries@[q]).0@ == k;
                assert(self.entries@[q] == old_c.entries@[q]);
            }
        }
    }

    /// Seed an entry under a caller-held key after checking that `result`
    /// hashes to it from `root`; a key it does not hash to is refused and
    /// nothing changes.
    pub fn insert(&mut self, key: Blake3Hash, result: Arc<Net<Canonical, C>>, root: PortId) -> (r: Result<
        (),
        CacheError,
    >)
        requires
            old(self).wf(),
            result.wf(),
            spec_is_canonical(&*result),
            is_virtual(root) || port_in(root, result.n_slots()),
        ensures
            final(self).wf(),
            r is Ok ==> final(self).lookup(key@) == Some(*result) && exists|b: Seq<u8>|
                is_serialization(b) && #[trigger] blake3_of(b) == key@,
            r is Ok ==> forall|k: Seq<u8>| k != key@ ==> #[trigger] final(self).lookup(k) == old(self).lookup(k),
            r is Err ==> *final(self) == *old(self),
            r matches Err(e) ==> e == CacheError::HashMismatch || e is Decode,
            r is Ok ==> blake3_of(serialization_of((*result).slots(), root)) == key@,
            is_virtual(root) ==> r == Err::<(), CacheError>(CacheError::Decode(DnxError::ReadbackIncomplete)),
            !is_virtual(root) && no_prim_agents((*result).slots()) ==> (r is Ok <==> blake3_of(
                serialization_of((*result).slots(), root),
            ) == key@),
    {
        let h = match canonical_hash(&*result, root) {
            Ok(h) => h,
            Err(e) => {
                return Err(CacheError::Decode(e));
            },
        };
        if !same_hash(&h, &key) {
            return Err(CacheError::HashMismatch);
        }
        self.put(key, result);
        Ok(())
    }
}

/// Normalize `net`, caching the result under the caller-held `key` when the
/// computation is pure (`row` must be the effect row of `net`). A pure
/// computation whose key is cached is not reduced at all: the stored result
/// comes back with zero counts. Otherwise the net is normalized; a pure
/// result is kept only if it hashes to `key` from `root`, and a result that
/// does not is refused.
pub fn normalize_cached<C: CRules>(
    cache: &mut ResultCache<C>,
    key: Blake3Hash,
    net: Net<Proper, C>,
    root: PortId,
    row: &EffectRow,
) -> (r: Result<(Arc<Net<Canonical, C>>, ReduceStats), CacheError>)
    requires
        old(cache).wf(),
        net.wf(),
    ensures
        final(cache).wf(),
        row.labels@.len() == 0 && row.tail is None && old(cache).lookup(key@) is Some ==> {
            &&& r matches Ok((res, st)) && old(cache).lookup(key@) == Some(*res) && st.interactions == 0
                && st.r4_count == 0
            &&& *final(cache) == *old(cache)
        },
        !(row.labels@.len() == 0 && row.tail is None) ==> *final(cache) == *old(cache),
        r matches Ok((res, _)) ==> res.wf() && spec_is_canonical(&*res),
        r matches Ok((res, _)) ==> (row.labels@.len() == 0 && row.tail is None ==> final(cache).lookup(
            key@,
        ) == Some(*res)),
        r matches Ok((res, _)) ==> (old(cache).lookup(key@) is None && row.labels@.len() == 0 && row.tail
            is None ==> exists|b: Seq<u8>| is_serialization(b) && #[trigger] blake3_of(b) == key@),
        r matches Ok((res, _)) ==> (old(cache).lookup(key@) is None && row.labels@.len() == 0 && row.tail
            is None ==> blake3_of(serialization_of(res.slots(), root)) == key@),
        r == Err::<(Arc<Net<Canonical, C>>, ReduceStats), CacheError>(CacheError::HashMismatch) ==> (
        row.labels@.len() == 0 && row.tail is None && old(cache).lookup(key@) is None),
{
    let pure = row.is_pure();
    if pure {
        match cache.find(&key) {
            Some(i) => {
                let hit = share(&cache.entries[i].1);
                proof {
                    cache.lemma_lookup_at(i as int);
                    let c = cache.entries@[i as int];
                    assert(c.0@ == key@);
                }
                return Ok((hit, ReduceStats::default()));
            },
            None => {},
        }
    }
    let (result, stats) = match normalize(net) {
        Ok(v) => v,
        Err(e) => {
            return Err(CacheError::Decode(e));
        },
    };
    let result = Arc::new(result);
    if pure {
        if !(root.is_eraser() || root.is_null() || (root.slot_idx() as usize) < result.arena.slots.len()) {
            return Err(CacheError::Decode(DnxError::ReadbackIncomplete));
        }
        let h = match canonical_hash(&*result, root) {
            Ok(h) => h,
            Err(e) => {
                return Err(CacheError::Decode(e));
            },
        };
        if !same_hash(&h, &key) {
            return Err(CacheError::HashMismatch);
        }
        cache.put(key, share(&result));
    }
    Ok((result, stats))
}

/// The keys of `want` that the peer reported held: `want[i]` where
/// `present[i]`, in order, over the common length of the two.
pub open spec fn held_of(want: Seq<Blake3Hash>, present: Seq<bool>) -> Seq<Blake3Hash>
    decreases want.len(),
{
    if want.len() == 0 || present.len() == 0 {
        Seq::empty()
    } else {
        let rest = held_of(want.drop_first(), present.drop_first());
        if present[0] {
            seq![want[0]] + rest
        } else {
            rest
        }
    }
}

proof fn lemma_held_of_push(want: Seq<Blake3Hash>, present: Seq<bool>, i: int)
    requires
        0 <= i < want.len(),
        i < present.len(),
    ensures
        held_of(want.subrange(0, i + 1), present.subrange(0, i + 1)) == held_of(
            want.subrange(0, i),
            present.subrange(0, i),
        ) + if present[i] {
            seq![want[i]]
        } else {
            Seq::<Blake3Hash>::empty()
        },
    decreases i,
{
    let w1 = want.subrange(0, i + 1);
    let p1 = present.subrange(0, i + 1);
    if i == 0 {
        assert(w1.drop_first() =~= Seq::<Blake3Hash>::empty());
        assert(held_of(want.subrange(0, 0), present.subrange(0, 0)) == Seq::<Blake3Hash>::empty());
        assert(held_of(w1.drop_first(), p1.drop_first()) == Seq::<Blake3Hash>::empty());
        if present[0] {
            assert(held_of(w1, p1) =~= seq![want[0]]);
        } else {
            assert(held_of(w1, p1) =~= Seq::<Blake3Hash>::empty());
        }
    } else {
        lemma_held_of_push(want.drop_first(), present.drop_first(), i - 1);
        assert(w1.drop_first() =~= want.drop_first().subrange(0, i));
        assert(p1.drop_first() =~= present.drop_first().subrange(0, i));
        let w0 = want.subrange(0, i);
        let p0 = present.subrange(0, i);
        assert(w0.drop_first() =~= want.drop_first().subrange(0, i - 1));
        assert(p0.drop_first() =~= present.drop_first().subrange(0, i - 1));
        if present[0] {
            assert(held_of(w1, p1) =~= held_of(w0, p0) + if present[i] {
                seq![want[i]]
            } else {
                Seq::<Blake3Hash>::empty()
            });
        } else {
            assert(held_of(w1, p1) =~= held_of(w0, p0) + if present[i] {
                seq![want[i]]
            } else {
                Seq::<Blake3Hash>::empty()
            });
        }
    }
}

/// The keys of `want` that the peer reported held, in order.
pub fn held_keys(want: &[Blake3Hash], present: &[bool]) -> (r: Vec<Blake3Hash>)
    ensures
        r@ == held_of(want@, present@),
{
    let n = if want.len() < present.len() { want.len() } else { present.len() };
    let mut r: Vec<Blake3Hash> = Vec::new();
    let mut i: usize = 0;
    proof {
        assert(held_of(want@.subrange(0, 0), present@.subrange(0, 0)) == Seq::<Blake3Hash>::empty());
    }
    while i < n
        invariant
            i <= n,
            n <= want@.len(),
            n <= present@.len(),
            n == want@.len() || n == present@.len(),
            r@ == held_of(want@.subrange(0, i as int), present@.subrange(0, i as int)),
        decreases n - i,
    {
        proof {
            lemma_held_of_push(want@, present@, i as int);
        }
        if present[i] {
            r.push(want[i]);
        }
        proof {
            if present@[i as int] {
                assert(r@ =~= held_of(want@.subrange(0, i as int), present@.subrange(0, i as int)) + seq![want@[i as int]]);
            } else {
                assert(r@ =~= held_of(want@.subrange(0, i as int), present@.subrange(0, i as int)) + Seq::<Blake3Hash>::empty());
            }
        }
        i = i + 1;
    }
    proof {
        lemma_held_of_tail(want@, present@, n as int);
    }
    r
}

/// Past the common length nothing more is held.
proof fn lemma_held_of_tail(want: Seq<Blake3Hash>, present: Seq<bool>, n: int)
    requires
        0 <= n <= want.len(),
        n <= present.len(),
        n == want.len() || n == present.len(),
    ensures
        held_of(want, present) == held_of(want.subrange(0, n), present.subrange(0, n)),
    decreases n,
{
    if n == 0 {
        assert(held_of(want.subrange(0, 0), present.subrange(0, 0)) == Seq::<Blake3Hash>::empty());
    } else {
        lemma_held_of_tail(want.drop_first(), present.drop_first(), n - 1);
        assert(want.subrange(0, n).drop_first() =~= want.drop_first().subrange(0, n - 1));
        assert(present.subrange(0, n).drop_first() =~= present.drop_first().subrange(0, n - 1));
    }
}

/// The value of a hex digit byte, either case.
pub open spec fn hex_val(c: u8) -> Option<u8> {
    if 48 <= c <= 57 {
        Some((c - 48) as u8)
    } else if 97 <= c <= 102 {
        Some((c - 97 + 10) as u8)
    } else if 65 <= c <= 70 {
        Some((c - 65 + 10) as u8)
    } else {
        None
    }
}

/// 64 hex digit bytes.
pub open spec fn is_hash_hex(b: Seq<u8>) -> bool {
    b.len() == 64 && forall|i: int| 0 <= i < 64 ==> (#[trigger] hex_val(b[i])) is Some
}

fn hex_value(c: u8) -> (r: Option<u8>)
    ensures
        r == hex_val(c),
{
    if 48 <= c && c <= 57 {
        Some(c - 48)
    } else if 97 <= c && c <= 102 {
        Some(c - 97 + 10)
    } else if 65 <= c && c <= 70 {
        Some(c - 65 + 10)
    } else {
        None
    }
}

/// A content hash from its 64 hex digits (either case), high nibble first.
pub fn parse_hash(s: &str) -> (r: Result<Blake3Hash, String>)
    ensures
        r is Ok <==> is_hash_hex(s.spec_bytes()),
        r matches Ok(h) ==> forall|i: int|
            0 <= i < 32 ==> #[trigger] h@[i] == hex_val(s.spec_bytes()[2 * i])->0 * 16 + hex_val(
                s.spec_bytes()[2 * i + 1],
            )->0,
{
    let bytes = s.as_bytes();
    if bytes.len() != 64 {
        return Err(String::from_str("net-hash must be 64 hex chars"));
    }
    let mut hash: Blake3Hash = [0u8; 32];
    let mut i: usize = 0;
    while i < 32
        invariant
            i <= 32,
            bytes@ == s.spec_bytes(),
            bytes@.len() == 64,
            hash@.len() == 32,
            forall|k: int| 0 <= k < 2 * i ==> (#[trigger] hex_val(bytes@[k])) is Some,
            forall|k: int|
                0 <= k < i ==> #[trigger] hash@[k] == hex_val(bytes@[2 * k])->0 * 16 + hex_val(
                    bytes@[2 * k + 1],
                )->0,
        decreases 32 - i,
    {
        let hi = match hex_value(bytes[2 * i]) {
            Some(v) => v,
            None => {
                return Err(String::from_str("invalid hex char"));
            },
        };
        let lo = match hex_value(bytes[2 * i + 1]) {
            Some(v) => v,
            None => {
                return Err(String::from_str("invalid hex char"));
            },
        };
        hash[i] = hi * 16 + lo;
        i = i + 1;
    }
    Ok(hash)
}

} // verus!
