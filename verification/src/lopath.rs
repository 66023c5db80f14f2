//! Leftmost-outermost paths: the position of a redex as a bit string (0 =
//! left/first auxiliary, 1 = right/second auxiliary), packed MSB-first in up
//! to four 128-bit limbs (hot, then warm, cold and frozen as it grows).
use vstd::prelude::*;
use crate::error::DnxError;

verus! {

/// Bit `i` (0 = most significant) of a limb.
pub open spec fn bit(l: u128, i: int) -> bool {
    (l >> ((127 - i) as u128)) & 1u128 == 1u128
}

pub open spec fn opt_seq(o: Option<u128>) -> Seq<u128> {
    match o {
        Some(x) => seq![x],
        None => Seq::empty(),
    }
}

/// Compare two limb sequences from index `i` on, over their common length.
pub open spec fn limbs_order(a: Seq<u128>, b: Seq<u128>, i: nat) -> int
    decreases a.len() - i,
{
    if i >= a.len() || i >= b.len() {
        0
    } else if a[i as int] < b[i as int] {
        -1
    } else if a[i as int] > b[i as int] {
        1
    } else {
        limbs_order(a, b, i + 1)
    }
}

/// `a` is a prefix of `b`.
pub open spec fn is_prefix(a: Seq<bool>, b: Seq<bool>) -> bool {
    a.len() <= b.len() && forall|i: int| 0 <= i < a.len() ==> a[i] == b[i]
}

/// Bit `i` of `s`, read as `false` past its end.
pub open spec fn padded(s: Seq<bool>, i: int) -> bool {
    if 0 <= i < s.len() {
        s[i]
    } else {
        false
    }
}

/// A path in an interaction net: up to 512 branch bits.
#[derive(Debug, Clone, Copy, PartialEq, Eq, Structural)]
pub struct LOPath {
    pub hot: u128,
    pub warm: Option<u128>,
    pub cold: Option<u128>,
    pub frozen: Option<u128>,
    pub len: u8,
}

impl LOPath {
    /// Number of full (promoted) limbs.
    pub open spec fn n_full(self) -> int {
        if self.frozen is Some {
            3
        } else if self.cold is Some {
            2
        } else if self.warm is Some {
            1
        } else {
            0
        }
    }

    /// The limbs, oldest first; the last one is the hot limb.
    pub open spec fn limbs(self) -> Seq<u128> {
        if self.frozen is Some {
            seq![self.frozen.unwrap(), self.cold.unwrap(), self.warm.unwrap(), self.hot]
        } else if self.cold is Some {
            seq![self.cold.unwrap(), self.warm.unwrap(), self.hot]
        } else if self.warm is Some {
            seq![self.warm.unwrap(), self.hot]
        } else {
            seq![self.hot]
        }
    }

    pub open spec fn spec_depth(self) -> int {
        128 * self.n_full() + self.len
    }

    /// The path as a bit string.
    pub open spec fn bits(self) -> Seq<bool> {
        Seq::new(self.spec_depth() as nat, |i: int| bit(self.limbs()[i / 128], i % 128))
    }

    /// Limbs are promoted in order, the hot limb holds `len` bits and is zero
    /// past them, and a promoted path has at least one hot bit.
    pub open spec fn wf(self) -> bool {
        &&& self.len <= 128
        &&& (self.frozen is Some ==> self.cold is Some)
        &&& (self.cold is Some ==> self.warm is Some)
        &&& (self.warm is Some ==> self.len >= 1)
        &&& forall|i: int| self.len <= i < 128 ==> !#[trigger] bit(self.hot, i)
    }

    /// Whether the path is well formed (see `wf`).
    pub fn is_wf(&self) -> (b: bool)
        ensures
            b == self.wf(),
    {
        if self.len > 128 {
            return false;
        }
        if self.frozen.is_some() && self.cold.is_none() {
            return false;
        }
        if self.cold.is_some() && self.warm.is_none() {
            return false;
        }
        if self.warm.is_some() && self.len < 1 {
            return false;
        }
        let mut i: u32 = self.len as u32;
        while i < 128
            invariant
                self.len <= i <= 128,
                forall|j: int| self.len <= j < i ==> !#[trigger] bit(self.hot, j),
            decreases 128 - i,
        {
            if (self.hot >> ((127 - i) as u128)) & 1u128 == 1u128 {
                assert(bit(self.hot, i as int));
                return false;
            }
            i = i + 1;
        }
        true
    }

    pub fn root() -> (p: LOPath)
        ensures
            p.wf(),
            p.bits() == Seq::<bool>::empty(),
    {
        let p = LOPath { hot: 0, warm: None, cold: None, frozen: None, len: 0 };
        proof {
            assert forall|i: int| p.len <= i < 128 implies !#[trigger] bit(p.hot, i) by {
                let ii = (127 - i) as u128;
                assert((0u128 >> ii) & 1u128 == 0u128) by (bit_vector);
            }
            assert(p.bits() =~= Seq::<bool>::empty());
        }
        p
    }

    pub fn extend_right(&self) -> (r: Result<LOPath, DnxError>)
        requires
            self.wf(),
        ensures
            self.spec_depth() < 512 ==> (r matches Ok(p) && p.wf() && p.bits() == self.bits().push(true)),
            self.spec_depth() >= 512 ==> r == Err::<LOPath, DnxError>(DnxError::LOPathDepthExceeded),
    {
        self.extend_bit(1)
    }

    pub fn extend_left(&self) -> (r: Result<LOPath, DnxError>)
        requires
            self.wf(),
        ensures
            self.spec_depth() < 512 ==> (r matches Ok(p) && p.wf() && p.bits() == self.bits().push(false)),
            self.spec_depth() >= 512 ==> r == Err::<LOPath, DnxError>(DnxError::LOPathDepthExceeded),
    {
        self.extend_bit(0)
    }

    fn extend_bit(&self, b: u8) -> (r: Result<LOPath, DnxError>)
        requires
            self.wf(),
            b <= 1,
        ensures
            self.spec_depth() < 512 ==> (r matches Ok(p) && p.wf() && p.bits() == self.bits().push(
                b == 1,
            )),
            self.spec_depth() >= 512 ==> r == Err::<LOPath, DnxError>(DnxError::LOPathDepthExceeded),
    {
        let mut out = LOPath {
            hot: self.hot,
            warm: self.warm,
            cold: self.cold,
            frozen: self.frozen,
            len: self.len,
        };
        if out.len == 128 {
            match (out.warm, out.cold, out.frozen) {
                (None, _, _) => {
                    out.warm = Some(out.hot);
                },
                (Some(w), None, _) => {
                    out.cold = Some(w);
                    out.warm = Some(out.hot);
                },
                (Some(w), Some(c), None) => {
                    out.frozen = Some(c);
                    out.cold = Some(w);
                    out.warm = Some(out.hot);
                },
                (Some(_), Some(_), Some(_)) => return Err(DnxError::LOPathDepthExceeded),
            }
            out.hot = 0;
            out.len = 0;
        }
        let ghost mid = out;
        proof {
            if self.len == 128 {
                assert(mid.limbs() =~= self.limbs().push(0u128));
                assert forall|i: int| 0 <= i < 128 implies !#[trigger] bit(mid.hot, i) by {
                    let ii = (127 - i) as u128;
                    assert((0u128 >> ii) & 1u128 == 0u128) by (bit_vector);
                }
            } else {
                assert(mid == *self);
            }
        }
        let sh = 127 - (out.len as u32);
        let bb = b as u128;
        out.hot = out.hot | (bb << sh);
        out.len = out.len + 1;
        proof {
            let h0 = mid.hot;
            let l0 = mid.len as int;
            assert forall|j: int| 0 <= j < 128 implies #[trigger] bit(out.hot, j) == (if j == l0 {
                b == 1
            } else {
                bit(h0, j)
            }) by {
                let jj = (127 - j) as u128;
                let shh = sh as u128;
                assert(((h0 | (bb << shh)) >> jj) & 1u128 == (if jj == shh {
                    ((h0 >> jj) & 1u128) | bb
                } else {
                    (h0 >> jj) & 1u128
                })) by (bit_vector)
                    requires
                        bb <= 1,
                        shh <= 127,
                        jj <= 127,
                ;
                if j == l0 {
                    assert(!bit(h0, j));
                    assert(((h0 >> jj) & 1u128) | bb == bb) by (bit_vector)
                        requires
                            (h0 >> jj) & 1u128 != 1u128,
                            bb <= 1,
                    ;
                }
            }
            assert(out.limbs() =~= mid.limbs().update(mid.n_full(), out.hot));
            assert(out.bits() =~= self.bits().push(b == 1));
        }
        Ok(out)
    }

    /// Within the limbs of a well-formed path, the zero-padded bit string reads
    /// the limb bits directly.
    pub proof fn lemma_padded_block(self, q: int, j: int)
        requires
            self.wf(),
            0 <= q <= self.n_full(),
            0 <= j < 128,
        ensures
            padded(self.bits(), 128 * q + j) == bit(self.limbs()[q], j),
    {
        let i = 128 * q + j;
        assert(i / 128 == q && i % 128 == j) by (nonlinear_arith)
            requires
                i == 128 * q + j,
                0 <= j < 128,
                0 <= q,
        ;
        if q == self.n_full() && j >= self.len {
            assert(!bit(self.hot, j));
        }
    }

    /// The limbs that are present, oldest first, whatever their order of
    /// promotion: the sequence the comparison walks.
    pub open spec fn all_limbs(self) -> Seq<u128> {
        opt_seq(self.frozen) + opt_seq(self.cold) + opt_seq(self.warm) + seq![self.hot]
    }

    pub proof fn lemma_all_limbs(self)
        requires
            self.wf(),
        ensures
            self.all_limbs() == self.limbs(),
    {
        assert(self.all_limbs() =~= self.limbs());
    }

    fn n_limbs(&self) -> (n: usize)
        ensures
            n == self.all_limbs().len(),
    {
        1 + (if self.warm.is_some() { 1usize } else { 0 }) + (if self.cold.is_some() { 1usize } else { 0 })
            + (if self.frozen.is_some() { 1usize } else { 0 })
    }

    /// The `i`-th present limb, oldest first, or 0 past the hot limb.
    fn nth_limb(&self, i: usize) -> (l: u128)
        ensures
            l == (if i < self.all_limbs().len() { self.all_limbs()[i as int] } else { 0u128 }),
    {
        let mut idx = i;
        let ghost rest = self.all_limbs();
        if let Some(f) = self.frozen {
            if idx == 0 {
                return f;
            }
            idx = idx - 1;
            proof {
                rest = rest.drop_first();
            }
        }
        if let Some(c) = self.cold {
            if idx == 0 {
                return c;
            }
            idx = idx - 1;
            proof {
                rest = rest.drop_first();
            }
        }
        if let Some(w) = self.warm {
            if idx == 0 {
                return w;
            }
            idx = idx - 1;
            proof {
                rest = rest.drop_first();
            }
        }
        proof {
            assert(rest =~= seq![self.hot]);
        }
        if idx == 0 {
            return self.hot;
        }
        0
    }

    pub fn is_prefix_of(&self, other: &LOPath) -> (r: bool)
        requires
            self.wf(),
            other.wf(),
        ensures
            r == is_prefix(self.bits(), other.bits()),
    {
        if self.depth() == 0 {
            return true;
        }
        if self.depth() > other.depth() {
            return false;
        }
        let n = self.n_limbs();
        proof {
            self.lemma_all_limbs();
            other.lemma_all_limbs();
        }
        let mut i: usize = 0;
        while i < n
            invariant
                self.wf(),
                other.wf(),
                n == self.n_full() + 1,
                i <= n,
                0 < self.spec_depth() <= other.spec_depth(),
                forall|k: int| 0 <= k < 128 * i && k < self.spec_depth() ==> #[trigger] self.bits()[k]
                    == other.bits()[k],
            decreases n - i,
        {
            let limb = self.nth_limb(i);
            let other_limb = other.nth_limb(i);
            proof {
                // the block of `self` lies within `other`'s limbs.
                assert(i <= other.n_full()) by (nonlinear_arith)
                    requires
                        i < n,
                        n == self.n_full() + 1,
                        128 * self.n_full() + self.len <= 128 * other.n_full() + other.len,
                        other.len <= 128,
                        self.len >= 1,
                ;
            }
            if i + 1 < n {
                if limb != other_limb {
                    proof {
                        if forall|j: int| 0 <= j < 128 ==> bit(limb, j) == bit(other_limb, j) {
                            lemma_bits_shift_eq(limb, other_limb, 128);
                            lemma_shift_zero(limb);
                            lemma_shift_zero(other_limb);
                        }
                        let j = choose|j: int| 0 <= j < 128 && bit(limb, j) != bit(other_limb, j);
                        self.lemma_padded_block(i as int, j);
                        other.lemma_padded_block(i as int, j);
                        let k = 128 * i + j;
                        assert(k < self.spec_depth()) by (nonlinear_arith)
                            requires
                                k == 128 * i + j,
                                j < 128,
                                i + 1 < n,
                                n == self.n_full() + 1,
                                self.spec_depth() == 128 * self.n_full() + self.len,
                                self.len >= 1,
                        ;
                        assert(self.bits()[k] != other.bits()[k]);
                    }
                    return false;
                }
                proof {
                    assert forall|k: int|
                        0 <= k < 128 * (i + 1) && k < self.spec_depth() implies #[trigger] self.bits()[k]
                        == other.bits()[k] by {
                        if k >= 128 * i {
                            let j = k - 128 * i;
                            self.lemma_padded_block(i as int, j);
                            other.lemma_padded_block(i as int, j);
                        }
                    }
                }
            } else {
                let shift: u32 = 128 - (self.len as u32);
                if (limb >> shift) != (other_limb >> shift) {
                    proof {
                        let kk = self.len as u128;
                        if forall|j: int| 0 <= j < kk ==> bit(limb, j) == bit(other_limb, j) {
                            lemma_bits_shift_eq(limb, other_limb, kk);
                        }
                        let j = choose|j: int| 0 <= j < kk && bit(limb, j) != bit(other_limb, j);
                        self.lemma_padded_block(i as int, j);
                        other.lemma_padded_block(i as int, j);
                        let k = 128 * i + j;
                        assert(self.bits()[k] != other.bits()[k]);
                    }
                    return false;
                }
                proof {
                    assert forall|k: int|
                        0 <= k < 128 * (i + 1) && k < self.spec_depth() implies #[trigger] self.bits()[k]
                        == other.bits()[k] by {
                        if k >= 128 * i {
                            let j = k - 128 * i;
                            lemma_shift_eq_bits(limb, other_limb, self.len as u128, j as u128);
                            self.lemma_padded_block(i as int, j);
                            other.lemma_padded_block(i as int, j);
                        }
                    }
                }
            }
            i = i + 1;
        }
        proof {
            assert(self.spec_depth() <= 128 * n);
        }
        true
    }

    pub fn prefix_independent(&self, other: &LOPath) -> (r: bool)
        requires
            self.wf(),
            other.wf(),
        ensures
            r == (!is_prefix(self.bits(), other.bits()) && !is_prefix(other.bits(), self.bits())),
    {
        !self.is_prefix_of(other) && !other.is_prefix_of(self)
    }

    /// The first branch bit, `None` at the root.
    pub fn shard_key(&self) -> (r: Option<u8>)
        requires
            self.wf(),
        ensures
            r == (if self.bits().len() == 0 {
                None::<u8>
            } else {
                Some(if self.bits()[0] { 1u8 } else { 0u8 })
            }),
    {
        if self.depth() == 0 {
            None
        } else {
            let first = match self.frozen {
                Some(f) => f,
                None => match self.cold {
                    Some(c) => c,
                    None => match self.warm {
                        Some(w) => w,
                        None => self.hot,
                    },
                },
            };
            proof {
                assert(first == self.limbs()[0]);
                assert(0int / 128 == 0 && 0int % 128 == 0);
                assert((first >> 127u128) <= 1u128) by (bit_vector);
                assert(((first >> 127u128) & 1u128 == 1u128) == ((first >> 127u128) == 1u128)) by (bit_vector);
            }
            Some((first >> 127u32) as u8)
        }
    }

    /// The hot limb as four 32-bit words (most significant first) and its
    /// bit count.
    pub fn gpu_bits(&self) -> (r: ([u32; 4], u8))
        ensures
            r.0@ == seq![
                (self.hot >> 96u128) as u32,
                (self.hot >> 64u128) as u32,
                (self.hot >> 32u128) as u32,
                self.hot as u32,
            ],
            r.1 == self.len,
    {
        let h = self.hot;
        let a = [(h >> 96u32) as u32, (h >> 64u32) as u32, (h >> 32u32) as u32, h as u32];
        proof {
            assert(a@ =~= seq![
                (self.hot >> 96u128) as u32,
                (self.hot >> 64u128) as u32,
                (self.hot >> 32u128) as u32,
                self.hot as u32,
            ]);
        }
        (a, self.len)
    }

    /// Rebuild a path whose only limb is the hot one from four 32-bit words.
    pub fn from_gpu_bits(hi: u32, mid1: u32, mid0: u32, lo: u32, len: u8) -> (p: LOPath)
        ensures
            p.hot == (((hi as u128) << 96u128) | ((mid1 as u128) << 64u128) | ((mid0 as u128)
                << 32u128) | (lo as u128)),
            p.warm is None,
            p.cold is None,
            p.frozen is None,
            p.len == len,
    {
        let hot = ((hi as u128) << 96u32) | ((mid1 as u128) << 64u32) | ((mid0 as u128) << 32u32)
            | (lo as u128);
        LOPath { hot, warm: None, cold: None, frozen: None, len }
    }

    /// The leftmost-outermost comparison: -1, 0 or 1 as `self` comes before,
    /// equals or comes after `other`.
    pub open spec fn spec_order(self, other: LOPath) -> int {
        let c = limbs_order(self.all_limbs(), other.all_limbs(), 0);
        if c != 0 {
            c
        } else if self.spec_depth() < other.spec_depth() {
            -1
        } else if self.spec_depth() > other.spec_depth() {
            1
        } else {
            0
        }
    }

    /// Compare limb by limb (oldest first, as many as both have), then by
    /// depth.
    pub fn lo_order(&self, other: &LOPath) -> (r: i8)
        ensures
            r == self.spec_order(*other),
    {
        let na = self.n_limbs();
        let nb = other.n_limbs();
        let m = if na < nb { na } else { nb };
        let ghost a = self.all_limbs();
        let ghost b = other.all_limbs();
        let mut i: usize = 0;
        while i < m
            invariant
                m <= a.len(),
                m <= b.len(),
                a == self.all_limbs(),
                b == other.all_limbs(),
                m == (if a.len() < b.len() { a.len() } else { b.len() }),
                i <= m,
                limbs_order(a, b, 0) == limbs_order(a, b, i as nat),
            decreases m - i,
        {
            let x = self.nth_limb(i);
            let y = other.nth_limb(i);
            if x < y {
                return -1;
            }
            if x > y {
                return 1;
            }
            i = i + 1;
        }
        let da = self.depth();
        let db = other.depth();
        if da < db {
            -1
        } else if da > db {
            1
        } else {
            0
        }
    }

    pub fn depth(&self) -> (d: usize)
        ensures
            d == self.spec_depth(),
            d == self.bits().len(),
    {
        let full: usize = if self.frozen.is_some() {
            3
        } else if self.cold.is_some() {
            2
        } else if self.warm.is_some() {
            1
        } else {
            0
        };
        full * 128 + self.len as usize
    }
}

/// Lexicographic order on limb sequences from index `i`, a proper prefix first.
pub open spec fn seq_lt(a: Seq<u128>, b: Seq<u128>, i: nat) -> bool
    decreases a.len() - i,
{
    if i >= a.len() {
        i < b.len()
    } else if i >= b.len() {
        false
    } else if a[i as int] < b[i as int] {
        true
    } else if a[i as int] > b[i as int] {
        false
    } else {
        seq_lt(a, b, i + 1)
    }
}

pub proof fn lemma_seq_lt_asym(a: Seq<u128>, b: Seq<u128>, i: nat)
    ensures
        !(seq_lt(a, b, i) && seq_lt(b, a, i)),
    decreases a.len() - i,
{
    if i < a.len() && i < b.len() && a[i as int] == b[i as int] {
        lemma_seq_lt_asym(a, b, i + 1);
    }
}

pub proof fn lemma_seq_lt_trans(a: Seq<u128>, b: Seq<u128>, c: Seq<u128>, i: nat)
    requires
        seq_lt(a, b, i),
        seq_lt(b, c, i),
    ensures
        seq_lt(a, c, i),
    decreases a.len() - i,
{
    if i < a.len() && i < b.len() && i < c.len() && a[i as int] == b[i as int] && b[i as int] == c[i
        as int] {
        lemma_seq_lt_trans(a, b, c, i + 1);
    }
}

/// Either one sequence precedes the other, or they agree from `i` on.
pub proof fn lemma_seq_lt_total(a: Seq<u128>, b: Seq<u128>, i: nat)
    requires
        i <= a.len(),
        i <= b.len(),
    ensures
        seq_lt(a, b, i) || seq_lt(b, a, i) || a.subrange(i as int, a.len() as int) == b.subrange(
            i as int,
            b.len() as int,
        ),
    decreases a.len() - i,
{
    if i < a.len() && i < b.len() && a[i as int] == b[i as int] {
        lemma_seq_lt_total(a, b, i + 1);
        if a.subrange((i + 1) as int, a.len() as int) == b.subrange((i + 1) as int, b.len() as int) {
            assert(a.subrange(i as int, a.len() as int) =~= b.subrange(i as int, b.len() as int)) by {
                assert(a.subrange(i as int, a.len() as int) =~= seq![a[i as int]] + a.subrange(
                    (i + 1) as int,
                    a.len() as int,
                ));
                assert(b.subrange(i as int, b.len() as int) =~= seq![b[i as int]] + b.subrange(
                    (i + 1) as int,
                    b.len() as int,
                ));
            }
        }
    } else if i == a.len() && i == b.len() {
        assert(a.subrange(i as int, a.len() as int) =~= b.subrange(i as int, b.len() as int));
    }
}

/// The limb comparison, read as a strict order: it agrees with `seq_lt`
/// when the limbs differ within their common length.
pub proof fn lemma_limbs_order(a: Seq<u128>, b: Seq<u128>, i: nat)
    ensures
        limbs_order(a, b, i) == -limbs_order(b, a, i),
        limbs_order(a, b, i) < 0 ==> seq_lt(a, b, i),
        limbs_order(a, b, i) == 0 && a.len() < b.len() && i <= a.len() ==> seq_lt(a, b, i),
        limbs_order(a, b, i) == 0 && a.len() == b.len() && i <= a.len() ==> a.subrange(
            i as int,
            a.len() as int,
        ) == b.subrange(i as int, b.len() as int),
        -1 <= limbs_order(a, b, i) <= 1,
    decreases a.len() - i,
{
    if i < a.len() && i < b.len() && a[i as int] == b[i as int] {
        lemma_limbs_order(a, b, i + 1);
        if limbs_order(a, b, i) == 0 && a.len() == b.len() {
            assert(a.subrange(i as int, a.len() as int) =~= seq![a[i as int]] + a.subrange(
                (i + 1) as int,
                a.len() as int,
            ));
            assert(b.subrange(i as int, b.len() as int) =~= seq![b[i as int]] + b.subrange(
                (i + 1) as int,
                b.len() as int,
            ));
        }
    } else if i >= a.len() && i >= b.len() && a.len() == b.len() && i <= a.len() {
        assert(a.subrange(i as int, a.len() as int) =~= b.subrange(i as int, b.len() as int));
    }
}

/// The leftmost-outermost order of two well-formed paths, as a strict order
/// on (limbs, depth).
pub open spec fn lo_lt(a: LOPath, b: LOPath) -> bool {
    a.spec_order(b) < 0
}

/// Well-formed paths with more limbs are deeper.
pub proof fn lemma_depth_limbs(a: LOPath, b: LOPath)
    requires
        a.wf(),
        b.wf(),
        a.n_full() < b.n_full(),
    ensures
        a.spec_depth() < b.spec_depth(),
{
}

/// Comparing well-formed paths: `lo_lt` is asymmetric, transitive and total,
/// and paths that compare equal are equal.
pub proof fn lemma_lo_order(a: LOPath, b: LOPath)
    requires
        a.wf(),
        b.wf(),
    ensures
        a.spec_order(b) == -b.spec_order(a),
        -1 <= a.spec_order(b) <= 1,
        a.spec_order(b) == 0 <==> a == b,
        a.spec_order(b) < 0 <==> (seq_lt(a.limbs(), b.limbs(), 0) || (a.limbs() == b.limbs()
            && a.spec_depth() < b.spec_depth())),
{
    a.lemma_all_limbs();
    b.lemma_all_limbs();
    let la = a.limbs();
    let lb = b.limbs();
    lemma_limbs_order(la, lb, 0);
    lemma_limbs_order(lb, la, 0);
    lemma_seq_lt_asym(la, lb, 0);
    lemma_seq_lt_asym(la, la, 0);
    lemma_seq_lt_total(la, lb, 0);
    assert(la.subrange(0, la.len() as int) =~= la);
    assert(lb.subrange(0, lb.len() as int) =~= lb);
    if la.len() < lb.len() {
        lemma_depth_limbs(a, b);
    } else if lb.len() < la.len() {
        lemma_depth_limbs(b, a);
    }
    if a.spec_order(b) == 0 {
        assert(la.len() == lb.len());
        assert(la == lb);
        assert(a.n_full() == b.n_full());
        assert(a.len == b.len);
        if a.frozen is Some {
            assert(la[0] == lb[0] && la[1] == lb[1] && la[2] == lb[2] && la[3] == lb[3]);
        } else if a.cold is Some {
            assert(la[0] == lb[0] && la[1] == lb[1] && la[2] == lb[2]);
        } else if a.warm is Some {
            assert(la[0] == lb[0] && la[1] == lb[1]);
        } else {
            assert(la[0] == lb[0]);
        }
    }
    if seq_lt(la, lb, 0) && la == lb {
        lemma_seq_lt_asym(la, lb, 0);
    }
}

/// The order is transitive.
pub proof fn lemma_lo_lt_trans(a: LOPath, b: LOPath, c: LOPath)
    requires
        a.wf(),
        b.wf(),
        c.wf(),
        lo_lt(a, b),
        lo_lt(b, c),
    ensures
        lo_lt(a, c),
{
    lemma_lo_order(a, b);
    lemma_lo_order(b, c);
    lemma_lo_order(a, c);
    if seq_lt(a.limbs(), b.limbs(), 0) && seq_lt(b.limbs(), c.limbs(), 0) {
        lemma_seq_lt_trans(a.limbs(), b.limbs(), c.limbs(), 0);
    }
}

pub proof fn lemma_shift_eq_bits(a: u128, b: u128, k: u128, i: u128)
    requires
        1 <= k <= 128,
        i < k,
        (a >> ((128 - k) as u128)) == (b >> ((128 - k) as u128)),
    ensures
        bit(a, i as int) == bit(b, i as int),
{
    assert(((a >> ((127 - i) as u128)) & 1u128) == ((b >> ((127 - i) as u128)) & 1u128)) by (bit_vector)
        requires
            1 <= k <= 128,
            i < k,
            (a >> ((128 - k) as u128)) == (b >> ((128 - k) as u128)),
    ;
}

pub proof fn lemma_bits_shift_eq(a: u128, b: u128, k: u128)
    requires
        1 <= k <= 128,
        forall|i: int| 0 <= i < k ==> bit(a, i) == bit(b, i),
    ensures
        (a >> ((128 - k) as u128)) == (b >> ((128 - k) as u128)),
    decreases k,
{
    if k == 1 {
        assert(bit(a, 0) == bit(b, 0));
        assert((a >> 127u128) == (b >> 127u128)) by (bit_vector)
            requires
                ((a >> 127u128) & 1u128 == 1u128) == ((b >> 127u128) & 1u128 == 1u128),
        ;
    } else {
        lemma_bits_shift_eq(a, b, (k - 1) as u128);
        let j = (k - 1) as int;
        assert(bit(a, j) == bit(b, j));
        let s = (128 - k) as u128;
        assert(bit(a, j) == bit(b, j));
        assert((a >> ((s + 1) as u128)) == (b >> ((s + 1) as u128)));
        lemma_shift_succ(a, s);
        lemma_shift_succ(b, s);
        let x = a >> s;
        let y = b >> s;
        assert((x & 1u128) <= 1u128 && (y & 1u128) <= 1u128) by (bit_vector);
        assert(((x & 1u128) == 1u128) == ((y & 1u128) == 1u128));
        assert(x == y) by (bit_vector)
            requires
                (x >> 1u128) == (y >> 1u128),
                (x & 1u128) == (y & 1u128),
        ;
    }
}

pub proof fn lemma_shift_zero(a: u128)
    ensures
        a >> 0u128 == a,
{
    assert(a >> 0u128 == a) by (bit_vector);
}

pub proof fn lemma_shift_succ(a: u128, s: u128)
    requires
        s < 127,
    ensures
        a >> ((s + 1) as u128) == (a >> s) >> 1u128,
{
    assert(a >> ((s + 1) as u128) == (a >> s) >> 1u128) by (bit_vector)
        requires
            s < 127,
    ;
}

} // verus!
