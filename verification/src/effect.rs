//! Effect rows: the set of capabilities a computation needs, closed or open,
//! and the content-addressed identity of an artifact with its effects.
use vstd::prelude::*;
use crate::canonical_hash::Blake3Hash;

verus! {

/// The UTF-8 bytes of a label.
pub trait LabelBytes {
    spec fn view_bytes(&self) -> Seq<u8>;
}

impl LabelBytes for String {
    open spec fn view_bytes(&self) -> Seq<u8> {
        vstd::utf8::encode_utf8(self@)
    }
}

/// Byte-wise lexicographic order of two strings.
pub open spec fn bytes_lt(a: Seq<u8>, b: Seq<u8>) -> bool
    decreases a.len(),
{
    if b.len() == 0 {
        false
    } else if a.len() == 0 {
        true
    } else if a[0] != b[0] {
        a[0] < b[0]
    } else {
        bytes_lt(a.drop_first(), b.drop_first())
    }
}

/// The labels, as byte strings, of a label list.
pub open spec fn label_set(labels: Seq<String>) -> Set<Seq<u8>> {
    Set::new(|x: Seq<u8>| exists|i: int| 0 <= i < labels.len() && (#[trigger] labels[i]).view_bytes() == x)
}

/// Strictly ascending in byte order: a sorted set.
pub open spec fn strictly_sorted(labels: Seq<String>) -> bool {
    forall|i: int, j: int|
        0 <= i < j < labels.len() ==> bytes_lt(
            (#[trigger] labels[i]).view_bytes(),
            (#[trigger] labels[j]).view_bytes(),
        )
}

/// A row of effects: the labels it needs, in ascending order, and an
/// optional row variable (an open row).
#[derive(Debug, Clone, PartialEq, Eq)]
pub struct EffectRow {
    pub labels: Vec<String>,
    pub tail: Option<String>,
}

/// Compare two byte strings: -1, 0 or 1.
fn order_bytes(a: &[u8], b: &[u8]) -> (r: i8)
    ensures
        r == -1 || r == 0 || r == 1,
        r == -1 <==> bytes_lt(a@, b@),
        r == 0 <==> a@ == b@,
        r == 1 <==> bytes_lt(b@, a@),
{
    let mut i: usize = 0;
    while i < a.len() && i < b.len()
        invariant
            i <= a@.len(),
            i <= b@.len(),
            a@.subrange(0, i as int) == b@.subrange(0, i as int),
        decreases a@.len() - i,
    {
        if a[i] != b[i] {
            proof {
                lemma_lt_at(a@, b@, i as int);
                lemma_lt_at(b@, a@, i as int);
                assert(a@[i as int] != b@[i as int]);
            }
            if a[i] < b[i] {
                return -1;
            } else {
                return 1;
            }
        }
        proof {
            assert(a@.subrange(0, i + 1) =~= a@.subrange(0, i as int).push(a@[i as int]));
            assert(b@.subrange(0, i + 1) =~= b@.subrange(0, i as int).push(b@[i as int]));
        }
        i = i + 1;
    }
    proof {
        lemma_lt_prefix(a@, b@, i as int);
        lemma_lt_prefix(b@, a@, i as int);
    }
    if a.len() < b.len() {
        -1
    } else if b.len() < a.len() {
        1
    } else {
        proof {
            assert(a@ =~= a@.subrange(0, i as int));
            assert(b@ =~= b@.subrange(0, i as int));
        }
        0
    }
}

/// Two byte strings that agree before position `i` and differ there are
/// ordered by their bytes at `i`.
proof fn lemma_lt_at(a: Seq<u8>, b: Seq<u8>, i: int)
    requires
        0 <= i < a.len(),
        i < b.len(),
        a.subrange(0, i) == b.subrange(0, i),
        a[i] != b[i],
    ensures
        bytes_lt(a, b) == (a[i] < b[i]),
    decreases i,
{
    if i > 0 {
        assert(a[0] == a.subrange(0, i)[0]);
        assert(b[0] == b.subrange(0, i)[0]);
        assert(a.drop_first().subrange(0, i - 1) =~= a.subrange(0, i).drop_first());
        assert(b.drop_first().subrange(0, i - 1) =~= b.subrange(0, i).drop_first());
        lemma_lt_at(a.drop_first(), b.drop_first(), i - 1);
    }
}

/// Of two byte strings agreeing on their first `i` bytes, where one of
/// them has length `i`, the shorter comes first.
proof fn lemma_lt_prefix(a: Seq<u8>, b: Seq<u8>, i: int)
    requires
        0 <= i <= a.len(),
        i <= b.len(),
        i == a.len() || i == b.len(),
        a.subrange(0, i) == b.subrange(0, i),
    ensures
        bytes_lt(a, b) == (a.len() < b.len()),
    decreases i,
{
    if i > 0 {
        assert(a[0] == a.subrange(0, i)[0]);
        assert(b[0] == b.subrange(0, i)[0]);
        assert(a.drop_first().subrange(0, i - 1) =~= a.subrange(0, i).drop_first());
        assert(b.drop_first().subrange(0, i - 1) =~= b.subrange(0, i).drop_first());
        lemma_lt_prefix(a.drop_first(), b.drop_first(), i - 1);
    }
}

/// Byte order is transitive.
proof fn lemma_lt_trans(a: Seq<u8>, b: Seq<u8>, c: Seq<u8>)
    requires
        bytes_lt(a, b),
        bytes_lt(b, c),
    ensures
        bytes_lt(a, c),
    decreases a.len(),
{
    if a.len() > 0 && b.len() > 0 && c.len() > 0 && a[0] == b[0] && b[0] == c[0] {
        lemma_lt_trans(a.drop_first(), b.drop_first(), c.drop_first());
    }
}

impl EffectRow {
    pub open spec fn wf(&self) -> bool {
        strictly_sorted(self.labels@)
    }

    /// The empty, closed row.
    pub fn pure() -> (r: EffectRow)
        ensures
            r.wf(),
            r.labels@.len() == 0,
            r.tail is None,
    {
        EffectRow { labels: Vec::new(), tail: None }
    }

    /// No labels and closed.
    pub fn is_pure(&self) -> (b: bool)
        ensures
            b == (self.labels@.len() == 0 && self.tail is None),
    {
        self.labels.len() == 0 && self.tail.is_none()
    }

    /// The closed row of one label.
    pub fn single(label: &str) -> (r: EffectRow)
        ensures
            r.wf(),
            r.labels@.len() == 1,
            r.labels@[0]@ == label@,
            r.tail is None,
    {
        let mut labels: Vec<String> = Vec::new();
        labels.push(label.to_owned());
        EffectRow { labels, tail: None }
    }

    /// The labels of both rows; the first row's variable if it has one,
    /// else the second's.
    pub fn union(a: &EffectRow, b: &EffectRow) -> (r: EffectRow)
        requires
            a.wf(),
            b.wf(),
        ensures
            r.wf(),
            label_set(r.labels@) == label_set(a.labels@).union(label_set(b.labels@)),
            r.tail == (if a.tail is Some {
                a.tail
            } else {
                b.tail
            }),
    {
        let mut out: Vec<String> = Vec::new();
        let mut i: usize = 0;
        let mut j: usize = 0;
        while i < a.labels.len() || j < b.labels.len()
            invariant
                a.wf(),
                b.wf(),
                i <= a.labels@.len(),
                j <= b.labels@.len(),
                strictly_sorted(out@),
                label_set(out@) == label_set(a.labels@.subrange(0, i as int)).union(
                    label_set(b.labels@.subrange(0, j as int)),
                ),
                out@.len() > 0 ==> (i < a.labels@.len() ==> bytes_lt(
                    out@.last().view_bytes(),
                    a.labels@[i as int].view_bytes(),
                )),
                out@.len() > 0 ==> (j < b.labels@.len() ==> bytes_lt(
                    out@.last().view_bytes(),
                    b.labels@[j as int].view_bytes(),
                )),
            decreases a.labels@.len() + b.labels@.len() - i - j,
        {
            let take_a: i8 = if i >= a.labels.len() {
                1
            } else if j >= b.labels.len() {
                -1
            } else {
                order_bytes(a.labels[i].as_str().as_bytes(), b.labels[j].as_str().as_bytes())
            };
            let ghost before = out@;
            let ghost i0 = i;
            let ghost j0 = j;
            proof {
                if take_a == -1 && j < b.labels@.len() {
                    assert(bytes_lt(a.labels@[i as int].view_bytes(), b.labels@[j as int].view_bytes()));
                }
                if take_a == 0 {
                    assert(a.labels@[i as int].view_bytes() == b.labels@[j as int].view_bytes());
                }
                if take_a == 1 && i < a.labels@.len() {
                    assert(bytes_lt(b.labels@[j as int].view_bytes(), a.labels@[i as int].view_bytes()));
                }
            }
            if take_a <= 0 {
                let x = a.labels[i].clone();
                assert(x == a.labels@[i0 as int]);
                out.push(x);
                assert(out@ == before.push(a.labels@[i0 as int]));
                i = i + 1;
                if take_a == 0 {
                    j = j + 1;
                }
            } else {
                let x = b.labels[j].clone();
                assert(x == b.labels@[j0 as int]);
                out.push(x);
                j = j + 1;
            }
            proof {
                lemma_union_step(a.labels@, b.labels@, before, out@, i0 as int, j0 as int, i as int, j as int);
            }
        }
        let tail = match &a.tail {
            Some(t) => Some(t.clone()),
            None => match &b.tail {
                Some(t) => Some(t.clone()),
                None => None,
            },
        };
        proof {
            assert(a.labels@.subrange(0, i as int) =~= a.labels@);
            assert(b.labels@.subrange(0, j as int) =~= b.labels@);
        }
        EffectRow { labels: out, tail }
    }
}

/// One step of the merge keeps the merged list sorted and its label set
/// the union of the prefixes consumed.
proof fn lemma_union_step(
    a: Seq<String>,
    b: Seq<String>,
    before: Seq<String>,
    after: Seq<String>,
    i0: int,
    j0: int,
    i: int,
    j: int,
)
    requires
        strictly_sorted(a),
        strictly_sorted(b),
        0 <= i0 <= i <= a.len(),
        0 <= j0 <= j <= b.len(),
        strictly_sorted(before),
        label_set(before) == label_set(a.subrange(0, i0)).union(label_set(b.subrange(0, j0))),
        before.len() > 0 ==> (i0 < a.len() ==> bytes_lt(before.last().view_bytes(), a[i0].view_bytes())),
        before.len() > 0 ==> (j0 < b.len() ==> bytes_lt(before.last().view_bytes(), b[j0].view_bytes())),
        (i == i0 + 1 && j == j0 && after == before.push(a[i0]) && (j0 < b.len() ==> bytes_lt(
            a[i0].view_bytes(),
            b[j0].view_bytes(),
        ))) || (i == i0 + 1 && j == j0 + 1 && after == before.push(a[i0]) && a[i0].view_bytes()
            == b[j0].view_bytes()) || (i == i0 && j == j0 + 1 && after == before.push(b[j0]) && (
        i0 < a.len() ==> bytes_lt(b[j0].view_bytes(), a[i0].view_bytes()))),
    ensures
        strictly_sorted(after),
        label_set(after) == label_set(a.subrange(0, i)).union(label_set(b.subrange(0, j))),
        after.len() > 0 ==> (i < a.len() ==> bytes_lt(after.last().view_bytes(), a[i].view_bytes())),
        after.len() > 0 ==> (j < b.len() ==> bytes_lt(after.last().view_bytes(), b[j].view_bytes())),
{
    let x = after.last();
    assert forall|p: int, q: int| 0 <= p < q < after.len() implies bytes_lt(
        (#[trigger] after[p]).view_bytes(),
        (#[trigger] after[q]).view_bytes(),
    ) by {
        if q == after.len() - 1 {
            if p < before.len() - 1 {
                assert(bytes_lt(before[p].view_bytes(), before.last().view_bytes()));
                lemma_lt_trans(before[p].view_bytes(), before.last().view_bytes(), x.view_bytes());
            }
        } else {
            assert(after[p] == before[p]);
            assert(after[q] == before[q]);
        }
    }
    if i < a.len() {
        if i == i0 + 1 {
            assert(bytes_lt(a[i0].view_bytes(), a[i].view_bytes()));
        } else {
            assert(i0 < a.len());
            assert(bytes_lt(b[j0].view_bytes(), a[i0].view_bytes()));
        }
    }
    if j < b.len() {
        if j == j0 + 1 {
            if i == i0 + 1 {
                assert(bytes_lt(b[j0].view_bytes(), b[j].view_bytes()));
            } else {
                assert(bytes_lt(b[j0].view_bytes(), b[j].view_bytes()));
            }
        } else {
            assert(bytes_lt(a[i0].view_bytes(), b[j0].view_bytes()));
        }
    }
    assert forall|s: Seq<u8>| label_set(after).contains(s) <==> (label_set(a.subrange(0, i)).union(
        label_set(b.subrange(0, j)),
    )).contains(s) by {
        if label_set(after).contains(s) {
            let k = choose|k: int| 0 <= k < after.len() && (#[trigger] after[k]).view_bytes() == s;
            if k < before.len() {
                assert(after[k] == before[k]);
                assert(label_set(before).contains(s));
                if label_set(a.subrange(0, i0)).contains(s) {
                    let m = choose|m: int| 0 <= m < i0 && (#[trigger] a.subrange(0, i0)[m]).view_bytes() == s;
                    assert(a.subrange(0, i)[m] == a.subrange(0, i0)[m]);
                } else {
                    let m = choose|m: int| 0 <= m < j0 && (#[trigger] b.subrange(0, j0)[m]).view_bytes() == s;
                    assert(b.subrange(0, j)[m] == b.subrange(0, j0)[m]);
                }
            } else if i == i0 + 1 {
                assert(a.subrange(0, i)[i0] == a[i0]);
            } else {
                assert(b.subrange(0, j)[j0] == b[j0]);
            }
        }
        if label_set(a.subrange(0, i)).contains(s) {
            let m = choose|m: int| 0 <= m < i && (#[trigger] a.subrange(0, i)[m]).view_bytes() == s;
            if m < i0 {
                assert(a.subrange(0, i0)[m] == a.subrange(0, i)[m]);
                assert(label_set(a.subrange(0, i0)).contains(s));
                assert(label_set(before).contains(s));
                let k = choose|k: int| 0 <= k < before.len() && (#[trigger] before[k]).view_bytes() == s;
                assert(after[k] == before[k]);
            } else {
                assert(after[after.len() - 1] == a[i0]);
            }
        }
        if label_set(b.subrange(0, j)).contains(s) {
            let m = choose|m: int| 0 <= m < j && (#[trigger] b.subrange(0, j)[m]).view_bytes() == s;
            if m < j0 {
                assert(b.subrange(0, j0)[m] == b.subrange(0, j)[m]);
                assert(label_set(b.subrange(0, j0)).contains(s));
                assert(label_set(before).contains(s));
                let k = choose|k: int| 0 <= k < before.len() && (#[trigger] before[k]).view_bytes() == s;
                assert(after[k] == before[k]);
            } else {
                assert(after[after.len() - 1] == a[i0] || after[after.len() - 1] == b[j0]);
            }
        }
    }
    assert(label_set(after) =~= label_set(a.subrange(0, i)).union(label_set(b.subrange(0, j))));
}

/// Why a handler could not answer an effect.
#[derive(Debug, Clone, PartialEq, Eq)]
pub enum HandlerError {
    HandlerFailed(String),
    NoHandler(String),
}

/// Some registered label equals `l`.
pub open spec fn registered_for(registered: Seq<String>, l: String) -> bool {
    exists|k: int| 0 <= k < registered.len() && (#[trigger] registered[k])@ == l@
}

/// The first label of `row` that has no handler among `registered`, as the
/// error startup validation reports; none when every label has one.
pub fn missing_handler(registered: &Vec<String>, row: &EffectRow) -> (r: Result<(), HandlerError>)
    ensures
        r is Ok <==> forall|i: int| 0 <= i < row.labels@.len() ==> registered_for(registered@, #[trigger] row.labels@[i]),
        r matches Err(e) ==> exists|i: int|
            0 <= i < row.labels@.len() && e == HandlerError::NoHandler(row.labels@[i]) && !registered_for(
                registered@,
                #[trigger] row.labels@[i],
            ) && forall|q: int| 0 <= q < i ==> registered_for(registered@, #[trigger] row.labels@[q]),
{
    let mut i: usize = 0;
    while i < row.labels.len()
        invariant
            i <= row.labels@.len(),
            forall|q: int| 0 <= q < i ==> registered_for(registered@, #[trigger] row.labels@[q]),
        decreases row.labels@.len() - i,
    {
        let mut found = false;
        let mut k: usize = 0;
        while k < registered.len()
            invariant
                k <= registered@.len(),
                i < row.labels@.len(),
                !found ==> forall|q: int| 0 <= q < k ==> (#[trigger] registered@[q])@ != row.labels@[i as int]@,
                found ==> registered_for(registered@, row.labels@[i as int]),
            decreases registered@.len() - k,
        {
            if !found && registered[k] == row.labels[i] {
                found = true;
            }
            k = k + 1;
        }
        if !found {
            let e = HandlerError::NoHandler(row.labels[i].clone());
            proof {
                assert(!registered_for(registered@, row.labels@[i as int]));
            }
            return Err(e);
        }
        i = i + 1;
    }
    Ok(())
}

/// The identity of an artifact: the hash of its canonical net and the
/// effects it needs.
#[derive(Debug, Clone, PartialEq, Eq)]
pub struct ArtifactId {
    pub net_hash: Blake3Hash,
    pub effect_row: EffectRow,
}

impl ArtifactId {
    /// A pure artifact.
    pub fn pure(net_hash: Blake3Hash) -> (r: ArtifactId)
        ensures
            r.net_hash == net_hash,
            r.effect_row.labels@.len() == 0,
            r.effect_row.tail is None,
    {
        ArtifactId { net_hash, effect_row: EffectRow::pure() }
    }
}

} // verus!
