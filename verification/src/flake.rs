//! The flake front end that reads a `flake.nix` without evaluating it: the
//! surface of the source as a small tree, the output paths and inputs read
//! off it, and the text it builds for the evaluator.
use vstd::prelude::*;
use crate::lock::{
    FlakeError, LockFile, LockStatus, chars_of, find_char, lemma_find_char_bounds, lemma_name_lt_irrefl, lemma_name_lt_total,
    lemma_name_lt_trans, name_less, name_lt,
};
use crate::text::push_char;
use rnix::ast::HasEntry;
use rowan::ast::AstNode;

verus! {

/// An ASCII letter.
pub open spec fn ascii_alpha(c: char) -> bool {
    ('a' <= c && c <= 'z') || ('A' <= c && c <= 'Z')
}

/// An ASCII letter or digit.
pub open spec fn ascii_alnum(c: char) -> bool {
    ascii_alpha(c) || ('0' <= c && c <= '9')
}

/// May start an attribute segment.
pub open spec fn seg_head(c: char) -> bool {
    ascii_alpha(c) || c == '_'
}

/// May follow the first character of an attribute segment.
pub open spec fn seg_tail(c: char) -> bool {
    ascii_alnum(c) || c == '_' || c == '\'' || c == '-'
}

/// A bare identifier segment: `[A-Za-z_][A-Za-z0-9_'-]*`.
pub open spec fn valid_segment(s: Seq<char>) -> bool {
    &&& s.len() > 0
    &&& seg_head(s[0])
    &&& forall|i: int| 1 <= i < s.len() ==> seg_tail(#[trigger] s[i])
}

/// `p` is a `.`-separated run of valid segments; `start`: at the start of a
/// segment.
pub open spec fn selector_ok(p: Seq<char>, start: bool) -> bool
    decreases p.len(),
{
    if p.len() == 0 {
        !start
    } else if p[0] == '.' {
        !start && selector_ok(p.drop_first(), true)
    } else if start {
        seg_head(p[0]) && selector_ok(p.drop_first(), false)
    } else {
        seg_tail(p[0]) && selector_ok(p.drop_first(), false)
    }
}

/// `p` with every `.` written as `"."`.
pub open spec fn quote_dots(p: Seq<char>) -> Seq<char>
    decreases p.len(),
{
    if p.len() == 0 {
        Seq::empty()
    } else {
        quote_dots(p.drop_last()) + if p.last() == '.' {
            seq!['"', '.', '"']
        } else {
            seq![p.last()]
        }
    }
}

/// The quoted selector of a dotted attribute path: each segment between
/// double quotes; `None` unless every segment is a bare identifier.
pub open spec fn spec_quoted_selector(p: Seq<char>) -> Option<Seq<char>> {
    if selector_ok(p, true) {
        Some(seq!['"'] + quote_dots(p) + seq!['"'])
    } else {
        None
    }
}

/// A character that changes meaning inside a double-quoted Nix string.
pub open spec fn nix_special(c: char) -> bool {
    c == '\\' || c == '"' || c == '$'
}

/// `s` with a backslash before every special character.
pub open spec fn escape_nix(s: Seq<char>) -> Seq<char>
    decreases s.len(),
{
    if s.len() == 0 {
        Seq::empty()
    } else {
        escape_nix(s.drop_last()) + if nix_special(s.last()) {
            seq!['\\', s.last()]
        } else {
            seq![s.last()]
        }
    }
}

/// May appear in a url scheme.
pub open spec fn scheme_char(c: char) -> bool {
    ascii_alnum(c) || c == '+' || c == '-' || c == '.'
}

/// A url is a local path unless it starts with a non-empty run of scheme
/// characters followed by `:`.
pub open spec fn spec_is_local_path(u: Seq<char>) -> bool {
    let k = find_char(u, 0, ':');
    k >= u.len() || k == 0 || exists|i: int| 0 <= i < k && !scheme_char(#[trigger] u[i])
}

fn is_ascii_alpha(c: char) -> (b: bool)
    ensures
        b == ascii_alpha(c),
{
    ('a' <= c && c <= 'z') || ('A' <= c && c <= 'Z')
}

fn is_ascii_alnum(c: char) -> (b: bool)
    ensures
        b == ascii_alnum(c),
{
    is_ascii_alpha(c) || ('0' <= c && c <= '9')
}

/// Whether `seg` is a bare identifier segment.
pub fn is_valid_attr_segment(seg: &str) -> (b: bool)
    ensures
        b == valid_segment(seg@),
{
    let cs = chars_of(seg);
    if cs.len() == 0 {
        return false;
    }
    if !(is_ascii_alpha(cs[0]) || cs[0] == '_') {
        return false;
    }
    let mut i: usize = 1;
    while i < cs.len()
        invariant
            1 <= i <= cs@.len(),
            cs@ == seg@,
            seg_head(seg@[0]),
            forall|k: int| 1 <= k < i ==> seg_tail(#[trigger] seg@[k]),
        decreases cs@.len() - i,
    {
        let c = cs[i];
        if !(is_ascii_alnum(c) || c == '_' || c == '\'' || c == '-') {
            return false;
        }
        i = i + 1;
    }
    true
}

/// The attribute path `path` as a quoted selector (`"a"."b"`), or `None`
/// when a segment is empty or not a bare identifier: no path text reaches
/// the evaluator as live syntax.
pub fn quoted_selector(path: &str) -> (r: Option<String>)
    ensures
        r matches Some(s) ==> spec_quoted_selector(path@) == Some(s@),
        r is None ==> spec_quoted_selector(path@) is None,
{
    let cs = chars_of(path);
    let mut out = String::new();
    push_char(&mut out, '"');
    let mut start = true;
    let mut i: usize = 0;
    proof {
        assert(path@.subrange(0, 0) =~= Seq::<char>::empty());
        assert(path@.subrange(0, path@.len() as int) =~= path@);
    }
    while i < cs.len()
        invariant
            i <= cs@.len(),
            cs@ == path@,
            out@ == seq!['"'] + quote_dots(path@.subrange(0, i as int)),
            selector_ok(path@, true) == selector_ok(path@.subrange(i as int, path@.len() as int), start),
        decreases cs@.len() - i,
    {
        let c = cs[i];
        let ghost rest = path@.subrange(i as int, path@.len() as int);
        proof {
            assert(rest[0] == c);
            assert(rest.drop_first() =~= path@.subrange(i + 1, path@.len() as int));
            assert(path@.subrange(0, i + 1).drop_last() =~= path@.subrange(0, i as int));
        }
        if c == '.' {
            if start {
                return None;
            }
            push_char(&mut out, '"');
            push_char(&mut out, '.');
            push_char(&mut out, '"');
            start = true;
        } else if start {
            if !(is_ascii_alpha(c) || c == '_') {
                return None;
            }
            push_char(&mut out, c);
            start = false;
        } else {
            if !(is_ascii_alnum(c) || c == '_' || c == '\'' || c == '-') {
                return None;
            }
            push_char(&mut out, c);
        }
        proof {
            let q = path@.subrange(0, i + 1);
            assert(q.last() == c);
            if c == '.' {
                assert(out@ =~= seq!['"'] + quote_dots(q));
            } else {
                assert(out@ =~= seq!['"'] + quote_dots(q));
            }
        }
        i = i + 1;
    }
    if start {
        return None;
    }
    push_char(&mut out, '"');
    proof {
        assert(path@.subrange(i as int, path@.len() as int) =~= Seq::<char>::empty());
    }
    Some(out)
}

/// `s` escaped for a double-quoted Nix string.
pub fn escape_nix_string(s: &str) -> (r: String)
    ensures
        r@ == escape_nix(s@),
{
    let cs = chars_of(s);
    let mut out = String::new();
    let mut i: usize = 0;
    proof {
        assert(s@.subrange(0, 0) =~= Seq::<char>::empty());
    }
    while i < cs.len()
        invariant
            i <= cs@.len(),
            cs@ == s@,
            out@ == escape_nix(s@.subrange(0, i as int)),
        decreases cs@.len() - i,
    {
        let c = cs[i];
        if c == '\\' || c == '"' || c == '$' {
            push_char(&mut out, '\\');
        }
        push_char(&mut out, c);
        proof {
            let q = s@.subrange(0, i + 1);
            assert(q.drop_last() =~= s@.subrange(0, i as int));
            assert(q.last() == c);
            assert(out@ =~= escape_nix(q));
        }
        i = i + 1;
    }
    proof {
        assert(s@.subrange(0, s@.len() as int) =~= s@);
    }
    out
}

/// Whether `url` is a local path: no leading `scheme:`.
pub fn is_local_path(url: &str) -> (b: bool)
    ensures
        b == spec_is_local_path(url@),
{
    let cs = chars_of(url);
    let mut k: usize = 0;
    while k < cs.len() && cs[k] != ':'
        invariant
            k <= cs@.len(),
            cs@ == url@,
            forall|j: int| 0 <= j < k ==> url@[j] != ':',
        decreases cs@.len() - k,
    {
        k = k + 1;
    }
    proof {
        lemma_find_char_bounds(url@, 0, ':');
        let f = find_char(url@, 0, ':');
        if f < k {
            assert(url@[f] == ':');
        }
        if k < url@.len() && k < f {
            assert(url@[k as int] == ':');
        }
        assert(f == k);
    }
    if k == cs.len() || k == 0 {
        return true;
    }
    let mut i: usize = 0;
    while i < k
        invariant
            i <= k < cs@.len(),
            cs@ == url@,
            k == find_char(url@, 0, ':'),
            k > 0,
            forall|j: int| 0 <= j < i ==> scheme_char(#[trigger] url@[j]),
        decreases k - i,
    {
        let c = cs[i];
        if !(is_ascii_alnum(c) || c == '+' || c == '-' || c == '.') {
            assert(!scheme_char(url@[i as int]));
            return true;
        }
        i = i + 1;
    }
    false
}

/// A part of a string literal.
#[derive(Debug, Clone, PartialEq, Eq)]
pub enum StrPart {
    /// Literal text.
    Literal(String),
    /// A `${...}` interpolation.
    Interpolation,
}

/// The surface of a Nix expression, as far as the front end reads it
/// without evaluating.
#[derive(Debug, PartialEq, Eq)]
pub enum SurfaceExpr {
    /// An attribute set; its entries are `Binding`s and `Inherit`s.
    AttrSet(Vec<SurfaceExpr>),
    /// `path = value;`: the path's segments (`None`: a segment is dynamic)
    /// and the value (`None`: missing).
    Binding(Option<Vec<String>>, Option<Box<SurfaceExpr>>),
    /// An `inherit` entry.
    Inherit,
    /// A function; its body (`None`: missing).
    Lambda(Option<Box<SurfaceExpr>>),
    /// A string literal.
    Str(Vec<StrPart>),
    /// Any other expression.
    Other,
}

/// The two kinds of front-end failure.
#[derive(Debug, Clone, Copy, PartialEq, Eq)]
pub enum FrontFault {
    /// The source has a shape that cannot be read statically.
    Parse,
    /// The source is not a flake of the supported shape.
    NotAFlake,
}

/// `e` is an error of kind `f`.
pub open spec fn is_fault(e: FlakeError, f: FrontFault) -> bool {
    match f {
        FrontFault::Parse => e is Parse,
        FrontFault::NotAFlake => e is NotAFlake,
    }
}

pub open spec fn seg_views(segs: Seq<String>) -> Seq<Seq<char>> {
    segs.map_values(|s: String| s@)
}

/// The segments joined by `.`.
pub open spec fn join_dots(segs: Seq<Seq<char>>) -> Seq<char>
    decreases segs.len(),
{
    if segs.len() == 0 {
        Seq::empty()
    } else if segs.len() == 1 {
        segs[0]
    } else {
        join_dots(segs.drop_last()) + seq!['.'] + segs.last()
    }
}

/// `e` binds exactly the one-segment path `key`.
pub open spec fn binds_key(e: SurfaceExpr, key: Seq<char>) -> bool {
    match e {
        SurfaceExpr::Binding(Some(segs), _) => segs@.len() == 1 && segs@[0]@ == key,
        _ => false,
    }
}

/// The value of the first entry from `i` on that binds `key` (`None` when
/// there is none, or when that entry has no value).
pub open spec fn spec_find_entry(es: Seq<SurfaceExpr>, key: Seq<char>, i: int) -> Option<SurfaceExpr>
    decreases es.len() - i,
{
    if i < 0 || i >= es.len() {
        None
    } else if binds_key(es[i], key) {
        match es[i] {
            SurfaceExpr::Binding(_, Some(v)) => Some(*v),
            _ => None,
        }
    } else {
        spec_find_entry(es, key, i + 1)
    }
}

/// The output paths under a value reached by the path `prefix`: an
/// attribute set contributes the paths of its entries, anything else the
/// path itself. `None`: an entry with a dynamic key, without a value, or an
/// `inherit`.
pub open spec fn value_paths(e: SurfaceExpr, prefix: Seq<Seq<char>>) -> Option<Seq<Seq<char>>>
    decreases e,
{
    match e {
        SurfaceExpr::AttrSet(es) => entry_paths(es@, prefix),
        _ => Some(seq![join_dots(prefix)]),
    }
}

/// The output paths of a run of entries, in order.
pub open spec fn entry_paths(es: Seq<SurfaceExpr>, prefix: Seq<Seq<char>>) -> Option<Seq<Seq<char>>>
    decreases es,
{
    if es.len() == 0 {
        Some(Seq::empty())
    } else {
        match entry_paths(es.drop_last(), prefix) {
            None => None,
            Some(ps) => match es.last() {
                SurfaceExpr::Binding(Some(segs), Some(v)) => match value_paths(
                    *v,
                    prefix + seg_views(segs@),
                ) {
                    Some(qs) => Some(ps + qs),
                    None => None,
                },
                _ => None,
            },
        }
    }
}

/// Whether two strings hold the same text.
pub(crate) fn same_text(a: &str, b: &str) -> (r: bool)
    ensures
        r == (a@ == b@),
{
    let x = chars_of(a);
    let y = chars_of(b);
    if x.len() != y.len() {
        return false;
    }
    let mut i: usize = 0;
    while i < x.len()
        invariant
            i <= x@.len(),
            x@.len() == y@.len(),
            x@ == a@,
            y@ == b@,
            forall|k: int| 0 <= k < i ==> x@[k] == y@[k],
        decreases x@.len() - i,
    {
        if x[i] != y[i] {
            return false;
        }
        i = i + 1;
    }
    proof {
        assert(a@ =~= b@);
    }
    true
}

/// The value bound to `key` by the first of `es` that binds it.
fn find_entry<'a>(es: &'a Vec<SurfaceExpr>, key: &str) -> (r: Option<&'a SurfaceExpr>)
    ensures
        r matches Some(v) ==> spec_find_entry(es@, key@, 0) == Some(*v),
        r is None ==> spec_find_entry(es@, key@, 0) is None,
{
    let mut i: usize = 0;
    while i < es.len()
        invariant
            i <= es@.len(),
            spec_find_entry(es@, key@, 0) == spec_find_entry(es@, key@, i as int),
        decreases es@.len() - i,
    {
        match &es[i] {
            SurfaceExpr::Binding(Some(segs), v) => {
                if segs.len() == 1 && same_text(segs[0].as_str(), key) {
                    return match v {
                        Some(b) => Some(&**b),
                        None => None,
                    };
                }
            },
            _ => {},
        }
        i = i + 1;
    }
    None
}

/// The segments joined by `.`.
fn join_path(segs: &Vec<String>) -> (r: String)
    ensures
        r@ == join_dots(seg_views(segs@)),
{
    let mut out = String::new();
    let mut i: usize = 0;
    proof {
        assert(seg_views(segs@.subrange(0, 0)) =~= Seq::<Seq<char>>::empty());
    }
    while i < segs.len()
        invariant
            i <= segs@.len(),
            out@ == join_dots(seg_views(segs@.subrange(0, i as int))),
        decreases segs@.len() - i,
    {
        if i > 0 {
            push_char(&mut out, '.');
        }
        crate::lock::push_text(&mut out, segs[i].as_str());
        proof {
            let q = seg_views(segs@.subrange(0, i + 1));
            assert(q.drop_last() =~= seg_views(segs@.subrange(0, i as int)));
            assert(q.last() == segs@[i as int]@);
            if i == 0 {
                assert(out@ =~= join_dots(q));
            } else {
                assert(out@ =~= join_dots(q));
            }
        }
        i = i + 1;
    }
    proof {
        assert(segs@.subrange(0, segs@.len() as int) =~= segs@);
    }
    out
}

proof fn lemma_seg_views_push(a: Seq<String>, b: Seq<String>)
    ensures
        seg_views(a + b) == seg_views(a) + seg_views(b),
{
    assert(seg_views(a + b) =~= seg_views(a) + seg_views(b));
}

/// Once a prefix of the entries fails, all of them do.
proof fn lemma_entry_paths_none(es: Seq<SurfaceExpr>, k: int, prefix: Seq<Seq<char>>)
    requires
        0 <= k <= es.len(),
        entry_paths(es.subrange(0, k), prefix) is None,
    ensures
        entry_paths(es, prefix) is None,
    decreases es.len(),
{
    if es.len() == k {
        assert(es.subrange(0, k) =~= es);
    } else {
        assert(es.drop_last().subrange(0, k) =~= es.subrange(0, k));
        lemma_entry_paths_none(es.drop_last(), k, prefix);
    }
}

/// Append the output paths under `e`, reached by `prefix`, to `out`.
fn collect_paths(e: &SurfaceExpr, prefix: &mut Vec<String>, out: &mut Vec<String>) -> (r: Result<(), FlakeError>)
    ensures
        final(prefix)@ == old(prefix)@,
        value_paths(*e, seg_views(old(prefix)@)) matches Some(qs) ==> r is Ok && seg_views(final(out)@)
            == seg_views(old(out)@) + qs,
        value_paths(*e, seg_views(old(prefix)@)) is None ==> r matches Err(FlakeError::Parse(_)),
    decreases e,
{
    match e {
        SurfaceExpr::AttrSet(es) => {
            let ghost pv = seg_views(prefix@);
            let ghost out0 = seg_views(out@);
            let mut i: usize = 0;
            proof {
                assert(es@.subrange(0, 0) =~= Seq::<SurfaceExpr>::empty());
                assert(out0 + Seq::<Seq<char>>::empty() =~= out0);
            }
            while i < es.len()
                invariant
                    i <= es@.len(),
                    prefix@ == old(prefix)@,
                    pv == seg_views(prefix@),
                    out0 == seg_views(old(out)@),
                    *e == SurfaceExpr::AttrSet(*es),
                    entry_paths(es@.subrange(0, i as int), pv) matches Some(ps) && seg_views(out@)
                        == out0 + ps,
                decreases es@.len() - i,
            {
                let ghost sub = es@.subrange(0, i + 1);
                proof {
                    assert(sub.drop_last() =~= es@.subrange(0, i as int));
                    assert(sub.last() == es@[i as int]);
                }
                match &es[i] {
                    SurfaceExpr::Binding(Some(segs), Some(v)) => {
                        let depth = prefix.len();
                        let mut j: usize = 0;
                        while j < segs.len()
                            invariant
                                j <= segs@.len(),
                                prefix@ == old(prefix)@ + segs@.subrange(0, j as int),
                                depth == old(prefix)@.len(),
                            decreases segs@.len() - j,
                        {
                            prefix.push(segs[j].clone());
                            proof {
                                assert(old(prefix)@ + segs@.subrange(0, j + 1) =~= (old(prefix)@ + segs@.subrange(0, j as int)).push(segs@[j as int]));
                            }
                            j = j + 1;
                        }
                        proof {
                            assert(segs@.subrange(0, segs@.len() as int) =~= segs@);
                            lemma_seg_views_push(old(prefix)@, segs@);
                            assert(decreases_to!(*e => es@[i as int]));
                        }
                        let ghost before = seg_views(out@);
                        let res = collect_paths(&**v, prefix, out);
                        prefix.truncate(depth);
                        proof {
                            assert(prefix@ =~= old(prefix)@);
                        }
                        match res {
                            Ok(()) => {
                                proof {
                                    let ps = entry_paths(es@.subrange(0, i as int), pv)->0;
                                    let qs = value_paths(**v, pv + seg_views(segs@))->0;
                                    assert(entry_paths(sub, pv) == Some(ps + qs));
                                    assert(seg_views(out@) =~= out0 + (ps + qs));
                                }
                            },
                            Err(err) => {
                                proof {
                                    assert(entry_paths(sub, pv) is None);
                                    lemma_entry_paths_none(es@, i + 1, pv);
                                }
                                return Err(err);
                            },
                        }
                    },
                    _ => {
                        proof {
                            assert(entry_paths(sub, pv) is None);
                            lemma_entry_paths_none(es@, i + 1, pv);
                        }
                        return Err(FlakeError::Parse(String::from_str("unreadable entry in outputs")));
                    },
                }
                i = i + 1;
            }
            proof {
                assert(es@.subrange(0, es@.len() as int) =~= es@);
            }
            Ok(())
        },
        _ => {
            let p = join_path(prefix);
            let ghost before = out@;
            out.push(p);
            proof {
                assert(seg_views(out@) =~= seg_views(before) + seq![join_dots(seg_views(prefix@))]);
            }
            Ok(())
        },
    }
}

/// Strictly ascending by name: sorted with no name twice.
pub open spec fn strictly_sorted(q: Seq<Seq<char>>) -> bool {
    forall|i: int, j: int| 0 <= i < j < q.len() ==> name_lt(#[trigger] q[i], #[trigger] q[j])
}

/// Put `s` into the strictly sorted `v`, unless it is there already.
fn insert_unique(v: &mut Vec<String>, s: String)
    requires
        strictly_sorted(seg_views(old(v)@)),
    ensures
        strictly_sorted(seg_views(final(v)@)),
        seg_views(final(v)@).to_set() == seg_views(old(v)@).to_set().insert(s@),
{
    let ghost ov = seg_views(v@);
    let mut k: usize = 0;
    while k < v.len() && name_less(&v[k], &s)
        invariant
            k <= v@.len(),
            v@ == old(v)@,
            ov == seg_views(v@),
            forall|i: int| 0 <= i < k ==> name_lt(#[trigger] ov[i], s@),
        decreases v@.len() - k,
    {
        k = k + 1;
    }
    if k < v.len() && same_text(v[k].as_str(), s.as_str()) {
        proof {
            assert(ov[k as int] == s@);
            assert(ov.to_set().insert(s@) =~= ov.to_set()) by {
                assert(ov.to_set().contains(ov[k as int]));
            }
        }
        return;
    }
    let ghost sv = s@;
    v.insert(k, s);
    proof {
        let nv = seg_views(v@);
        assert(nv =~= ov.insert(k as int, sv));
        if k < ov.len() {
            lemma_name_lt_total(sv, ov[k as int]);
        }
        assert forall|i: int, j: int| 0 <= i < j < nv.len() implies name_lt(#[trigger] nv[i], #[trigger] nv[j]) by {
            if j < k {
                assert(nv[i] == ov[i] && nv[j] == ov[j]);
            } else if j == k {
                assert(nv[i] == ov[i]);
            } else if i == k {
                assert(nv[j] == ov[j - 1]);
                if j - 1 > k {
                    lemma_name_lt_trans(sv, ov[k as int], ov[j - 1]);
                }
            } else if i < k {
                assert(nv[i] == ov[i] && nv[j] == ov[j - 1]);
                if j - 1 >= k {
                    assert(name_lt(ov[i], sv));
                    lemma_name_lt_trans(ov[i], sv, ov[k as int]);
                    if j - 1 > k {
                        lemma_name_lt_trans(ov[i], ov[k as int], ov[j - 1]);
                    }
                }
            } else {
                assert(nv[i] == ov[i - 1] && nv[j] == ov[j - 1]);
            }
        }
        assert forall|x: Seq<char>| nv.to_set().contains(x) <==> ov.to_set().insert(sv).contains(x) by {
            if nv.to_set().contains(x) {
                let i = choose|i: int| 0 <= i < nv.len() && nv[i] == x;
                if i < k {
                    assert(ov[i] == x);
                } else if i > k {
                    assert(ov[i - 1] == x);
                }
            }
            if ov.to_set().contains(x) {
                let i = choose|i: int| 0 <= i < ov.len() && ov[i] == x;
                if i < k {
                    assert(nv[i] == x);
                } else {
                    assert(nv[i + 1] == x);
                }
            }
            if x == sv {
                assert(nv[k as int] == x);
            }
        }
        assert(nv.to_set() =~= ov.to_set().insert(sv));
    }
}

/// `ps` sorted with each path once.
fn sort_unique(ps: &Vec<String>) -> (r: Vec<String>)
    ensures
        strictly_sorted(seg_views(r@)),
        seg_views(r@).to_set() == seg_views(ps@).to_set(),
{
    let mut r: Vec<String> = Vec::new();
    let mut i: usize = 0;
    proof {
        assert(seg_views(ps@.subrange(0, 0)).to_set() =~= Set::<Seq<char>>::empty());
        assert(seg_views(r@).to_set() =~= Set::<Seq<char>>::empty());
    }
    while i < ps.len()
        invariant
            i <= ps@.len(),
            strictly_sorted(seg_views(r@)),
            seg_views(r@).to_set() == seg_views(ps@.subrange(0, i as int)).to_set(),
        decreases ps@.len() - i,
    {
        insert_unique(&mut r, ps[i].clone());
        proof {
            let a = seg_views(ps@.subrange(0, i as int));
            let b = seg_views(ps@.subrange(0, i + 1));
            assert(b =~= a.push(ps@[i as int]@));
            vstd::seq_lib::seq_to_set_distributes_over_add(a, seq![ps@[i as int]@]);
            assert(a.push(ps@[i as int]@) =~= a + seq![ps@[i as int]@]);
            assert(seq![ps@[i as int]@].to_set() =~= set![ps@[i as int]@]) by {
                assert(seq![ps@[i as int]@][0] == ps@[i as int]@);
            }
            assert(b.to_set() =~= a.to_set().insert(ps@[i as int]@));
        }
        i = i + 1;
    }
    proof {
        assert(ps@.subrange(0, ps@.len() as int) =~= ps@);
    }
    r
}

/// The text of string parts; `None` when one is an interpolation.
pub open spec fn parts_text(ps: Seq<StrPart>) -> Option<Seq<char>>
    decreases ps.len(),
{
    if ps.len() == 0 {
        Some(Seq::empty())
    } else {
        match parts_text(ps.drop_last()) {
            None => None,
            Some(t) => match ps.last() {
                StrPart::Literal(l) => Some(t + l@),
                StrPart::Interpolation => None,
            },
        }
    }
}

/// The text of a string literal; `Ok(None)` when `e` is no string, a
/// `Parse` fault when it interpolates.
pub open spec fn spec_string_literal(e: SurfaceExpr) -> Result<Option<Seq<char>>, FrontFault> {
    match e {
        SurfaceExpr::Str(ps) => match parts_text(ps@) {
            Some(t) => Ok(Some(t)),
            None => Err(FrontFault::Parse),
        },
        _ => Ok(None),
    }
}

/// One `name = value;` field of a flat attribute set.
pub open spec fn field_of(e: SurfaceExpr) -> Result<(Seq<char>, SurfaceExpr), FrontFault> {
    match e {
        SurfaceExpr::Binding(Some(segs), v) => if segs@.len() != 1 {
            Err(FrontFault::NotAFlake)
        } else {
            match v {
                Some(b) => Ok((segs@[0]@, *b)),
                None => Err(FrontFault::Parse),
            }
        },
        SurfaceExpr::Binding(None, _) => Err(FrontFault::Parse),
        _ => Err(FrontFault::Parse),
    }
}

/// The fields of a flat attribute set, in order; the fault of the first
/// entry that is no such field.
pub open spec fn spec_fields(es: Seq<SurfaceExpr>) -> Result<Seq<(Seq<char>, SurfaceExpr)>, FrontFault>
    decreases es.len(),
{
    if es.len() == 0 {
        Ok(Seq::empty())
    } else {
        match spec_fields(es.drop_last()) {
            Err(f) => Err(f),
            Ok(fs) => match field_of(es.last()) {
                Err(f) => Err(f),
                Ok(x) => Ok(fs.push(x)),
            },
        }
    }
}

fn string_literal(e: &SurfaceExpr) -> (r: Result<Option<String>, FlakeError>)
    ensures
        match spec_string_literal(*e) {
            Ok(None) => r matches Ok(None),
            Ok(Some(t)) => r matches Ok(Some(s)) && s@ == t,
            Err(f) => r matches Err(x) && is_fault(x, f),
        },
{
    match e {
        SurfaceExpr::Str(ps) => {
            let mut out = String::new();
            let mut i: usize = 0;
            proof {
                assert(ps@.subrange(0, 0) =~= Seq::<StrPart>::empty());
            }
            while i < ps.len()
                invariant
                    i <= ps@.len(),
                    *e == SurfaceExpr::Str(*ps),
                    parts_text(ps@.subrange(0, i as int)) == Some(out@),
                decreases ps@.len() - i,
            {
                let ghost q = ps@.subrange(0, i + 1);
                proof {
                    assert(q.drop_last() =~= ps@.subrange(0, i as int));
                }
                match &ps[i] {
                    StrPart::Literal(l) => {
                        crate::lock::push_text(&mut out, l.as_str());
                    },
                    StrPart::Interpolation => {
                        proof {
                            assert(parts_text(q) is None);
                            lemma_parts_none(ps@, i + 1);
                        }
                        return Err(FlakeError::Parse(String::from_str("dynamic (`${...}`) string")));
                    },
                }
                i = i + 1;
            }
            proof {
                assert(ps@.subrange(0, ps@.len() as int) =~= ps@);
            }
            Ok(Some(out))
        },
        _ => Ok(None),
    }
}

proof fn lemma_parts_none(ps: Seq<StrPart>, k: int)
    requires
        0 <= k <= ps.len(),
        parts_text(ps.subrange(0, k)) is None,
    ensures
        parts_text(ps) is None,
    decreases ps.len(),
{
    if ps.len() == k {
        assert(ps.subrange(0, k) =~= ps);
    } else {
        assert(ps.drop_last().subrange(0, k) =~= ps.subrange(0, k));
        lemma_parts_none(ps.drop_last(), k);
    }
}

proof fn lemma_fields_err(es: Seq<SurfaceExpr>, k: int)
    requires
        0 <= k <= es.len(),
        spec_fields(es.subrange(0, k)) is Err,
    ensures
        spec_fields(es) == spec_fields(es.subrange(0, k)),
    decreases es.len(),
{
    if es.len() == k {
        assert(es.subrange(0, k) =~= es);
    } else {
        assert(es.drop_last().subrange(0, k) =~= es.subrange(0, k));
        lemma_fields_err(es.drop_last(), k);
    }
}

/// The fields of a flat attribute set, each name with its value.
fn attrset_fields<'a>(es: &'a Vec<SurfaceExpr>) -> (r: Result<Vec<(String, &'a SurfaceExpr)>, FlakeError>)
    ensures
        match spec_fields(es@) {
            Ok(fs) => r matches Ok(v) && v@.len() == fs.len() && forall|i: int|
                0 <= i < fs.len() ==> (#[trigger] v@[i]).0@ == fs[i].0 && *v@[i].1 == fs[i].1,
            Err(f) => r matches Err(x) && is_fault(x, f),
        },
{
    let mut v: Vec<(String, &'a SurfaceExpr)> = Vec::new();
    let mut i: usize = 0;
    proof {
        assert(es@.subrange(0, 0) =~= Seq::<SurfaceExpr>::empty());
    }
    while i < es.len()
        invariant
            i <= es@.len(),
            spec_fields(es@.subrange(0, i as int)) matches Ok(fs) && v@.len() == fs.len() && forall|k: int|
                0 <= k < fs.len() ==> (#[trigger] v@[k]).0@ == fs[k].0 && *v@[k].1 == fs[k].1,
        decreases es@.len() - i,
    {
        let ghost q = es@.subrange(0, i + 1);
        proof {
            assert(q.drop_last() =~= es@.subrange(0, i as int));
            assert(q.last() == es@[i as int]);
        }
        match &es[i] {
            SurfaceExpr::Binding(Some(segs), val) => {
                if segs.len() != 1 {
                    proof {
                        lemma_fields_err(es@, i + 1);
                    }
                    return Err(FlakeError::NotAFlake(String::from_str("multi-segment attrpath")));
                }
                match val {
                    Some(b) => {
                        v.push((segs[0].clone(), &**b));
                    },
                    None => {
                        proof {
                            lemma_fields_err(es@, i + 1);
                        }
                        return Err(FlakeError::Parse(String::from_str("attr without value")));
                    },
                }
            },
            _ => {
                proof {
                    lemma_fields_err(es@, i + 1);
                }
                return Err(FlakeError::Parse(String::from_str("dynamic key or inherit")));
            },
        }
        i = i + 1;
    }
    proof {
        assert(es@.subrange(0, es@.len() as int) =~= es@);
    }
    Ok(v)
}

/// The value of the first field named `key` from `i` on.
pub open spec fn first_field(fs: Seq<(Seq<char>, SurfaceExpr)>, key: Seq<char>, i: int) -> Option<SurfaceExpr>
    decreases fs.len() - i,
{
    if i < 0 || i >= fs.len() {
        None
    } else if fs[i].0 == key {
        Some(fs[i].1)
    } else {
        first_field(fs, key, i + 1)
    }
}

/// The url of one input: the input is an attribute set whose first `url`
/// field is a string literal naming a local path.
pub open spec fn spec_input_url(v: SurfaceExpr) -> Result<Seq<char>, FrontFault> {
    match v {
        SurfaceExpr::AttrSet(es) => match spec_fields(es@) {
            Err(f) => Err(f),
            Ok(fs) => match first_field(fs, "url"@, 0) {
                None => Err(FrontFault::NotAFlake),
                Some(u) => match spec_string_literal(u) {
                    Err(f) => Err(f),
                    Ok(None) => Err(FrontFault::NotAFlake),
                    Ok(Some(t)) => if spec_is_local_path(t) {
                        Ok(t)
                    } else {
                        Err(FrontFault::NotAFlake)
                    },
                },
            },
        },
        _ => Err(FrontFault::NotAFlake),
    }
}

/// Each field's name with its url, in order; the fault of the first input
/// without a readable url.
pub open spec fn spec_urls(fs: Seq<(Seq<char>, SurfaceExpr)>) -> Result<Seq<(Seq<char>, Seq<char>)>, FrontFault>
    decreases fs.len(),
{
    if fs.len() == 0 {
        Ok(Seq::empty())
    } else {
        match spec_urls(fs.drop_last()) {
            Err(f) => Err(f),
            Ok(us) => match spec_input_url(fs.last().1) {
                Err(f) => Err(f),
                Ok(u) => Ok(us.push((fs.last().0, u))),
            },
        }
    }
}

/// The declared inputs of a flake's top-level entries, in source order.
pub open spec fn spec_inputs(top: Seq<SurfaceExpr>) -> Result<Seq<(Seq<char>, Seq<char>)>, FrontFault> {
    match spec_find_entry(top, "inputs"@, 0) {
        None => Ok(Seq::empty()),
        Some(SurfaceExpr::AttrSet(es)) => match spec_fields(es@) {
            Err(f) => Err(f),
            Ok(fs) => spec_urls(fs),
        },
        Some(_) => Err(FrontFault::NotAFlake),
    }
}

/// The output paths of a flake's top-level entries: those under the body
/// of its `outputs` function.
pub open spec fn spec_show(top: Seq<SurfaceExpr>) -> Result<Seq<Seq<char>>, FrontFault> {
    match spec_find_entry(top, "outputs"@, 0) {
        Some(SurfaceExpr::Lambda(Some(b))) => match value_paths(*b, Seq::empty()) {
            Some(ps) => Ok(ps),
            None => Err(FrontFault::Parse),
        },
        _ => Err(FrontFault::NotAFlake),
    }
}

/// The declared description of a flake's top-level entries.
pub open spec fn spec_description(top: Seq<SurfaceExpr>) -> Result<Option<Seq<char>>, FrontFault> {
    match spec_find_entry(top, "description"@, 0) {
        None => Ok(None),
        Some(v) => match spec_string_literal(v) {
            Err(f) => Err(f),
            Ok(None) => Err(FrontFault::NotAFlake),
            Ok(Some(t)) => Ok(Some(t)),
        },
    }
}

/// Sorted by name, equal names in any order.
pub open spec fn sorted_names(q: Seq<(Seq<char>, Seq<char>)>) -> bool {
    forall|i: int, j: int| 0 <= i < j < q.len() ==> !name_lt((#[trigger] q[j]).0, (#[trigger] q[i]).0)
}

/// The url of one input.
fn input_url(v: &SurfaceExpr) -> (r: Result<String, FlakeError>)
    ensures
        match spec_input_url(*v) {
            Ok(t) => r matches Ok(s) && s@ == t,
            Err(f) => r matches Err(x) && is_fault(x, f),
        },
{
    let es = match v {
        SurfaceExpr::AttrSet(es) => es,
        _ => {
            return Err(FlakeError::NotAFlake(String::from_str("input is not an attribute set")));
        },
    };
    let fs = match attrset_fields(es) {
        Ok(fs) => fs,
        Err(e) => {
            return Err(e);
        },
    };
    let ghost sfs = spec_fields(es@)->Ok_0;
    let mut i: usize = 0;
    let mut found: Option<&SurfaceExpr> = None;
    while i < fs.len() && found.is_none()
        invariant
            i <= fs@.len(),
            fs@.len() == sfs.len(),
            forall|k: int| 0 <= k < sfs.len() ==> (#[trigger] fs@[k]).0@ == sfs[k].0 && *fs@[k].1 == sfs[k].1,
            found is None ==> first_field(sfs, "url"@, 0) == first_field(sfs, "url"@, i as int),
            found matches Some(u) ==> first_field(sfs, "url"@, 0) == Some(*u),
        decreases fs@.len() - i,
    {
        if same_text(fs[i].0.as_str(), "url") {
            found = Some(fs[i].1);
        }
        i = i + 1;
    }
    let u = match found {
        Some(u) => u,
        None => {
            return Err(FlakeError::NotAFlake(String::from_str("input has no `url`")));
        },
    };
    let t = match string_literal(u) {
        Ok(Some(t)) => t,
        Ok(None) => {
            return Err(FlakeError::NotAFlake(String::from_str("input url is not a string")));
        },
        Err(e) => {
            return Err(e);
        },
    };
    if is_local_path(t.as_str()) {
        Ok(t)
    } else {
        Err(FlakeError::NotAFlake(String::from_str("input url is not a local path")))
    }
}

/// One declared input: a name bound to a local-path url.
#[derive(Debug, Clone, PartialEq, Eq)]
pub struct FlakeInput {
    name: String,
    url: String,
}

impl View for FlakeInput {
    type V = (Seq<char>, Seq<char>);

    closed spec fn view(&self) -> (Seq<char>, Seq<char>) {
        (self.name@, self.url@)
    }
}

impl FlakeInput {
    /// The input's binding name.
    pub fn name(&self) -> (r: &str)
        ensures
            r@ == self@.0,
    {
        self.name.as_str()
    }

    /// The input's local-path url, verbatim from the source.
    pub fn url(&self) -> (r: &str)
        ensures
            r@ == self@.1,
    {
        self.url.as_str()
    }
}

/// The declared inputs of a flake, sorted by name.
#[derive(Debug, Clone, PartialEq, Eq)]
pub struct FlakeInputs {
    entries: Vec<FlakeInput>,
}

pub open spec fn input_views(v: Seq<FlakeInput>) -> Seq<(Seq<char>, Seq<char>)> {
    v.map_values(|e: FlakeInput| e@)
}

impl View for FlakeInputs {
    type V = Seq<(Seq<char>, Seq<char>)>;

    closed spec fn view(&self) -> Seq<(Seq<char>, Seq<char>)> {
        input_views(self.entries@)
    }
}

impl Default for FlakeInputs {
    fn default() -> (r: FlakeInputs)
        ensures
            r@ == Seq::<(Seq<char>, Seq<char>)>::empty(),
    {
        let r = FlakeInputs { entries: Vec::new() };
        proof {
            assert(r@ =~= Seq::<(Seq<char>, Seq<char>)>::empty());
        }
        r
    }
}

impl FlakeInputs {
    /// The declared inputs, sorted by name.
    pub fn entries(&self) -> (r: &[FlakeInput])
        ensures
            input_views(r@) == self@,
    {
        self.entries.as_slice()
    }
}

/// The enumerated output attribute paths of a flake, sorted.
#[derive(Debug, PartialEq, Eq)]
pub struct FlakeOutputs {
    paths: Vec<String>,
}

impl View for FlakeOutputs {
    type V = Seq<Seq<char>>;

    closed spec fn view(&self) -> Seq<Seq<char>> {
        seg_views(self.paths@)
    }
}

impl FlakeOutputs {
    /// The fully qualified output paths, sorted.
    pub fn paths(&self) -> (r: &[String])
        ensures
            seg_views(r@) == self@,
    {
        self.paths.as_slice()
    }
}

/// Put `x` after every input whose name does not sort after its name.
fn insert_by_name(out: &mut Vec<FlakeInput>, x: FlakeInput)
    requires
        sorted_names(input_views(old(out)@)),
    ensures
        sorted_names(input_views(final(out)@)),
        input_views(final(out)@).to_multiset() == input_views(old(out)@).to_multiset().insert(x@),
{
    let ghost ov = input_views(out@);
    let mut k: usize = 0;
    while k < out.len() && !name_less(&x.name, &out[k].name)
        invariant
            k <= out@.len(),
            out@ == old(out)@,
            ov == input_views(out@),
            forall|i: int| 0 <= i < k ==> !name_lt(x@.0, (#[trigger] ov[i]).0),
        decreases out@.len() - k,
    {
        proof {
            assert(ov[k as int] == out@[k as int]@);
        }
        k = k + 1;
    }
    let ghost xv = x@;
    proof {
        if k < out@.len() {
            assert(ov[k as int] == out@[k as int]@);
            assert(name_lt(xv.0, ov[k as int].0));
        }
    }
    out.insert(k, x);
    proof {
        let nv = input_views(out@);
        assert(nv =~= ov.insert(k as int, xv));
        vstd::seq_lib::to_multiset_insert(ov, k as int, xv);
        assert forall|i: int, j: int| 0 <= i < j < nv.len() implies !name_lt((#[trigger] nv[j]).0, (#[trigger] nv[i]).0) by {
            if i < k && j < k {
                assert(nv[i] == ov[i] && nv[j] == ov[j]);
            } else if i < k && j == k {
                assert(nv[i] == ov[i]);
            } else if i < k && j > k {
                assert(nv[i] == ov[i] && nv[j] == ov[j - 1]);
            } else if i == k {
                assert(nv[j] == ov[j - 1]);
                lemma_name_lt_total(xv.0, ov[j - 1].0);
                if name_lt(ov[j - 1].0, xv.0) {
                    if j - 1 > k {
                        assert(!name_lt(ov[j - 1].0, ov[k as int].0));
                        lemma_name_lt_trans(ov[j - 1].0, xv.0, ov[k as int].0);
                    } else {
                        lemma_name_lt_trans(xv.0, ov[k as int].0, xv.0);
                        lemma_name_lt_irrefl(xv.0);
                    }
                }
            } else {
                assert(nv[i] == ov[i - 1] && nv[j] == ov[j - 1]);
            }
        }
    }
}

/// A loaded flake: the top-level entries of its `flake.nix` and the
/// directory that holds it.
#[derive(Debug)]
pub struct Flake {
    top: Vec<SurfaceExpr>,
    dir: String,
}

/// An rnix expression node.
#[verifier::external_type_specification]
#[verifier::external_body]
pub struct ExNixExpr(rnix::ast::Expr);

/// An rnix attribute-set entry node.
#[verifier::external_type_specification]
#[verifier::external_body]
pub struct ExNixEntry(rnix::ast::Entry);

/// An rnix attribute-path binding node.
#[verifier::external_type_specification]
#[verifier::external_body]
pub struct ExNixAttrpathValue(rnix::ast::AttrpathValue);

/// The surface tree that parsing Nix source `src` gives: the rnix parse,
/// converted node for node, or the parser's errors.
pub uninterp spec fn nix_surface(src: Seq<char>) -> Result<SurfaceExpr, FlakeError>;

/// Parses Nix source with `rnix::Root::parse` and converts the tree to its
/// surface. Trusted to depend on the source text alone: the result is named
/// `nix_surface`; a parse with errors gives `Parse` with rnix's messages,
/// source with no expression `Parse` too. Nothing more is stated of the tree.
#[verifier::external_body]
fn parse_nix(src: &str) -> (r: Result<SurfaceExpr, FlakeError>)
    ensures
        r == nix_surface(src@),
{
    let parse = rnix::Root::parse(src);
    if !parse.errors().is_empty() {
        let msg = parse.errors().iter().map(|e| e.to_string()).collect::<Vec<_>>().join("; ");
        return Err(FlakeError::Parse(msg));
    }
    match parse.tree().expr() {
        Some(expr) => Ok(surface_of(&expr)),
        None => Err(FlakeError::Parse("empty flake.nix".to_owned())),
    }
}

/// Converts an rnix expression node to its surface: attribute sets,
/// functions and strings by their parts, anything else `Other`.
#[verifier::external_body]
fn surface_of(expr: &rnix::ast::Expr) -> SurfaceExpr {
    match expr {
        rnix::ast::Expr::AttrSet(set) => SurfaceExpr::AttrSet(set.entries().map(|e| surface_entry(&e)).collect()),
        rnix::ast::Expr::Lambda(l) => SurfaceExpr::Lambda(l.body().map(|b| Box::new(surface_of(&b)))),
        rnix::ast::Expr::Str(s) => SurfaceExpr::Str(
            s.normalized_parts().into_iter().map(|p| match p {
                rnix::ast::InterpolPart::Literal(l) => StrPart::Literal(l),
                rnix::ast::InterpolPart::Interpolation(_) => StrPart::Interpolation,
            }).collect(),
        ),
        _ => SurfaceExpr::Other,
    }
}

/// Converts an rnix attribute-set entry to its surface.
#[verifier::external_body]
fn surface_entry(entry: &rnix::ast::Entry) -> SurfaceExpr {
    match entry {
        rnix::ast::Entry::Inherit(_) => SurfaceExpr::Inherit,
        rnix::ast::Entry::AttrpathValue(apv) => {
            SurfaceExpr::Binding(attrpath_segments(apv), apv.value().map(|v| Box::new(surface_of(&v))))
        },
    }
}

/// The segments of an rnix attribute path as text: an identifier's name, a
/// string key's text; `None` when a segment is not static.
#[verifier::external_body]
fn attrpath_segments(apv: &rnix::ast::AttrpathValue) -> Option<Vec<String>> {
    let mut segs = Vec::new();
    for attr in apv.attrpath()?.attrs() {
        match attr {
            rnix::ast::Attr::Ident(i) => segs.push(i.ident_token()?.text().to_owned()),
            rnix::ast::Attr::Str(s) => segs.push(s.normalized_parts().into_iter().map(|p| match p {
                rnix::ast::InterpolPart::Literal(l) => Some(l),
                rnix::ast::InterpolPart::Interpolation(_) => None,
            }).collect::<Option<String>>()?),
            _ => return None,
        }
    }
    Some(segs)
}

impl Flake {
    /// The top-level entries.
    pub closed spec fn surface(&self) -> Seq<SurfaceExpr> {
        self.top@
    }

    /// The directory.
    pub closed spec fn dir_view(&self) -> Seq<char> {
        self.dir@
    }

    /// A flake from the surface of its source: a top-level attribute set
    /// with an `outputs` entry, else `NotAFlake`.
    pub fn from_surface(top: SurfaceExpr, dir: String) -> (r: Result<Flake, FlakeError>)
        ensures
            match top {
                SurfaceExpr::AttrSet(es) => if spec_find_entry(es@, "outputs"@, 0) is Some {
                    r matches Ok(f) && f.surface() == es@ && f.dir_view() == dir@
                } else {
                    r matches Err(FlakeError::NotAFlake(_))
                },
                _ => r matches Err(FlakeError::NotAFlake(_)),
            },
    {
        match top {
            SurfaceExpr::AttrSet(es) => {
                if find_entry(&es, "outputs").is_none() {
                    return Err(FlakeError::NotAFlake(String::from_str("missing `outputs`")));
                }
                Ok(Flake { top: es, dir })
            },
            _ => Err(FlakeError::NotAFlake(String::from_str("top-level is not an attribute set"))),
        }
    }

    /// A flake from its Nix source: a parse error is returned as it is;
    /// otherwise the flake is read off the parsed surface, as
    /// `from_surface` does.
    pub fn from_source(src: &str, dir: String) -> (r: Result<Flake, FlakeError>)
        ensures
            nix_surface(src@) matches Err(e) ==> r == Err::<Flake, FlakeError>(e),
            nix_surface(src@) matches Ok(top) ==> match top {
                SurfaceExpr::AttrSet(es) => if spec_find_entry(es@, "outputs"@, 0) is Some {
                    r matches Ok(f) && f.surface() == es@ && f.dir_view() == dir@
                } else {
                    r matches Err(FlakeError::NotAFlake(_))
                },
                _ => r matches Err(FlakeError::NotAFlake(_)),
            },
    {
        match parse_nix(src) {
            Err(e) => Err(e),
            Ok(top) => Flake::from_surface(top, dir),
        }
    }

    /// The directory that holds the flake.
    pub fn dir(&self) -> (r: &str)
        ensures
            r@ == self.dir_view(),
    {
        self.dir.as_str()
    }

    /// The output attribute paths under the body of the `outputs`
    /// function, sorted and each once; nothing is evaluated.
    pub fn show(&self) -> (r: Result<FlakeOutputs, FlakeError>)
        ensures
            match spec_show(self.surface()) {
                Ok(ps) => r matches Ok(o) && strictly_sorted(o@) && o@.to_set() == ps.to_set(),
                Err(f) => r matches Err(x) && is_fault(x, f),
            },
    {
        let body = match find_entry(&self.top, "outputs") {
            Some(SurfaceExpr::Lambda(Some(b))) => &**b,
            Some(SurfaceExpr::Lambda(None)) => {
                return Err(FlakeError::NotAFlake(String::from_str("`outputs` lambda has no body")));
            },
            Some(_) => {
                return Err(FlakeError::NotAFlake(String::from_str("`outputs` is not a function")));
            },
            None => {
                return Err(FlakeError::NotAFlake(String::from_str("missing `outputs`")));
            },
        };
        let mut prefix: Vec<String> = Vec::new();
        let mut paths: Vec<String> = Vec::new();
        proof {
            assert(seg_views(prefix@) =~= Seq::<Seq<char>>::empty());
        }
        match collect_paths(body, &mut prefix, &mut paths) {
            Ok(()) => {},
            Err(e) => {
                return Err(e);
            },
        }
        proof {
            assert(seg_views(Seq::<String>::empty()) =~= Seq::<Seq<char>>::empty());
            assert(seg_views(paths@) =~= value_paths(*body, Seq::empty())->Some_0);
        }
        let sorted = sort_unique(&paths);
        Ok(FlakeOutputs { paths: sorted })
    }

    /// The declared inputs, sorted by name: each `inputs.<name>` an
    /// attribute set whose `url` is a local-path string literal. No
    /// `inputs` entry gives none.
    pub fn inputs(&self) -> (r: Result<FlakeInputs, FlakeError>)
        ensures
            match spec_inputs(self.surface()) {
                Ok(ps) => r matches Ok(fi) && sorted_names(fi@) && fi@.to_multiset() == ps.to_multiset(),
                Err(f) => r matches Err(x) && is_fault(x, f),
            },
    {
        let es = match find_entry(&self.top, "inputs") {
            None => {
                let d = FlakeInputs::default();
                proof {
                    assert(d@.to_multiset() =~= Seq::<(Seq<char>, Seq<char>)>::empty().to_multiset());
                }
                return Ok(d);
            },
            Some(SurfaceExpr::AttrSet(es)) => es,
            Some(_) => {
                return Err(FlakeError::NotAFlake(String::from_str("`inputs` is not an attribute set")));
            },
        };
        let fs = match attrset_fields(es) {
            Ok(fs) => fs,
            Err(e) => {
                return Err(e);
            },
        };
        let ghost sfs = spec_fields(es@)->Ok_0;
        let mut out: Vec<FlakeInput> = Vec::new();
        let mut i: usize = 0;
        proof {
            assert(sfs.subrange(0, 0) =~= Seq::<(Seq<char>, SurfaceExpr)>::empty());
            assert(input_views(out@) =~= Seq::<(Seq<char>, Seq<char>)>::empty());
        }
        while i < fs.len()
            invariant
                i <= fs@.len(),
                fs@.len() == sfs.len(),
                forall|k: int| 0 <= k < sfs.len() ==> (#[trigger] fs@[k]).0@ == sfs[k].0 && *fs@[k].1 == sfs[k].1,
                spec_inputs(self.surface()) == spec_urls(sfs),
                sorted_names(input_views(out@)),
                spec_urls(sfs.subrange(0, i as int)) matches Ok(us) && input_views(out@).to_multiset()
                    == us.to_multiset(),
            decreases fs@.len() - i,
        {
            let ghost q = sfs.subrange(0, i + 1);
            proof {
                assert(q.drop_last() =~= sfs.subrange(0, i as int));
                assert(q.last() == sfs[i as int]);
            }
            let url = match input_url(fs[i].1) {
                Ok(u) => u,
                Err(e) => {
                    proof {
                        lemma_urls_err(sfs, i + 1);
                    }
                    return Err(e);
                },
            };
            let x = FlakeInput { name: fs[i].0.clone(), url };
            let ghost us = spec_urls(sfs.subrange(0, i as int))->Ok_0;
            insert_by_name(&mut out, x);
            proof {
                assert(spec_urls(q) == Ok::<Seq<(Seq<char>, Seq<char>)>, FrontFault>(us.push(x@)));
                vstd::seq_lib::to_multiset_build(us, x@);
            }
            i = i + 1;
        }
        proof {
            assert(sfs.subrange(0, sfs.len() as int) =~= sfs);
        }
        let fi = FlakeInputs { entries: out };
        Ok(fi)
    }

    /// The declared top-level `description`, a plain string literal; `None`
    /// when absent.
    pub fn description(&self) -> (r: Result<Option<String>, FlakeError>)
        ensures
            match spec_description(self.surface()) {
                Ok(None) => r matches Ok(None),
                Ok(Some(t)) => r matches Ok(Some(s)) && s@ == t,
                Err(f) => r matches Err(x) && is_fault(x, f),
            },
    {
        match find_entry(&self.top, "description") {
            None => Ok(None),
            Some(v) => match string_literal(v) {
                Ok(Some(t)) => Ok(Some(t)),
                Ok(None) => Err(FlakeError::NotAFlake(String::from_str("`description` is not a string"))),
                Err(e) => Err(e),
            },
        }
    }
}

proof fn lemma_urls_err(fs: Seq<(Seq<char>, SurfaceExpr)>, k: int)
    requires
        0 <= k <= fs.len(),
        spec_urls(fs.subrange(0, k)) is Err,
    ensures
        spec_urls(fs) == spec_urls(fs.subrange(0, k)),
    decreases fs.len(),
{
    if fs.len() == k {
        assert(fs.subrange(0, k) =~= fs);
    } else {
        assert(fs.drop_last().subrange(0, k) =~= fs.subrange(0, k));
        lemma_urls_err(fs.drop_last(), k);
    }
}

/// The names of the declared inputs.
pub open spec fn declared_names(inputs: Seq<(Seq<char>, Seq<char>)>) -> Seq<Seq<char>> {
    inputs.map_values(|p: (Seq<char>, Seq<char>)| p.0)
}

/// The names a lock file pins.
pub open spec fn pinned_names(lock: LockFile) -> Seq<Seq<char>> {
    lock.entries@.map_values(|e: crate::lock::LockEntry| e.name@)
}

/// How often `s` holds `x`.
fn count_of(v: &Vec<String>, x: &String) -> (r: usize)
    ensures
        r == seg_views(v@).to_multiset().count(x@),
{
    let mut n: usize = 0;
    let mut i: usize = 0;
    proof {
        assert(seg_views(v@.subrange(0, 0)) =~= Seq::<Seq<char>>::empty());
        vstd::seq_lib::to_multiset_contains(Seq::<Seq<char>>::empty(), x@);
    }
    while i < v.len()
        invariant
            i <= v@.len(),
            n == seg_views(v@.subrange(0, i as int)).to_multiset().count(x@),
            n <= i,
        decreases v@.len() - i,
    {
        let ghost a = seg_views(v@.subrange(0, i as int));
        proof {
            assert(seg_views(v@.subrange(0, i + 1)) =~= a.push(v@[i as int]@));
            vstd::seq_lib::to_multiset_build(a, v@[i as int]@);
        }
        if same_text(v[i].as_str(), x.as_str()) {
            n = n + 1;
        }
        i = i + 1;
    }
    proof {
        assert(v@.subrange(0, v@.len() as int) =~= v@);
    }
    n
}

/// Whether `a` and `b` hold the same names, each as often.
fn same_names(a: &Vec<String>, b: &Vec<String>) -> (r: bool)
    ensures
        r == (seg_views(a@).to_multiset() == seg_views(b@).to_multiset()),
{
    let mut i: usize = 0;
    while i < a.len()
        invariant
            i <= a@.len(),
            forall|k: int| 0 <= k < i ==> seg_views(a@).to_multiset().count(#[trigger] a@[k]@)
                == seg_views(b@).to_multiset().count(a@[k]@),
        decreases a@.len() - i,
    {
        if count_of(a, &a[i]) != count_of(b, &a[i]) {
            return false;
        }
        i = i + 1;
    }
    let mut j: usize = 0;
    while j < b.len()
        invariant
            j <= b@.len(),
            forall|k: int| 0 <= k < j ==> seg_views(a@).to_multiset().count(#[trigger] b@[k]@)
                == seg_views(b@).to_multiset().count(b@[k]@),
        decreases b@.len() - j,
    {
        if count_of(a, &b[j]) != count_of(b, &b[j]) {
            return false;
        }
        j = j + 1;
    }
    proof {
        let ma = seg_views(a@).to_multiset();
        let mb = seg_views(b@).to_multiset();
        assert forall|x: Seq<char>| ma.count(x) == mb.count(x) by {
            vstd::seq_lib::to_multiset_contains(seg_views(a@), x);
            vstd::seq_lib::to_multiset_contains(seg_views(b@), x);
            if ma.count(x) > 0 {
                let k = choose|k: int| 0 <= k < a@.len() && seg_views(a@)[k] == x;
                assert(a@[k]@ == x);
            } else if mb.count(x) > 0 {
                let k = choose|k: int| 0 <= k < b@.len() && seg_views(b@)[k] == x;
                assert(b@[k]@ == x);
            }
        }
        assert(ma =~= mb);
    }
    true
}

/// The state of a lock file against the declared inputs: up to date when
/// it pins exactly the declared names, each as often, and every pinned
/// content still matched its hash (`pins_verified`); else stale.
pub fn lock_status_of(inputs: &FlakeInputs, lock: &LockFile, pins_verified: bool) -> (r: LockStatus)
    ensures
        r == (if declared_names(inputs@).to_multiset() == pinned_names(*lock).to_multiset()
            && pins_verified {
            LockStatus::UpToDate
        } else {
            LockStatus::Stale
        }),
{
    let es = inputs.entries();
    let mut declared: Vec<String> = Vec::new();
    let mut i: usize = 0;
    while i < es.len()
        invariant
            i <= es@.len(),
            input_views(es@) == inputs@,
            seg_views(declared@) == declared_names(inputs@).subrange(0, i as int),
        decreases es@.len() - i,
    {
        let n = es[i].name.clone();
        let ghost before = declared@;
        proof {
            assert(input_views(es@)[i as int] == es@[i as int]@);
            assert(declared_names(inputs@).len() == es@.len());
            assert(declared_names(inputs@)[i as int] == n@);
        }
        declared.push(n);
        proof {
            assert(seg_views(declared@) =~= seg_views(before).push(n@));
            assert(seg_views(declared@) =~= declared_names(inputs@).subrange(0, i + 1));
        }
        i = i + 1;
    }
    let ls = lock.entries();
    let mut pinned: Vec<String> = Vec::new();
    let mut j: usize = 0;
    while j < ls.len()
        invariant
            j <= ls@.len(),
            ls@ == lock.entries@,
            seg_views(pinned@) == pinned_names(*lock).subrange(0, j as int),
        decreases ls@.len() - j,
    {
        let ghost before = pinned@;
        let nm = ls[j].name.clone();
        pinned.push(nm);
        proof {
            assert(pinned_names(*lock).len() == ls@.len());
            assert(pinned_names(*lock)[j as int] == nm@);
            assert(seg_views(pinned@) =~= seg_views(before).push(nm@));
            assert(seg_views(pinned@) =~= pinned_names(*lock).subrange(0, j + 1));
        }
        j = j + 1;
    }
    proof {
        assert(declared_names(inputs@).subrange(0, es@.len() as int) =~= declared_names(inputs@));
        assert(pinned_names(*lock).subrange(0, ls@.len() as int) =~= pinned_names(*lock));
    }
    if same_names(&declared, &pinned) && pins_verified {
        LockStatus::UpToDate
    } else {
        LockStatus::Stale
    }
}

} // verus!
