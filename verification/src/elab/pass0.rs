//! Pass 0: resolving references to definitions, after checking that the
//! definitions do not refer to each other in a cycle.
use vstd::prelude::*;
use crate::ast::{Ast, HandlerBranch, PrimFun, PrimVal};
use crate::error::LinError;

verus! {

/// Definition `i` is the first one named `n`.
pub open spec fn first_def<V: PrimVal, F: PrimFun>(defs: Seq<(String, Ast<V, F>)>, n: Seq<char>, i: int) -> bool {
    &&& 0 <= i < defs.len()
    &&& defs[i].0@ == n
    &&& forall|j: int| 0 <= j < i ==> (#[trigger] defs[j]).0@ != n
}

/// Some name in `names` is `n`.
pub open spec fn names_hold(names: Seq<String>, n: Seq<char>) -> bool {
    exists|i: int| 0 <= i < names.len() && (#[trigger] names[i])@ == n
}

/// The definition named `n` mentions `n` itself.
pub open spec fn refers_to_itself<V: PrimVal, F: PrimFun>(defs: Seq<(String, Ast<V, F>)>, n: Seq<char>) -> bool {
    exists|i: int| #[trigger] first_def(defs, n, i) && names_hold(def_refs(defs, defs[i].1), n)
}

/// The definition named `n`, if any, mentions no definition.
pub open spec fn refers_to_none<V: PrimVal, F: PrimFun>(defs: Seq<(String, Ast<V, F>)>, n: Seq<char>) -> bool {
    forall|i: int| #[trigger] first_def(defs, n, i) ==> def_refs(defs, defs[i].1).len() == 0
}

/// No name in `names` is that of a definition that mentions itself.
pub open spec fn none_refer_to_themselves<V: PrimVal, F: PrimFun>(
    defs: Seq<(String, Ast<V, F>)>,
    names: Seq<String>,
) -> bool {
    forall|i: int| 0 <= i < names.len() ==> !refers_to_itself(defs, (#[trigger] names[i])@)
}

/// The first definition named `n`.
fn find_def<V: PrimVal, F: PrimFun>(defs: &Vec<(String, Ast<V, F>)>, n: &String) -> (r: Option<usize>)
    ensures
        r matches Some(i) ==> first_def(defs@, n@, i as int),
        r is None ==> forall|i: int| 0 <= i < defs@.len() ==> (#[trigger] defs@[i]).0@ != n@,
{
    let mut i: usize = 0;
    while i < defs.len()
        invariant
            i <= defs@.len(),
            forall|j: int| 0 <= j < i ==> (#[trigger] defs@[j]).0@ != n@,
        decreases defs@.len() - i,
    {
        if defs[i].0 == *n {
            return Some(i);
        }
        i = i + 1;
    }
    None
}

/// Whether `names` holds `n`.
fn holds(names: &Vec<String>, n: &String) -> (r: bool)
    ensures
        r == names_hold(names@, n@),
{
    let mut i: usize = 0;
    while i < names.len()
        invariant
            i <= names@.len(),
            forall|j: int| 0 <= j < i ==> (#[trigger] names@[j])@ != n@,
        decreases names@.len() - i,
    {
        if names[i] == *n {
            return true;
        }
        i = i + 1;
    }
    false
}

/// Add `n` to the set `names`.
fn set_insert(names: &mut Vec<String>, n: &String)
    ensures
        (exists|i: int| 0 <= i < old(names)@.len() && (#[trigger] old(names)@[i])@ == n@)
            ==> final(names)@ == old(names)@,
        (forall|i: int| 0 <= i < old(names)@.len() ==> (#[trigger] old(names)@[i])@ != n@)
            ==> final(names)@ == old(names)@.push(*n),
        forall|m: Seq<char>| #[trigger] names_hold(final(names)@, m) <==> names_hold(old(names)@, m) || m == n@,
        final(names)@ == with_name(old(names)@, *n),
{
    if !holds(names, n) {
        names.push(n.clone());
        proof {
            assert forall|m: Seq<char>| #[trigger] names_hold(names@, m) <==> names_hold(old(names)@, m) || m == n@ by {
                if names_hold(old(names)@, m) {
                    let i = choose|i: int| 0 <= i < old(names)@.len() && (#[trigger] old(names)@[i])@ == m;
                    assert(names@[i] == old(names)@[i]);
                }
                if m == n@ {
                    assert(names@[old(names)@.len() as int] == *n);
                }
                if names_hold(names@, m) {
                    let i = choose|i: int| 0 <= i < names@.len() && (#[trigger] names@[i])@ == m;
                    if i < old(names)@.len() {
                        assert(names@[i] == old(names)@[i]);
                    }
                }
            }
        }
    }
}

/// Whether a name differs from `n`.
pub open spec fn other_than(n: Seq<char>) -> spec_fn(String) -> bool {
    |s: String| s@ != n
}

/// The names of `names` other than `n`, in order.
pub open spec fn without_name(names: Seq<String>, n: Seq<char>) -> Seq<String> {
    names.filter(other_than(n))
}

proof fn lemma_without_absent(names: Seq<String>, n: Seq<char>)
    requires
        !names_hold(names, n),
    ensures
        without_name(names, n) == names,
    decreases names.len(),
{
    reveal(Seq::filter);
    if names.len() > 0 {
        let d = names.drop_last();
        assert(!names_hold(d, n)) by {
            if names_hold(d, n) {
                let i = choose|i: int| 0 <= i < d.len() && (#[trigger] d[i])@ == n;
                assert(names[i] == d[i]);
            }
        }
        lemma_without_absent(d, n);
        assert(names.last() == names[names.len() - 1]);
        assert(names =~= d.push(names.last()));
    }
}

proof fn lemma_without_pushed(names: Seq<String>, x: String, n: Seq<char>)
    requires
        x@ == n,
    ensures
        without_name(names.push(x), n) == without_name(names, n),
{
    reveal(Seq::filter);
    assert(names.push(x).drop_last() =~= names);
}

proof fn lemma_without_holds(names: Seq<String>, n: Seq<char>, m: Seq<char>)
    requires
        names_hold(without_name(names, n), m),
    ensures
        names_hold(names, m),
        m != n,
    decreases names.len(),
{
    reveal(Seq::filter);
    let w = without_name(names, n);
    let i = choose|i: int| 0 <= i < w.len() && (#[trigger] w[i])@ == m;
    if names.len() > 0 {
        let d = names.drop_last();
        let wd = without_name(d, n);
        if i < wd.len() {
            assert(w[i] == wd[i]);
            assert(names_hold(wd, m));
            lemma_without_holds(d, n, m);
            let k = choose|k: int| 0 <= k < d.len() && (#[trigger] d[k])@ == m;
            assert(names[k] == d[k]);
        } else {
            assert(w[i] == names.last());
            assert(names[names.len() - 1] == names.last());
        }
    }
}

/// Remove `n` from the set `names`.
fn set_remove(names: &mut Vec<String>, n: &String)
    ensures
        final(names)@ == without_name(old(names)@, n@),
        forall|m: Seq<char>| #[trigger] names_hold(final(names)@, m) ==> names_hold(old(names)@, m) && m != n@,
{
    let ghost keep = other_than(n@);
    let mut i: usize = 0;
    while i < names.len()
        invariant
            i <= names@.len(),
            keep == other_than(n@),
            names@.subrange(0, i as int).filter(keep) == names@.subrange(0, i as int),
            names@.filter(keep) == old(names)@.filter(keep),
        decreases names@.len() - i,
    {
        let ghost before = names@;
        let same = names[i] == *n;
        if same {
            assert(before[i as int]@ == n@);
            names.remove(i);
            proof {
                let x = before[i as int];
                assert(!keep(x));
                assert(before == before.subrange(0, i as int) + seq![x] + before.subrange(i + 1, before.len() as int));
                assert(names@ == before.subrange(0, i as int) + before.subrange(i + 1, before.len() as int));
                assert(seq![x].filter(keep) == Seq::<String>::empty()) by {
                    reveal_with_fuel(Seq::filter, 2);
                    assert(seq![x].drop_last() == Seq::<String>::empty());
                }
                Seq::filter_distributes_over_add(before.subrange(0, i as int) + seq![x], before.subrange(i + 1, before.len() as int), keep);
                Seq::filter_distributes_over_add(before.subrange(0, i as int), seq![x], keep);
                Seq::filter_distributes_over_add(before.subrange(0, i as int), before.subrange(i + 1, before.len() as int), keep);
                assert(names@.subrange(0, i as int) == before.subrange(0, i as int));
            }
        } else {
            assert(before[i as int]@ != n@);
            proof {
                let x = before[i as int];
                assert(keep(x));
                assert(before.subrange(0, i + 1) == before.subrange(0, i as int) + seq![x]);
                assert(seq![x].filter(keep) == seq![x]) by {
                    reveal_with_fuel(Seq::filter, 2);
                    assert(seq![x].drop_last() == Seq::<String>::empty());
                }
                Seq::filter_distributes_over_add(before.subrange(0, i as int), seq![x], keep);
            }
            i = i + 1;
        }
    }
    proof {
        assert(names@.subrange(0, names@.len() as int) == names@);
        assert forall|m: Seq<char>| #[trigger] names_hold(names@, m) implies names_hold(old(names)@, m) && m != n@ by {
            lemma_without_holds(old(names)@, n@, m);
        }
    }
}

/// Some definition is named `n`.
pub open spec fn has_def<V: PrimVal, F: PrimFun>(defs: Seq<(String, Ast<V, F>)>, n: Seq<char>) -> bool {
    exists|i: int| 0 <= i < defs.len() && (#[trigger] defs[i]).0@ == n
}

/// The names in `e` that are names of definitions, in order of occurrence
/// (binders do not hide them).
pub open spec fn def_refs<V: PrimVal, F: PrimFun>(defs: Seq<(String, Ast<V, F>)>, e: Ast<V, F>) -> Seq<String>
    decreases e, 0int,
{
    match e {
        Ast::Name(n) => if has_def(defs, n@) {
            seq![n]
        } else {
            Seq::empty()
        },
        Ast::Abs(_, b) => def_refs(defs, *b),
        Ast::App(f, x) => def_refs(defs, *f) + def_refs(defs, *x),
        Ast::Rep(s, _, _, b) => def_refs(defs, *s) + def_refs(defs, *b),
        Ast::Era(s, b) => def_refs(defs, *s) + def_refs(defs, *b),
        Ast::Fix(i) => def_refs(defs, *i),
        Ast::Val(_) => Seq::empty(),
        Ast::Fun(_) => Seq::empty(),
        Ast::Perform(_, s) => def_refs(defs, *s),
        Ast::Handle(c, bs) => def_refs(defs, *c) + branches_def_refs(defs, bs@, bs@.len() as int),
    }
}

/// The definition names in the bodies of the first `j` handler branches.
pub open spec fn branches_def_refs<V: PrimVal, F: PrimFun>(
    defs: Seq<(String, Ast<V, F>)>,
    bs: Seq<HandlerBranch<V, F>>,
    j: int,
) -> Seq<String>
    decreases bs, j,
{
    if 0 < j <= bs.len() {
        branches_def_refs(defs, bs, j - 1) + def_refs(defs, *bs[j - 1].body)
    } else {
        Seq::empty()
    }
}

/// The names of definitions that `expr` mentions, in order.
fn collect_def_refs<V: PrimVal, F: PrimFun>(
    defs: &Vec<(String, Ast<V, F>)>,
    expr: &Ast<V, F>,
    out: &mut Vec<String>,
)
    ensures
        final(out)@ == old(out)@ + def_refs(defs@, *expr),
    decreases expr,
{
    match expr {
        Ast::Name(n) => {
            let found = find_def(defs, n);
            if found.is_some() {
                out.push(n.clone());
            }
            proof {
                if found is Some {
                    assert(defs@[found->0 as int].0@ == n@);
                }
            }
        },
        Ast::Abs(_, body) => collect_def_refs(defs, body, out),
        Ast::App(f, x) => {
            collect_def_refs(defs, f, out);
            collect_def_refs(defs, x, out);
            assert(out@ =~= old(out)@ + def_refs(defs@, *expr));
        },
        Ast::Rep(e, _, _, body) => {
            collect_def_refs(defs, e, out);
            collect_def_refs(defs, body, out);
            assert(out@ =~= old(out)@ + def_refs(defs@, *expr));
        },
        Ast::Era(e, body) => {
            collect_def_refs(defs, e, out);
            collect_def_refs(defs, body, out);
            assert(out@ =~= old(out)@ + def_refs(defs@, *expr));
        },
        Ast::Fix(e) => collect_def_refs(defs, e, out),
        Ast::Perform(_, e) => collect_def_refs(defs, e, out),
        Ast::Handle(comp, branches) => {
            collect_def_refs(defs, comp, out);
            let ghost start = out@;
            let mut j: usize = 0;
            while j < branches.len()
                invariant
                    *expr == Ast::Handle(*comp, *branches),
                    j <= branches@.len(),
                    out@ == start + branches_def_refs(defs@, branches@, j as int),
                decreases branches@.len() - j,
            {
                proof {
                    assert(decreases_to!(*expr => (*expr)->Handle_1));
                    assert(decreases_to!(*branches => branches@));
                    assert(decreases_to!(branches@ => branches@[j as int]));
                    assert(decreases_to!(branches@[j as int] => branches@[j as int].body));
                }
                collect_def_refs(defs, &branches[j].body, out);
                proof {
                    assert(branches_def_refs(defs@, branches@, j + 1) == branches_def_refs(defs@, branches@, j as int)
                        + def_refs(defs@, *branches@[j as int].body));
                    assert(out@ =~= start + branches_def_refs(defs@, branches@, j + 1));
                }
                j = j + 1;
            }
            assert(out@ =~= old(out)@ + def_refs(defs@, *expr));
        },
        Ast::Val(_) => {},
        Ast::Fun(_) => {},
    }
}

/// `n` is named in `order` before position `k`.
pub open spec fn named_before(order: Seq<String>, n: Seq<char>, k: int) -> bool {
    exists|j: int| 0 <= j < k && j < order.len() && (#[trigger] order[j])@ == n
}

/// Every definition named in `order` mentions only definitions named
/// before it there.
pub open spec fn refs_come_first<V: PrimVal, F: PrimFun>(defs: Seq<(String, Ast<V, F>)>, order: Seq<String>) -> bool {
    forall|k: int, q: int|
        0 <= k < order.len() && #[trigger] first_def(defs, order[k]@, q) ==> forall|m: int|
            0 <= m < def_refs(defs, defs[q].1).len() ==> named_before(
                order,
                (#[trigger] def_refs(defs, defs[q].1)[m])@,
                k,
            )
}

/// The definitions can be listed so that each mentions only definitions
/// listed before it: no chain of references among them comes back to a
/// definition it started from.
pub open spec fn defs_well_founded<V: PrimVal, F: PrimFun>(defs: Seq<(String, Ast<V, F>)>) -> bool {
    exists|order: Seq<String>|
        #[trigger] refs_come_first(defs, order) && forall|i: int|
            0 <= i < defs.len() ==> names_hold(order, (#[trigger] defs[i]).0@)
}

/// The definition named `a` mentions `b`.
pub open spec fn refers_to<V: PrimVal, F: PrimFun>(defs: Seq<(String, Ast<V, F>)>, a: Seq<char>, b: Seq<char>) -> bool {
    exists|i: int| #[trigger] first_def(defs, a, i) && names_hold(def_refs(defs, defs[i].1), b)
}

/// `w` begins with `v`.
pub open spec fn extends(w: Seq<String>, v: Seq<String>) -> bool {
    v.len() <= w.len() && w.subrange(0, v.len() as int) == v
}

proof fn lemma_hold_extends(v: Seq<String>, w: Seq<String>, n: Seq<char>)
    requires
        names_hold(v, n),
        extends(w, v),
    ensures
        names_hold(w, n),
{
    let j = choose|j: int| 0 <= j < v.len() && (#[trigger] v[j])@ == n;
    assert(w.subrange(0, v.len() as int)[j] == w[j]);
}

proof fn lemma_order_push<V: PrimVal, F: PrimFun>(defs: Seq<(String, Ast<V, F>)>, order: Seq<String>, x: String)
    requires
        refs_come_first(defs, order),
        forall|q: int|
            #[trigger] first_def(defs, x@, q) ==> forall|m: int|
                0 <= m < def_refs(defs, defs[q].1).len() ==> names_hold(
                    order,
                    (#[trigger] def_refs(defs, defs[q].1)[m])@,
                ),
    ensures
        refs_come_first(defs, order.push(x)),
{
    let o2 = order.push(x);
    assert forall|k: int, q: int| 0 <= k < o2.len() && #[trigger] first_def(defs, o2[k]@, q) implies forall|m: int|
        0 <= m < def_refs(defs, defs[q].1).len() ==> named_before(
            o2,
            (#[trigger] def_refs(defs, defs[q].1)[m])@,
            k,
        ) by {
        assert forall|m: int| 0 <= m < def_refs(defs, defs[q].1).len() implies named_before(
            o2,
            (#[trigger] def_refs(defs, defs[q].1)[m])@,
            k,
        ) by {
            let rn = def_refs(defs, defs[q].1)[m]@;
            if k < order.len() {
                assert(o2[k] == order[k]);
                assert(first_def(defs, order[k]@, q));
                assert(named_before(order, rn, k));
                let j = choose|j: int| 0 <= j < k && j < order.len() && (#[trigger] order[j])@ == rn;
                assert(o2[j] == order[j]);
            } else {
                assert(o2[k] == x);
                assert(names_hold(order, rn));
                let j = choose|j: int| 0 <= j < order.len() && (#[trigger] order[j])@ == rn;
                assert(o2[j] == order[j]);
            }
        }
    }
}

proof fn lemma_pair_absent<V: PrimVal, F: PrimFun>(
    defs: Seq<(String, Ast<V, F>)>,
    order: Seq<String>,
    a: Seq<char>,
    b: Seq<char>,
    k: int,
)
    requires
        refs_come_first(defs, order),
        refers_to(defs, a, b),
        refers_to(defs, b, a),
        0 <= k <= order.len(),
    ensures
        forall|j: int| 0 <= j < k ==> (#[trigger] order[j])@ != a && order[j]@ != b,
    decreases k,
{
    if k > 0 {
        lemma_pair_absent(defs, order, a, b, k - 1);
        let c = k - 1;
        let qa = choose|i: int| #[trigger] first_def(defs, a, i) && names_hold(def_refs(defs, defs[i].1), b);
        let qb = choose|i: int| #[trigger] first_def(defs, b, i) && names_hold(def_refs(defs, defs[i].1), a);
        if order[c]@ == a {
            assert(first_def(defs, order[c]@, qa));
            let m = choose|m: int| 0 <= m < def_refs(defs, defs[qa].1).len() && (#[trigger] def_refs(defs, defs[qa].1)[m])@ == b;
            assert(named_before(order, def_refs(defs, defs[qa].1)[m]@, c));
        } else if order[c]@ == b {
            assert(first_def(defs, order[c]@, qb));
            let m = choose|m: int| 0 <= m < def_refs(defs, defs[qb].1).len() && (#[trigger] def_refs(defs, defs[qb].1)[m])@ == a;
            assert(named_before(order, def_refs(defs, defs[qb].1)[m]@, c));
        }
    }
}

/// Two definitions that mention each other cannot be listed so that each
/// mentions only earlier ones: such a pair is never well founded.
pub proof fn lemma_mutual_pair_not_well_founded<V: PrimVal, F: PrimFun>(
    defs: Seq<(String, Ast<V, F>)>,
    a: Seq<char>,
    b: Seq<char>,
)
    requires
        refers_to(defs, a, b),
        refers_to(defs, b, a),
    ensures
        !defs_well_founded(defs),
{
    if defs_well_founded(defs) {
        let order = choose|order: Seq<String>|
            #[trigger] refs_come_first(defs, order) && forall|i: int|
                0 <= i < defs.len() ==> names_hold(order, (#[trigger] defs[i]).0@);
        lemma_pair_absent(defs, order, a, b, order.len() as int);
        let qa = choose|i: int| #[trigger] first_def(defs, a, i) && names_hold(def_refs(defs, defs[i].1), b);
        assert(names_hold(order, defs[qa].0@));
        let j = choose|j: int| 0 <= j < order.len() && (#[trigger] order[j])@ == defs[qa].0@;
        assert(order[j]@ == a);
    }
}

/// Depth-first search from definition `name` for a cycle of references;
/// `fuel` bounds the depth (the search cannot go deeper than there are
/// definitions).
fn dfs_check<V: PrimVal, F: PrimFun>(
    defs: &Vec<(String, Ast<V, F>)>,
    name: &String,
    visiting: &mut Vec<String>,
    visited: &mut Vec<String>,
    fuel: usize,
) -> (r: Result<(), LinError>)
    ensures
        r matches Err(e) ==> e is MutualRecursion,
        names_hold(old(visiting)@, name@) || fuel == 0 ==> (r matches Err(LinError::MutualRecursion(c))
            && c@ == old(visiting)@),
        !names_hold(old(visiting)@, name@) && fuel > 0 && names_hold(old(visited)@, name@) ==> r is Ok
            && final(visiting)@ == old(visiting)@ && final(visited)@ == old(visited)@,
        r is Ok ==> final(visiting)@ == old(visiting)@,
        none_refer_to_themselves(defs@, old(visited)@) ==> none_refer_to_themselves(defs@, final(visited)@),
        !names_hold(old(visiting)@, name@) && !names_hold(old(visited)@, name@) && fuel > 0
            && refers_to_itself(defs@, name@) ==> r is Err,
        !names_hold(old(visiting)@, name@) && fuel > 0 && refers_to_none(defs@, name@) ==> r is Ok,
        r is Ok ==> names_hold(final(visited)@, name@),
        extends(final(visited)@, old(visited)@),
        forall|x: int|
            old(visited)@.len() <= x < final(visited)@.len() ==> !names_hold(
                old(visiting)@,
                (#[trigger] final(visited)@[x])@,
            ),
        refs_come_first(defs@, old(visited)@) ==> refs_come_first(defs@, final(visited)@),
    decreases fuel,
{
    proof {
        assert(visited@.subrange(0, visited@.len() as int) =~= visited@);
    }
    if holds(visiting, name) || fuel == 0 {
        let mut cycle: Vec<String> = Vec::new();
        let mut i: usize = 0;
        while i < visiting.len()
            invariant
                i <= visiting@.len(),
                cycle@ == visiting@.subrange(0, i as int),
            decreases visiting@.len() - i,
        {
            cycle.push(visiting[i].clone());
            i = i + 1;
            assert(cycle@ =~= visiting@.subrange(0, i as int));
        }
        assert(cycle@ =~= visiting@);
        return Err(LinError::MutualRecursion(cycle));
    }
    if holds(visited, name) {
        return Ok(());
    }
    let ghost v0 = visiting@;
    let ghost w0 = visited@;
    assert(w0.subrange(0, w0.len() as int) =~= w0);
    set_insert(visiting, name);
    match find_def(defs, name) {
        Some(i) => {
            let mut refs: Vec<String> = Vec::new();
            collect_def_refs(defs, &defs[i].1, &mut refs);
            assert(refs@ =~= def_refs(defs@, defs@[i as int].1));
            assert(first_def(defs@, name@, i as int));
            let mut k: usize = 0;
            while k < refs.len()
                invariant
                    fuel > 0,
                    !names_hold(old(visiting)@, name@),
                    !names_hold(old(visited)@, name@),
                    refers_to_none(defs@, name@) ==> refs@.len() == 0,
                    visiting@ == v0.push(*name),
                    k <= refs@.len(),
                    forall|j: int| 0 <= j < k ==> (#[trigger] refs@[j])@ != name@,
                    none_refer_to_themselves(defs@, old(visited)@) ==> none_refer_to_themselves(
                        defs@,
                        visited@,
                    ),
                    w0 == old(visited)@,
                    v0 == old(visiting)@,
                    extends(visited@, w0),
                    forall|x: int|
                        w0.len() <= x < visited@.len() ==> !names_hold(
                            v0.push(*name),
                            (#[trigger] visited@[x])@,
                        ),
                    refs_come_first(defs@, w0) ==> refs_come_first(defs@, visited@),
                    forall|j: int| 0 <= j < k ==> names_hold(visited@, (#[trigger] refs@[j])@),
                decreases refs@.len() - k,
            {
                proof {
                    if refs@[k as int]@ == name@ {
                        assert(visiting@[v0.len() as int] == *name);
                    }
                }
                let ghost w1 = visited@;
                match dfs_check(defs, &refs[k], visiting, visited, fuel - 1) {
                    Ok(()) => {},
                    Err(e) => {
                        proof {
                            assert(visited@.subrange(0, w0.len() as int) =~= w0) by {
                                assert forall|t: int| 0 <= t < w0.len() implies visited@[t] == w0[t] by {
                                    assert(visited@.subrange(0, w1.len() as int)[t] == w1[t]);
                                    assert(w1.subrange(0, w0.len() as int)[t] == w0[t]);
                                }
                            }
                            assert forall|x: int| w0.len() <= x < visited@.len() implies !names_hold(
                                v0,
                                (#[trigger] visited@[x])@,
                            ) by {
                                if x < w1.len() {
                                    assert(visited@.subrange(0, w1.len() as int)[x] == w1[x]);
                                    assert(!names_hold(v0.push(*name), w1[x]@));
                                } else {
                                    assert(!names_hold(v0.push(*name), visited@[x]@));
                                }
                                if names_hold(v0, visited@[x]@) {
                                    let t = choose|t: int| 0 <= t < v0.len() && (#[trigger] v0[t])@ == visited@[x]@;
                                    assert(v0.push(*name)[t] == v0[t]);
                                }
                            }
                        }
                        return Err(e);
                    },
                }
                proof {
                    assert(visited@.subrange(0, w0.len() as int) =~= w0) by {
                        assert forall|t: int| 0 <= t < w0.len() implies visited@[t] == w0[t] by {
                            assert(visited@.subrange(0, w1.len() as int)[t] == w1[t]);
                            assert(w1.subrange(0, w0.len() as int)[t] == w0[t]);
                        }
                    }
                    assert forall|x: int| w0.len() <= x < visited@.len() implies !names_hold(
                        v0.push(*name),
                        (#[trigger] visited@[x])@,
                    ) by {
                        if x < w1.len() {
                            assert(visited@.subrange(0, w1.len() as int)[x] == w1[x]);
                        }
                    }
                    assert forall|j: int| 0 <= j < k + 1 implies names_hold(visited@, (#[trigger] refs@[j])@) by {
                        if j < k {
                            lemma_hold_extends(w1, visited@, refs@[j]@);
                        }
                    }
                }
                k = k + 1;
            }
            proof {
                assert(!names_hold(refs@, name@));
                assert forall|q: int| #[trigger] first_def(defs@, name@, q) implies q == i as int by {
                    if q < i {
                        assert(defs@[q].0@ != name@);
                    } else if q > i {
                        assert(defs@[i as int].0@ != name@);
                    }
                }
            }
        },
        None => {},
    }
    proof {
        assert(!refers_to_itself(defs@, name@));
        lemma_without_pushed(v0, *name, name@);
        lemma_without_absent(v0, name@);
        assert(!names_hold(visited@, name@)) by {
            if names_hold(visited@, name@) {
                let x = choose|x: int| 0 <= x < visited@.len() && (#[trigger] visited@[x])@ == name@;
                if x < w0.len() {
                    assert(visited@.subrange(0, w0.len() as int)[x] == w0[x]);
                } else {
                    assert(v0.push(*name)[v0.len() as int] == *name);
                }
            }
        }
    }
    let ghost w2 = visited@;
    set_remove(visiting, name);
    set_insert(visited, name);
    proof {
        assert(visited@ == w2.push(*name));
        assert(visited@.subrange(0, w0.len() as int) =~= w0) by {
            assert forall|t: int| 0 <= t < w0.len() implies visited@[t] == w0[t] by {
                assert(w2.subrange(0, w0.len() as int)[t] == w0[t]);
            }
        }
        assert forall|x: int| w0.len() <= x < visited@.len() implies !names_hold(
            v0,
            (#[trigger] visited@[x])@,
        ) by {
            if x < w2.len() {
                assert(!names_hold(v0.push(*name), w2[x]@));
                if names_hold(v0, w2[x]@) {
                    let t = choose|t: int| 0 <= t < v0.len() && (#[trigger] v0[t])@ == w2[x]@;
                    assert(v0.push(*name)[t] == v0[t]);
                }
            }
        }
        assert(names_hold(visited@, name@)) by {
            assert(visited@[w2.len() as int] == *name);
        }
        if refs_come_first(defs@, w0) {
            lemma_order_push(defs@, w2, *name);
        }
    }
    proof {
        if none_refer_to_themselves(defs@, old(visited)@) {
            assert forall|q: int| 0 <= q < visited@.len() implies !refers_to_itself(
                defs@,
                (#[trigger] visited@[q])@,
            ) by {}
        }
    }
    Ok(())
}

/// A reference cycle among definitions is an error.
fn topo_check<V: PrimVal, F: PrimFun>(defs: &Vec<(String, Ast<V, F>)>) -> (r: Result<(), LinError>)
    ensures
        r matches Err(e) ==> e is MutualRecursion,
        (exists|i: int| 0 <= i < defs@.len() && refers_to_itself(defs@, (#[trigger] defs@[i]).0@)) ==> r is Err,
        (forall|i: int| 0 <= i < defs@.len() ==> def_refs(defs@, (#[trigger] defs@[i]).1).len() == 0) ==> r is Ok,
        r is Ok ==> defs_well_founded(defs@),
{
    let mut visiting: Vec<String> = Vec::new();
    let mut visited: Vec<String> = Vec::new();
    let mut i: usize = 0;
    while i < defs.len()
        invariant
            i <= defs@.len(),
            visiting@.len() == 0,
            none_refer_to_themselves(defs@, visited@),
            forall|j: int| 0 <= j < i ==> !refers_to_itself(defs@, (#[trigger] defs@[j]).0@),
            refs_come_first(defs@, visited@),
            forall|j: int| 0 <= j < i ==> names_hold(visited@, (#[trigger] defs@[j]).0@),
            (forall|j: int| 0 <= j < defs@.len() ==> def_refs(defs@, (#[trigger] defs@[j]).1).len() == 0)
                ==> forall|n: Seq<char>| #[trigger] refers_to_none(defs@, n),
        decreases defs@.len() - i,
    {
        proof {
            if names_hold(visited@, defs@[i as int].0@) {
                let q = choose|q: int| 0 <= q < visited@.len() && (#[trigger] visited@[q])@ == defs@[i as int].0@;
                assert(!refers_to_itself(defs@, visited@[q]@));
            }
        }
        let ghost w1 = visited@;
        if !holds(&visited, &defs[i].0) {
            let fuel = if defs.len() < usize::MAX { defs.len() + 1 } else { defs.len() };
            match dfs_check(defs, &defs[i].0, &mut visiting, &mut visited, fuel) {
                Ok(()) => {},
                Err(e) => {
                    return Err(e);
                },
            }
        }
        proof {
            assert forall|j: int| 0 <= j < i + 1 implies names_hold(visited@, (#[trigger] defs@[j]).0@) by {
                if j < i {
                    if visited@ != w1 {
                        lemma_hold_extends(w1, visited@, defs@[j].0@);
                    }
                }
            }
        }
        i = i + 1;
    }
    proof {
        assert forall|j: int| 0 <= j < defs@.len() && refers_to_itself(defs@, (#[trigger] defs@[j]).0@) implies false by {}
        assert(refs_come_first(defs@, visited@));
    }
    Ok(())
}

/// `names` with `x` added unless it is there.
pub open spec fn with_name(names: Seq<String>, x: String) -> Seq<String> {
    if names_hold(names, x@) {
        names
    } else {
        names.push(x)
    }
}

/// The bound names after resolving `e` from `bound` (when it succeeds): a
/// binder is added on the way in and removed (with every copy) on the way
/// out.
pub open spec fn res_bound<V: PrimVal, F: PrimFun>(
    defs: Seq<(String, Ast<V, F>)>,
    e: Ast<V, F>,
    bound: Seq<String>,
    fuel: nat,
) -> Seq<String>
    decreases fuel, e, 0int,
{
    match e {
        Ast::Name(n) => if !names_hold(bound, n@) && has_def(defs, n@) && fuel > 0 {
            let i = choose|i: int| first_def(defs, n@, i);
            res_bound(defs, defs[i].1, bound, (fuel - 1) as nat)
        } else {
            bound
        },
        Ast::Abs(x, b) => without_name(res_bound(defs, *b, with_name(bound, x), fuel), x@),
        Ast::App(f, a) => res_bound(defs, *a, res_bound(defs, *f, bound, fuel), fuel),
        Ast::Rep(s, a, b, body) => without_name(
            without_name(
                res_bound(defs, *body, with_name(with_name(res_bound(defs, *s, bound, fuel), a), b), fuel),
                a@,
            ),
            b@,
        ),
        Ast::Era(s, b) => res_bound(defs, *b, res_bound(defs, *s, bound, fuel), fuel),
        Ast::Fix(i) => res_bound(defs, *i, bound, fuel),
        Ast::Val(_) => bound,
        Ast::Fun(_) => bound,
        Ast::Perform(_, s) => res_bound(defs, *s, bound, fuel),
        Ast::Handle(c, bs) => branches_bound(defs, bs@, bs@.len() as int, res_bound(defs, *c, bound, fuel), fuel),
    }
}

/// The bound names after resolving the first `j` handler branches.
pub open spec fn branches_bound<V: PrimVal, F: PrimFun>(
    defs: Seq<(String, Ast<V, F>)>,
    bs: Seq<HandlerBranch<V, F>>,
    j: int,
    bound: Seq<String>,
    fuel: nat,
) -> Seq<String>
    decreases fuel, bs, j,
{
    if 0 < j <= bs.len() {
        let b0 = branches_bound(defs, bs, j - 1, bound, fuel);
        let br = bs[j - 1];
        without_name(
            without_name(
                res_bound(defs, *br.body, with_name(with_name(b0, br.arg_name), br.k_name), fuel),
                br.arg_name@,
            ),
            br.k_name@,
        )
    } else {
        bound
    }
}

/// `o` is `e` resolved from `bound`: the same shape, with each name that is
/// not bound and names a definition replaced by that definition's body
/// resolved (one unit of fuel less), other names, binders and labels kept.
pub open spec fn resolved_to<V: PrimVal, F: PrimFun>(
    defs: Seq<(String, Ast<V, F>)>,
    e: Ast<V, F>,
    o: Ast<V, F>,
    bound: Seq<String>,
    fuel: nat,
) -> bool
    decreases fuel, e, 0int,
{
    match e {
        Ast::Name(n) => if !names_hold(bound, n@) && has_def(defs, n@) {
            fuel > 0 && {
                let i = choose|i: int| first_def(defs, n@, i);
                resolved_to(defs, defs[i].1, o, bound, (fuel - 1) as nat)
            }
        } else {
            o matches Ast::Name(m) && m@ == n@
        },
        Ast::Abs(x, b) => o matches Ast::Abs(x2, b2) && x2@ == x@ && resolved_to(defs, *b, *b2, with_name(bound, x), fuel),
        Ast::App(f, a) => o matches Ast::App(f2, a2) && resolved_to(defs, *f, *f2, bound, fuel) && resolved_to(
            defs,
            *a,
            *a2,
            res_bound(defs, *f, bound, fuel),
            fuel,
        ),
        Ast::Rep(s, a, b, body) => o matches Ast::Rep(s2, a2, b2, body2) && a2@ == a@ && b2@ == b@
            && resolved_to(defs, *s, *s2, bound, fuel) && resolved_to(
            defs,
            *body,
            *body2,
            with_name(with_name(res_bound(defs, *s, bound, fuel), a), b),
            fuel,
        ),
        Ast::Era(s, b) => o matches Ast::Era(s2, b2) && resolved_to(defs, *s, *s2, bound, fuel) && resolved_to(
            defs,
            *b,
            *b2,
            res_bound(defs, *s, bound, fuel),
            fuel,
        ),
        Ast::Fix(i) => o matches Ast::Fix(i2) && resolved_to(defs, *i, *i2, bound, fuel),
        Ast::Val(_) => o is Val,
        Ast::Fun(_) => o is Fun,
        Ast::Perform(l, s) => o matches Ast::Perform(l2, s2) && l2@ == l@ && resolved_to(defs, *s, *s2, bound, fuel),
        Ast::Handle(c, bs) => o matches Ast::Handle(c2, bs2) && resolved_to(defs, *c, *c2, bound, fuel)
            && bs2@.len() == bs@.len() && branches_resolved(
            defs,
            bs@,
            bs2@,
            bs@.len() as int,
            res_bound(defs, *c, bound, fuel),
            fuel,
        ),
    }
}

/// The first `j` branches of `bs2` are those of `bs` resolved in turn.
pub open spec fn branches_resolved<V: PrimVal, F: PrimFun>(
    defs: Seq<(String, Ast<V, F>)>,
    bs: Seq<HandlerBranch<V, F>>,
    bs2: Seq<HandlerBranch<V, F>>,
    j: int,
    bound: Seq<String>,
    fuel: nat,
) -> bool
    decreases fuel, bs, j,
{
    if 0 < j <= bs.len() {
        let b0 = branches_bound(defs, bs, j - 1, bound, fuel);
        let br = bs[j - 1];
        &&& branches_resolved(defs, bs, bs2, j - 1, bound, fuel)
        &&& j - 1 < bs2.len()
        &&& bs2[j - 1].label@ == br.label@
        &&& bs2[j - 1].arg_name@ == br.arg_name@
        &&& bs2[j - 1].k_name@ == br.k_name@
        &&& resolved_to(defs, *br.body, *bs2[j - 1].body, with_name(with_name(b0, br.arg_name), br.k_name), fuel)
    } else {
        true
    }
}

proof fn lemma_branches_resolved_push<V: PrimVal, F: PrimFun>(
    defs: Seq<(String, Ast<V, F>)>,
    bs: Seq<HandlerBranch<V, F>>,
    bs2: Seq<HandlerBranch<V, F>>,
    x: HandlerBranch<V, F>,
    j: int,
    bound: Seq<String>,
    fuel: nat,
)
    requires
        0 <= j <= bs2.len(),
    ensures
        branches_resolved(defs, bs, bs2.push(x), j, bound, fuel) == branches_resolved(defs, bs, bs2, j, bound, fuel),
    decreases j,
{
    if j > 0 {
        lemma_branches_resolved_push(defs, bs, bs2, x, j - 1, bound, fuel);
        assert(bs2.push(x)[j - 1] == bs2[j - 1]);
    }
}

/// The names held in `names`, as a set.
pub open spec fn name_set(names: Seq<String>) -> Set<Seq<char>> {
    Set::new(|m: Seq<char>| names_hold(names, m))
}

/// Every name in `e` that is not bound (by `bound` or a binder of `e`
/// around it) is not the name of a definition: `e` refers to no definition.
pub open spec fn closed_over_defs<V: PrimVal, F: PrimFun>(
    defs: Seq<(String, Ast<V, F>)>,
    e: Ast<V, F>,
    bound: Set<Seq<char>>,
) -> bool
    decreases e, 0int,
{
    match e {
        Ast::Name(n) => bound.contains(n@) || !has_def(defs, n@),
        Ast::Abs(x, b) => closed_over_defs(defs, *b, bound.insert(x@)),
        Ast::App(f, x) => closed_over_defs(defs, *f, bound) && closed_over_defs(defs, *x, bound),
        Ast::Rep(s, a, b, body) => closed_over_defs(defs, *s, bound) && closed_over_defs(
            defs,
            *body,
            bound.insert(a@).insert(b@),
        ),
        Ast::Era(s, b) => closed_over_defs(defs, *s, bound) && closed_over_defs(defs, *b, bound),
        Ast::Fix(i) => closed_over_defs(defs, *i, bound),
        Ast::Val(_) => true,
        Ast::Fun(_) => true,
        Ast::Perform(_, s) => closed_over_defs(defs, *s, bound),
        Ast::Handle(c, bs) => closed_over_defs(defs, *c, bound) && branches_closed(defs, bs@, bs@.len() as int, bound),
    }
}

/// The bodies of the first `j` handler branches refer to no definition,
/// each under `bound` and its branch's two binders.
pub open spec fn branches_closed<V: PrimVal, F: PrimFun>(
    defs: Seq<(String, Ast<V, F>)>,
    bs: Seq<HandlerBranch<V, F>>,
    j: int,
    bound: Set<Seq<char>>,
) -> bool
    decreases bs, j,
{
    if 0 < j <= bs.len() {
        branches_closed(defs, bs, j - 1, bound) && closed_over_defs(
            defs,
            *bs[j - 1].body,
            bound.insert(bs[j - 1].arg_name@).insert(bs[j - 1].k_name@),
        )
    } else {
        true
    }
}

proof fn lemma_closed_mono<V: PrimVal, F: PrimFun>(
    defs: Seq<(String, Ast<V, F>)>,
    e: Ast<V, F>,
    b1: Set<Seq<char>>,
    b2: Set<Seq<char>>,
)
    requires
        closed_over_defs(defs, e, b1),
        b1.subset_of(b2),
    ensures
        closed_over_defs(defs, e, b2),
    decreases e, 0int,
{
    match e {
        Ast::Name(_) => {},
        Ast::Abs(x, b) => {
            assert(b1.insert(x@).subset_of(b2.insert(x@)));
            lemma_closed_mono(defs, *b, b1.insert(x@), b2.insert(x@));
        },
        Ast::App(f, x) => {
            lemma_closed_mono(defs, *f, b1, b2);
            lemma_closed_mono(defs, *x, b1, b2);
        },
        Ast::Rep(s, a, b, body) => {
            lemma_closed_mono(defs, *s, b1, b2);
            assert(b1.insert(a@).insert(b@).subset_of(b2.insert(a@).insert(b@)));
            lemma_closed_mono(defs, *body, b1.insert(a@).insert(b@), b2.insert(a@).insert(b@));
        },
        Ast::Era(s, b) => {
            lemma_closed_mono(defs, *s, b1, b2);
            lemma_closed_mono(defs, *b, b1, b2);
        },
        Ast::Fix(i) => lemma_closed_mono(defs, *i, b1, b2),
        Ast::Val(_) => {},
        Ast::Fun(_) => {},
        Ast::Perform(_, s) => lemma_closed_mono(defs, *s, b1, b2),
        Ast::Handle(c, bs) => {
            lemma_closed_mono(defs, *c, b1, b2);
            lemma_branches_closed_mono(defs, bs@, bs@.len() as int, b1, b2);
        },
    }
}

proof fn lemma_branches_closed_mono<V: PrimVal, F: PrimFun>(
    defs: Seq<(String, Ast<V, F>)>,
    bs: Seq<HandlerBranch<V, F>>,
    j: int,
    b1: Set<Seq<char>>,
    b2: Set<Seq<char>>,
)
    requires
        branches_closed(defs, bs, j, b1),
        b1.subset_of(b2),
    ensures
        branches_closed(defs, bs, j, b2),
    decreases bs, j,
{
    if 0 < j <= bs.len() {
        lemma_branches_closed_mono(defs, bs, j - 1, b1, b2);
        let x = bs[j - 1].arg_name@;
        let y = bs[j - 1].k_name@;
        assert(b1.insert(x).insert(y).subset_of(b2.insert(x).insert(y)));
        lemma_closed_mono(defs, *bs[j - 1].body, b1.insert(x).insert(y), b2.insert(x).insert(y));
    }
}

proof fn lemma_branches_closed_push<V: PrimVal, F: PrimFun>(
    defs: Seq<(String, Ast<V, F>)>,
    bs: Seq<HandlerBranch<V, F>>,
    x: HandlerBranch<V, F>,
    j: int,
    bound: Set<Seq<char>>,
)
    requires
        0 <= j <= bs.len(),
    ensures
        branches_closed(defs, bs.push(x), j, bound) == branches_closed(defs, bs, j, bound),
    decreases j,
{
    if j > 0 {
        lemma_branches_closed_push(defs, bs, x, j - 1, bound);
        assert(bs.push(x)[j - 1] == bs[j - 1]);
    }
}

/// Inline references to definitions that are not bound at the use, keeping
/// everything else; `fuel` bounds the inlining depth.
fn resolve<V: PrimVal + Clone, F: PrimFun + Clone>(
    defs: &Vec<(String, Ast<V, F>)>,
    expr: &Ast<V, F>,
    bound: &mut Vec<String>,
    fuel: usize,
) -> (r: Result<Ast<V, F>, LinError>)
    ensures
        r matches Err(e) ==> e is MutualRecursion,
        defs@.len() == 0 ==> r is Ok,
        *expr matches Ast::Name(n) ==> ((names_hold(old(bound)@, n@) || !has_def(defs@, n@)) ==> r == Ok::<
            Ast<V, F>,
            LinError,
        >(Ast::Name(n)) && final(bound)@ == old(bound)@),
        *expr matches Ast::Name(n) ==> (!names_hold(old(bound)@, n@) && has_def(defs@, n@) && fuel == 0 ==> (
        r matches Err(LinError::MutualRecursion(c)) && c@ == seq![n])),
        r is Ok ==> name_set(final(bound)@).subset_of(name_set(old(bound)@)),
        r matches Ok(e2) ==> closed_over_defs(defs@, e2, name_set(old(bound)@)),
        r is Ok ==> final(bound)@ == res_bound(defs@, *expr, old(bound)@, fuel as nat),
        r matches Ok(e2) ==> resolved_to(defs@, *expr, e2, old(bound)@, fuel as nat),
    decreases fuel, expr,
{
    let ghost b0 = bound@;
    match expr {
        Ast::Name(n) => {
            if holds(bound, n) {
                proof {
                    assert(name_set(b0).contains(n@));
                }
                Ok(Ast::Name(n.clone()))
            } else {
                match find_def(defs, n) {
                    Some(i) => {
                        if fuel == 0 {
                            let mut cycle: Vec<String> = Vec::new();
                            cycle.push(n.clone());
                            assert(cycle@ =~= seq![*n]);
                            return Err(LinError::MutualRecursion(cycle));
                        }
                        proof {
                            assert forall|q: int| #[trigger] first_def(defs@, n@, q) implies q == i as int by {
                                if q < i {
                                    assert(defs@[q].0@ != n@);
                                } else if q > i {
                                    assert(defs@[i as int].0@ != n@);
                                }
                            }
                            assert(has_def(defs@, n@));
                        }
                        resolve(defs, &defs[i].1, bound, fuel - 1)
                    },
                    None => Ok(Ast::Name(n.clone())),
                }
            }
        },
        Ast::Abs(x, body) => {
            set_insert(bound, x);
            let ghost b1 = bound@;
            proof {
                assert(name_set(b1) =~= name_set(b0).insert(x@));
            }
            let body2 = match resolve(defs, body, bound, fuel) {
                Ok(b) => b,
                Err(e) => {
                    return Err(e);
                },
            };
            let ghost b2 = bound@;
            set_remove(bound, x);
            proof {
                assert forall|m: Seq<char>| name_set(bound@).contains(m) implies name_set(b0).contains(m) by {
                    assert(names_hold(bound@, m));
                    assert(names_hold(b2, m) && m != x@);
                    assert(name_set(b2).contains(m));
                    assert(name_set(b1).contains(m));
                }
            }
            Ok(Ast::Abs(x.clone(), Box::new(body2)))
        },
        Ast::App(f, x) => {
            let f2 = match resolve(defs, f, bound, fuel) {
                Ok(b) => b,
                Err(e) => {
                    return Err(e);
                },
            };
            let ghost b1 = bound@;
            let x2 = match resolve(defs, x, bound, fuel) {
                Ok(b) => b,
                Err(e) => {
                    return Err(e);
                },
            };
            proof {
                lemma_closed_mono(defs@, x2, name_set(b1), name_set(b0));
            }
            Ok(Ast::App(Box::new(f2), Box::new(x2)))
        },
        Ast::Rep(e, a, b, body) => {
            let e2 = match resolve(defs, e, bound, fuel) {
                Ok(v) => v,
                Err(err) => {
                    return Err(err);
                },
            };
            let ghost b1 = bound@;
            set_insert(bound, a);
            set_insert(bound, b);
            let ghost b3 = bound@;
            proof {
                assert(name_set(b3) =~= name_set(b1).insert(a@).insert(b@));
            }
            let body2 = match resolve(defs, body, bound, fuel) {
                Ok(v) => v,
                Err(err) => {
                    return Err(err);
                },
            };
            let ghost b4 = bound@;
            set_remove(bound, a);
            let ghost b5 = bound@;
            set_remove(bound, b);
            proof {
                assert(name_set(b1).insert(a@).insert(b@).subset_of(name_set(b0).insert(a@).insert(b@)));
                lemma_closed_mono(defs@, body2, name_set(b3), name_set(b0).insert(a@).insert(b@));
                assert forall|m: Seq<char>| name_set(bound@).contains(m) implies name_set(b0).contains(m) by {
                    assert(names_hold(bound@, m));
                    assert(names_hold(b5, m) && m != b@);
                    assert(names_hold(b4, m) && m != a@);
                    assert(name_set(b4).contains(m));
                    assert(name_set(b3).contains(m));
                    assert(name_set(b1).contains(m));
                }
            }
            Ok(Ast::Rep(Box::new(e2), a.clone(), b.clone(), Box::new(body2)))
        },
        Ast::Era(e, body) => {
            let e2 = match resolve(defs, e, bound, fuel) {
                Ok(v) => v,
                Err(err) => {
                    return Err(err);
                },
            };
            let ghost b1 = bound@;
            let body2 = match resolve(defs, body, bound, fuel) {
                Ok(v) => v,
                Err(err) => {
                    return Err(err);
                },
            };
            proof {
                lemma_closed_mono(defs@, body2, name_set(b1), name_set(b0));
            }
            Ok(Ast::Era(Box::new(e2), Box::new(body2)))
        },
        Ast::Fix(e) => match resolve(defs, e, bound, fuel) {
            Ok(v) => Ok(Ast::Fix(Box::new(v))),
            Err(err) => Err(err),
        },
        Ast::Perform(label, e) => match resolve(defs, e, bound, fuel) {
            Ok(v) => Ok(Ast::Perform(label.clone(), Box::new(v))),
            Err(err) => Err(err),
        },
        Ast::Handle(comp, branches) => {
            let comp2 = match resolve(defs, comp, bound, fuel) {
                Ok(v) => v,
                Err(err) => {
                    return Err(err);
                },
            };
            let ghost b1 = bound@;
            let mut out: Vec<HandlerBranch<V, F>> = Vec::new();
            let mut j: usize = 0;
            while j < branches.len()
                invariant
                    *expr == Ast::Handle(*comp, *branches),
                    j <= branches@.len(),
                    out@.len() == j,
                    name_set(bound@).subset_of(name_set(b0)),
                    branches_closed(defs@, out@, j as int, name_set(b0)),
                    b1 == res_bound(defs@, **comp, b0, fuel as nat),
                    bound@ == branches_bound(defs@, branches@, j as int, b1, fuel as nat),
                    branches_resolved(defs@, branches@, out@, j as int, b1, fuel as nat),
                decreases branches@.len() - j,
            {
                let br = &branches[j];
                proof {
                    assert(decreases_to!(*expr => (*expr)->Handle_1));
                    assert(decreases_to!(*branches => branches@));
                    assert(decreases_to!(branches@ => branches@[j as int]));
                    assert(decreases_to!(branches@[j as int] => branches@[j as int].body));
                    assert(branches@[j as int] == *br);
                }
                let ghost c0 = bound@;
                set_insert(bound, &br.arg_name);
                set_insert(bound, &br.k_name);
                let ghost c2 = bound@;
                proof {
                    assert(name_set(c2) =~= name_set(c0).insert(br.arg_name@).insert(br.k_name@));
                }
                let body2 = match resolve(defs, &br.body, bound, fuel) {
                    Ok(v) => v,
                    Err(err) => {
                        return Err(err);
                    },
                };
                let ghost c3 = bound@;
                set_remove(bound, &br.arg_name);
                let ghost c4 = bound@;
                set_remove(bound, &br.k_name);
                proof {
                    assert forall|m: Seq<char>| name_set(bound@).contains(m) implies name_set(c0).contains(m) by {
                        assert(names_hold(bound@, m));
                        assert(names_hold(c4, m) && m != br.k_name@);
                        assert(names_hold(c3, m) && m != br.arg_name@);
                        assert(name_set(c3).contains(m));
                        assert(name_set(c2).contains(m));
                    }
                }
                let nb = HandlerBranch {
                    label: br.label.clone(),
                    arg_name: br.arg_name.clone(),
                    k_name: br.k_name.clone(),
                    body: Box::new(body2),
                };
                proof {
                    lemma_branches_resolved_push(defs@, branches@, out@, nb, j as int, b1, fuel as nat);
                    let bs0 = name_set(b0).insert(br.arg_name@).insert(br.k_name@);
                    assert(name_set(c2).subset_of(bs0));
                    lemma_closed_mono(defs@, body2, name_set(c2), bs0);
                    lemma_branches_closed_push(defs@, out@, nb, j as int, name_set(b0));
                    assert(name_set(bound@).subset_of(name_set(c0)));
                }
                out.push(nb);
                proof {
                    assert(out@[j as int] == nb);
                }
                j = j + 1;
            }
            Ok(Ast::Handle(Box::new(comp2), out))
        },
        Ast::Val(v) => Ok(Ast::Val(v.clone())),
        Ast::Fun(f) => Ok(Ast::Fun(f.clone())),
    }
}

/// Resolve `expr` against `defs` (name, body pairs; the first of a name
/// counts): references to definitions not bound at the use are replaced by
/// the resolved body. Definitions referring to each other in a cycle are an
/// error. Fixpoints stay as they are.
pub fn pass0<V: PrimVal + Clone, F: PrimFun + Clone>(defs: &Vec<(String, Ast<V, F>)>, expr: &Ast<V, F>) -> (r: Result<
    Ast<V, F>,
    LinError,
>)
    ensures
        r matches Err(e) ==> e is MutualRecursion,
        (exists|i: int| 0 <= i < defs@.len() && refers_to_itself(defs@, (#[trigger] defs@[i]).0@)) ==> r is Err,
        (exists|a: Seq<char>, b: Seq<char>| #[trigger] refers_to(defs@, a, b) && #[trigger] refers_to(defs@, b, a))
            ==> r is Err,
        r is Ok ==> defs_well_founded(defs@),
        r matches Ok(e2) ==> closed_over_defs(defs@, e2, Set::empty()),
        r matches Ok(e2) ==> resolved_to(
            defs@,
            *expr,
            e2,
            Seq::empty(),
            (if defs@.len() < usize::MAX { defs@.len() + 1 } else { defs@.len() }) as nat,
        ),
        defs@.len() == 0 ==> r is Ok,
{
    match topo_check(defs) {
        Ok(()) => {},
        Err(e) => {
            return Err(e);
        },
    }
    proof {
        if exists|a: Seq<char>, b: Seq<char>| #[trigger] refers_to(defs@, a, b) && #[trigger] refers_to(defs@, b, a) {
            let (a, b) = choose|a: Seq<char>, b: Seq<char>| #[trigger] refers_to(defs@, a, b) && #[trigger] refers_to(defs@, b, a);
            lemma_mutual_pair_not_well_founded(defs@, a, b);
        }
    }
    let mut bound: Vec<String> = Vec::new();
    proof {
        assert(name_set(bound@) =~= Set::<Seq<char>>::empty());
        assert(bound@ =~= Seq::<String>::empty());
    }
    let fuel = if defs.len() < usize::MAX { defs.len() + 1 } else { defs.len() };
    resolve(defs, expr, &mut bound, fuel)
}

} // verus!
