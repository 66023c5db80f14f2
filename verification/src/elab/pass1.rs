//! Pass 1: the linearity check, the class flags, and the usage level of
//! every name.
use vstd::prelude::*;
use crate::ast::{
    Ast, HandlerBranch, PrimFun, PrimVal, branches_count_free, branches_has_era, branches_has_rep,
    branches_linear, count_free, has_era, has_rep, linear,
};
use crate::error::LinError;

verus! {

/// The flags that select the net class, and the level at which each name
/// was last used.
pub struct Pass1Result {
    pub era_used: bool,
    pub rep_used: bool,
    pub usage_levels: Vec<(String, u32)>,
}

impl Pass1Result {
    /// The recorded level of `name`.
    pub fn level_of(&self, name: &str) -> (r: Option<u32>)
        ensures
            r matches Some(l) ==> exists|i: int|
                0 <= i < self.usage_levels@.len() && (#[trigger] self.usage_levels@[i]).0@ == name@
                    && self.usage_levels@[i].1 == l,
            r is None ==> forall|i: int|
                0 <= i < self.usage_levels@.len() ==> (#[trigger] self.usage_levels@[i]).0@ != name@,
    {
        level_in(&self.usage_levels, name)
    }
}

/// The level recorded for `name` in `levels`.
pub fn level_in(levels: &Vec<(String, u32)>, name: &str) -> (r: Option<u32>)
    ensures
        r matches Some(l) ==> exists|i: int|
            0 <= i < levels@.len() && (#[trigger] levels@[i]).0@ == name@ && levels@[i].1 == l,
        r is None ==> forall|i: int| 0 <= i < levels@.len() ==> (#[trigger] levels@[i]).0@ != name@,
{
    let key = name.to_owned();
    let mut i: usize = 0;
    while i < levels.len()
        invariant
            i <= levels@.len(),
            key@ == name@,
            forall|j: int| 0 <= j < i ==> (#[trigger] levels@[j]).0@ != name@,
        decreases levels@.len() - i,
    {
        if levels[i].0 == key {
            return Some(levels[i].1);
        }
        i = i + 1;
    }
    None
}

/// `c + k`, saturating at `u32::MAX`.
pub open spec fn bump(c: u32, k: nat) -> u32 {
    if c + k > u32::MAX {
        u32::MAX
    } else {
        (c + k) as u32
    }
}

/// Frame `k` is the innermost binder of its name.
pub open spec fn frame_visible(frames: Seq<(String, u32)>, k: int) -> bool {
    forall|k2: int| k < k2 < frames.len() ==> (#[trigger] frames[k2]).0@ != frames[k].0@
}

/// The uses in `e` that count for frame `k`.
pub open spec fn frame_gain<V: PrimVal, F: PrimFun>(frames: Seq<(String, u32)>, k: int, e: Ast<V, F>) -> nat {
    if frame_visible(frames, k) {
        count_free(e, frames[k].0@)
    } else {
        0
    }
}

/// Count one use of `n`: the innermost binder named `n`.
fn increment(frames: &mut Vec<(String, u32)>, n: &String)
    ensures
        final(frames)@.len() == old(frames)@.len(),
        forall|k: int| 0 <= k < old(frames)@.len() ==> (#[trigger] final(frames)@[k]).0 == old(frames)@[k].0,
        forall|k: int|
            0 <= k < old(frames)@.len() ==> (#[trigger] final(frames)@[k]).1 == bump(
                old(frames)@[k].1,
                if frame_visible(old(frames)@, k) && old(frames)@[k].0@ == n@ {
                    1nat
                } else {
                    0nat
                },
            ),
{
    let mut i = frames.len();
    while i > 0
        invariant
            i <= frames@.len(),
            frames@ == old(frames)@,
            forall|k2: int| i <= k2 < frames@.len() ==> (#[trigger] frames@[k2]).0@ != n@,
        decreases i,
    {
        if frames[i - 1].0 == *n {
            let c = frames[i - 1].1;
            let nc = if c == u32::MAX {
                c
            } else {
                c + 1
            };
            let name = frames[i - 1].0.clone();
            frames.set(i - 1, (name, nc));
            proof {
                assert forall|k: int| 0 <= k < old(frames)@.len() implies (#[trigger] frames@[k]).1 == bump(
                    old(frames)@[k].1,
                    if frame_visible(old(frames)@, k) && old(frames)@[k].0@ == n@ {
                        1nat
                    } else {
                        0nat
                    },
                ) by {
                    if k < i - 1 && old(frames)@[k].0@ == n@ {
                        assert(!frame_visible(old(frames)@, k)) by {
                            assert(old(frames)@[i - 1].0@ == n@);
                        }
                    }
                }
            }
            return;
        }
        i = i - 1;
    }
}

proof fn lemma_visible_names(f0: Seq<(String, u32)>, f1: Seq<(String, u32)>, k: int)
    requires
        f0.len() == f1.len(),
        forall|i: int| 0 <= i < f0.len() ==> (#[trigger] f1[i]).0 == f0[i].0,
        0 <= k < f0.len(),
    ensures
        frame_visible(f1, k) == frame_visible(f0, k),
{
    if frame_visible(f0, k) {
        assert forall|k2: int| k < k2 < f1.len() implies (#[trigger] f1[k2]).0@ != f1[k].0@ by {
            assert(f1[k2].0 == f0[k2].0);
            assert(f1[k].0 == f0[k].0);
        }
    }
    if frame_visible(f1, k) {
        assert forall|k2: int| k < k2 < f0.len() implies (#[trigger] f0[k2]).0@ != f0[k].0@ by {
            assert(f1[k2].0 == f0[k2].0);
            assert(f1[k].0 == f0[k].0);
        }
    }
}

proof fn lemma_bump_add(c: u32, a: nat, b: nat)
    ensures
        bump(bump(c, a), b) == bump(c, a + b),
{
}

proof fn lemma_visible_push(frames: Seq<(String, u32)>, e: (String, u32), k: int)
    requires
        0 <= k < frames.len(),
    ensures
        frame_visible(frames.push(e), k) == (frame_visible(frames, k) && frames[k].0@ != e.0@),
{
    let f2 = frames.push(e);
    assert(f2[k] == frames[k]);
    assert(f2[frames.len() as int] == e);
    if frame_visible(frames, k) && frames[k].0@ != e.0@ {
        assert forall|k2: int| k < k2 < f2.len() implies (#[trigger] f2[k2]).0@ != f2[k].0@ by {
            if k2 < frames.len() {
                assert(f2[k2] == frames[k2]);
            }
        }
    }
    if frame_visible(f2, k) {
        assert forall|k2: int| k < k2 < frames.len() implies (#[trigger] frames[k2]).0@ != frames[k].0@ by {
            assert(f2[k2] == frames[k2]);
        }
    }
}

/// Uses of `n` in handler branches `0..j`.
pub open spec fn branches_count_upto<V: PrimVal, F: PrimFun>(bs: Seq<HandlerBranch<V, F>>, j: int, n: Seq<char>) -> nat
    decreases j,
{
    if j <= 0 || j > bs.len() {
        0
    } else {
        branches_count_upto(bs, j - 1, n) + (if bs[j - 1].arg_name@ == n || bs[j - 1].k_name@ == n {
            0
        } else {
            count_free(*bs[j - 1].body, n)
        })
    }
}

proof fn lemma_count_upto<V: PrimVal, F: PrimFun>(bs: Seq<HandlerBranch<V, F>>, j: int, n: Seq<char>)
    requires
        0 <= j <= bs.len(),
    ensures
        branches_count_upto(bs, j, n) + branches_count_free(bs, j, n) == branches_count_free(bs, 0, n),
    decreases j,
{
    if j > 0 {
        lemma_count_upto(bs, j - 1, n);
    }
}

/// Where `n` first stands in `levels`, if it does.
pub open spec fn level_pos(levels: Seq<(String, u32)>, n: Seq<char>) -> Option<int> {
    if exists|i: int| 0 <= i < levels.len() && (#[trigger] levels[i]).0@ == n {
        Some(
            choose|i: int|
                0 <= i < levels.len() && (#[trigger] levels[i]).0@ == n && forall|j: int|
                    0 <= j < i ==> (#[trigger] levels[j]).0@ != n,
        )
    } else {
        None
    }
}

/// `levels` after one use `u`: the name's first entry takes the use's
/// level; a name not yet there is added at the end.
pub open spec fn record_one(levels: Seq<(String, u32)>, u: (String, u32)) -> Seq<(String, u32)> {
    match level_pos(levels, u.0@) {
        Some(i) => levels.update(i, (levels[i].0, u.1)),
        None => levels.push(u),
    }
}

/// `levels` after recording each of `uses` in turn.
#[verifier::opaque]
pub open spec fn recorded(levels: Seq<(String, u32)>, uses: Seq<(String, u32)>) -> Seq<(String, u32)>
    decreases uses.len(),
{
    if uses.len() == 0 {
        levels
    } else {
        record_one(recorded(levels, uses.drop_last()), uses.last())
    }
}

proof fn lemma_recorded_empty(levels: Seq<(String, u32)>)
    ensures
        recorded(levels, Seq::empty()) == levels,
{
    reveal(recorded);
}

proof fn lemma_recorded_base(levels: Seq<(String, u32)>, u: (String, u32))
    ensures
        recorded(levels, Seq::empty()) == levels,
        recorded(levels, seq![u]) == record_one(levels, u),
{
    reveal_with_fuel(recorded, 2);
    assert(seq![u].drop_last() =~= Seq::<(String, u32)>::empty());
}

proof fn lemma_recorded_add(levels: Seq<(String, u32)>, a: Seq<(String, u32)>, b: Seq<(String, u32)>)
    ensures
        recorded(levels, a + b) == recorded(recorded(levels, a), b),
    decreases b.len(),
{
    reveal(recorded);
    if b.len() == 0 {
        assert(a + b =~= a);
    } else {
        lemma_recorded_add(levels, a, b.drop_last());
        assert((a + b).drop_last() =~= a + b.drop_last());
        assert((a + b).last() == b.last());
    }
}

/// The uses of names in `e` at `level`, in order, each with its level: a
/// function's argument is used one level deeper.
pub open spec fn uses_of<V: PrimVal, F: PrimFun>(e: Ast<V, F>, level: u32) -> Seq<(String, u32)>
    decreases e, 0int,
{
    match e {
        Ast::Name(n) => seq![(n, level)],
        Ast::Abs(_, b) => uses_of(*b, level),
        Ast::App(f, a) => uses_of(*f, level) + uses_of(
            *a,
            if level == u32::MAX {
                level
            } else {
                (level + 1) as u32
            },
        ),
        Ast::Rep(s, _, _, b) => uses_of(*s, level) + uses_of(*b, level),
        Ast::Era(s, b) => uses_of(*s, level) + uses_of(*b, level),
        Ast::Fix(i) => uses_of(*i, level),
        Ast::Val(_) => Seq::empty(),
        Ast::Fun(_) => Seq::empty(),
        Ast::Perform(_, s) => uses_of(*s, level),
        Ast::Handle(c, bs) => uses_of(*c, level) + branches_uses(bs@, bs@.len() as int, level),
    }
}

/// The uses in the bodies of the first `j` handler branches.
pub open spec fn branches_uses<V: PrimVal, F: PrimFun>(bs: Seq<HandlerBranch<V, F>>, j: int, level: u32) -> Seq<(String, u32)>
    decreases bs, j,
{
    if 0 < j <= bs.len() {
        branches_uses(bs, j - 1, level) + uses_of(*bs[j - 1].body, level)
    } else {
        Seq::empty()
    }
}

/// Record that `n` was used at `level`.
fn record_level(levels: &mut Vec<(String, u32)>, n: &String, level: u32)
    ensures
        forall|i: int|
            0 <= i < old(levels)@.len() && (#[trigger] old(levels)@[i]).0@ == n@ && (forall|j: int|
                0 <= j < i ==> (#[trigger] old(levels)@[j]).0@ != n@) ==> final(levels)@
                == old(levels)@.update(i, (old(levels)@[i].0, level)),
        (forall|i: int| 0 <= i < old(levels)@.len() ==> (#[trigger] old(levels)@[i]).0@ != n@)
            ==> final(levels)@ == old(levels)@.push((*n, level)),
        final(levels)@ == record_one(old(levels)@, (*n, level)),
{
    let mut i: usize = 0;
    while i < levels.len()
        invariant
            i <= levels@.len(),
            levels@ == old(levels)@,
            forall|j: int| 0 <= j < i ==> (#[trigger] levels@[j]).0@ != n@,
        decreases levels@.len() - i,
    {
        if levels[i].0 == *n {
            let k = levels[i].0.clone();
            levels.set(i, (k, level));
            proof {
                let o = old(levels)@;
                let c = choose|q: int|
                    0 <= q < o.len() && (#[trigger] o[q]).0@ == n@ && forall|j: int|
                        0 <= j < q ==> (#[trigger] o[j]).0@ != n@;
                assert(o[i as int].0@ == n@);
                assert(c == i as int) by {
                    if c < i {
                        assert(o[c].0@ != n@);
                    } else if c > i {
                        assert(o[i as int].0@ != n@);
                    }
                }
            }
            return;
        }
        i = i + 1;
    }
    levels.push((n.clone(), level));
}

fn pop_count(frames: &mut Vec<(String, u32)>) -> (c: u32)
    requires
        old(frames)@.len() > 0,
    ensures
        final(frames)@ == old(frames)@.drop_last(),
        c == old(frames)@.last().1,
{
    match frames.pop() {
        Some(p) => p.1,
        None => 0,
    }
}

/// Check that binder `name`, used `n` times, is used exactly once.
fn check_once(name: &String, n: u32) -> (r: Result<(), LinError>)
    ensures
        r is Ok <==> n == 1,
        r matches Err(e) ==> e is Unused || e is MultiUse,
{
    if n == 0 {
        return Err(LinError::Unused(name.clone()));
    }
    if n > 1 {
        return Err(LinError::MultiUse(name.clone(), n));
    }
    Ok(())
}

/// Frames after `collect` on `e`: same names, counts raised by the uses of
/// `e` that count for them.
pub open spec fn collected<V: PrimVal, F: PrimFun>(old: Seq<(String, u32)>, fin: Seq<(String, u32)>, e: Ast<V, F>) -> bool {
    &&& fin.len() == old.len()
    &&& forall|k: int| 0 <= k < old.len() ==> (#[trigger] fin[k]).0 == old[k].0
    &&& forall|k: int| 0 <= k < old.len() ==> (#[trigger] fin[k]).1 == bump(old[k].1, frame_gain(old, k, e))
}

#[verifier::spinoff_prover]
#[verifier::rlimit(60)]
fn collect<V: PrimVal, F: PrimFun>(
    level: u32,
    frames: &mut Vec<(String, u32)>,
    result: &mut Pass1Result,
    expr: &Ast<V, F>,
) -> (r: Result<(), LinError>)
    ensures
        r is Ok <==> linear(*expr),
        r matches Err(e) ==> e is Unused || e is MultiUse,
        r is Ok ==> collected(old(frames)@, final(frames)@, *expr),
        r is Ok ==> final(result).rep_used == (old(result).rep_used || has_rep(*expr)),
        r is Ok ==> final(result).era_used == (old(result).era_used || has_era(*expr)),
        r is Ok ==> final(result).usage_levels@ == recorded(old(result).usage_levels@, uses_of(*expr, level)),
    decreases expr,
{
    let ghost f0 = frames@;
    let ghost u0 = result.usage_levels@;
    match expr {
        Ast::Name(n) => {
            increment(frames, n);
            record_level(&mut result.usage_levels, n, level);
            proof {
                lemma_recorded_base(u0, (*n, level));
            }
            Ok(())
        },
        Ast::Abs(x, body) => {
            frames.push((x.clone(), 0));
            let ghost f1 = frames@;
            match collect(level, frames, result, body) {
                Ok(()) => {},
                Err(e) => {
                    return Err(e);
                },
            }
            let ghost f2 = frames@;
            let n = pop_count(frames);
            proof {
                assert(frame_visible(f1, f0.len() as int));
                assert(f2[f0.len() as int].1 == bump(0, count_free(**body, x@)));
                assert forall|k: int| 0 <= k < f0.len() implies (#[trigger] frames@[k]).1 == bump(
                    f0[k].1,
                    frame_gain(f0, k, *expr),
                ) by {
                    lemma_visible_push(f0, (*x, 0u32), k);
                    assert(f1[k] == f0[k]);
                    assert(frames@[k] == f2[k]);
                }
                assert forall|k: int| 0 <= k < f0.len() implies (#[trigger] frames@[k]).0 == f0[k].0 by {
                    assert(f1[k] == f0[k]);
                    assert(frames@[k] == f2[k]);
                }
            }
            check_once(x, n)
        },
        Ast::App(f, a) => {
            match collect(level, frames, result, f) {
                Ok(()) => {},
                Err(e) => {
                    return Err(e);
                },
            }
            let ghost f1 = frames@;
            let ghost u1 = result.usage_levels@;
            let l2 = if level == u32::MAX {
                level
            } else {
                level + 1
            };
            match collect(l2, frames, result, a) {
                Ok(()) => {},
                Err(e) => {
                    return Err(e);
                },
            }
            proof {
                lemma_recorded_add(u0, uses_of(**f, level), uses_of(**a, l2));
                assert forall|k: int| 0 <= k < f0.len() implies (#[trigger] frames@[k]).1 == bump(
                    f0[k].1,
                    frame_gain(f0, k, *expr),
                ) by {
                    lemma_visible_names(f0, f1, k);
                    lemma_bump_add(f0[k].1, frame_gain(f0, k, **f), frame_gain(f0, k, **a));
                }
            }
            Ok(())
        },
        Ast::Rep(e, a, b, body) => {
            result.rep_used = true;
            match collect(level, frames, result, e) {
                Ok(()) => {},
                Err(err) => {
                    return Err(err);
                },
            }
            let ghost f1 = frames@;
            proof {
                lemma_recorded_add(u0, uses_of(**e, level), uses_of(**body, level));
            }
            frames.push((a.clone(), 0));
            let ghost f2 = frames@;
            frames.push((b.clone(), 0));
            let ghost f3 = frames@;
            match collect(level, frames, result, body) {
                Ok(()) => {},
                Err(err) => {
                    return Err(err);
                },
            }
            let ghost f4 = frames@;
            let nb = pop_count(frames);
            let na = pop_count(frames);
            proof {
                let la = f0.len() as int;
                assert(f3[la] == (*a, 0u32));
                assert(f3[la + 1] == (*b, 0u32));
                lemma_visible_push(f2, (*b, 0u32), la);
                assert(frame_visible(f2, la));
                assert(frame_visible(f3, la + 1));
                assert(f4[la].1 == bump(0, frame_gain(f3, la, **body)));
                assert(f4[la + 1].1 == bump(0, count_free(**body, b@)));
                assert(na == f4[la].1);
                assert(nb == f4[la + 1].1);
                assert forall|k: int| 0 <= k < f0.len() implies (#[trigger] frames@[k]).1 == bump(
                    f0[k].1,
                    frame_gain(f0, k, *expr),
                ) && frames@[k].0 == f0[k].0 by {
                    lemma_visible_names(f0, f1, k);
                    lemma_visible_push(f1, (*a, 0u32), k);
                    lemma_visible_push(f2, (*b, 0u32), k);
                    assert(f2[k] == f1[k] && f3[k] == f1[k]);
                    assert(frames@[k] == f4[k]);
                    lemma_bump_add(f0[k].1, frame_gain(f0, k, **e), frame_gain(f3, k, **body));
                }
            }
            match check_once(a, na) {
                Ok(()) => {},
                Err(err) => {
                    return Err(err);
                },
            }
            check_once(b, nb)
        },
        Ast::Era(e, body) => {
            result.era_used = true;
            match collect(level, frames, result, e) {
                Ok(()) => {},
                Err(err) => {
                    return Err(err);
                },
            }
            let ghost f1 = frames@;
            proof {
                lemma_recorded_add(u0, uses_of(**e, level), uses_of(**body, level));
            }
            match collect(level, frames, result, body) {
                Ok(()) => {},
                Err(err) => {
                    return Err(err);
                },
            }
            proof {
                assert forall|k: int| 0 <= k < f0.len() implies (#[trigger] frames@[k]).1 == bump(
                    f0[k].1,
                    frame_gain(f0, k, *expr),
                ) by {
                    lemma_visible_names(f0, f1, k);
                    lemma_bump_add(f0[k].1, frame_gain(f0, k, **e), frame_gain(f0, k, **body));
                }
            }
            Ok(())
        },
        Ast::Fix(inner) => collect(level, frames, result, inner),
        Ast::Perform(_, e) => collect(level, frames, result, e),
        Ast::Val(_) => {
            proof {
                lemma_recorded_empty(u0);
            }
            Ok(())
        },
        Ast::Fun(_) => {
            proof {
                lemma_recorded_empty(u0);
            }
            Ok(())
        },
        Ast::Handle(comp, branches) => {
            match collect(level, frames, result, comp) {
                Ok(()) => {},
                Err(err) => {
                    return Err(err);
                },
            }
            let ghost f1 = frames@;
            proof {
                assert(uses_of(**comp, level) + branches_uses(branches@, 0, level) =~= uses_of(**comp, level));
            }
            let ghost rep1 = result.rep_used;
            let ghost era1 = result.era_used;
            let mut j: usize = 0;
            while j < branches.len()
                invariant
                    j <= branches@.len(),
                    *expr == Ast::Handle(*comp, *branches),
                    f1.len() == f0.len(),
                    forall|k: int| 0 <= k < f0.len() ==> (#[trigger] f1[k]).0 == f0[k].0,
                    frames@.len() == f0.len(),
                    forall|k: int| 0 <= k < f0.len() ==> (#[trigger] frames@[k]).0 == f0[k].0,
                    forall|k: int|
                        0 <= k < f0.len() ==> (#[trigger] frames@[k]).1 == bump(
                            f1[k].1,
                            if frame_visible(f0, k) {
                                branches_count_upto(branches@, j as int, f0[k].0@)
                            } else {
                                0
                            },
                        ),
                    branches_linear(branches@, 0) == branches_linear(branches@, j as int),
                    (result.rep_used || branches_has_rep(branches@, j as int)) == (rep1
                        || branches_has_rep(branches@, 0)),
                    (result.era_used || branches_has_era(branches@, j as int)) == (era1
                        || branches_has_era(branches@, 0)),
                    result.usage_levels@ == recorded(u0, uses_of(**comp, level) + branches_uses(branches@, j as int, level)),
                decreases branches@.len() - j,
            {
                let br = &branches[j];
                proof {
                    assert(branches@[j as int] == *br);
                    assert(decreases_to!(*expr => (*expr)->Handle_1));
                    assert(decreases_to!(*branches => branches@));
                    assert(decreases_to!(branches@ => branches@[j as int]));
                    assert(decreases_to!(branches@[j as int] => branches@[j as int].body));
                }
                let ghost g0 = frames@;
                let ghost ub = result.usage_levels@;
                frames.push((br.arg_name.clone(), 0));
                let ghost g1 = frames@;
                frames.push((br.k_name.clone(), 0));
                let ghost g2 = frames@;
                match collect(level, frames, result, &br.body) {
                    Ok(()) => {},
                    Err(err) => {
                        return Err(err);
                    },
                }
                let ghost g3 = frames@;
                proof {
                    let pre = uses_of(**comp, level) + branches_uses(branches@, j as int, level);
                    lemma_recorded_add(u0, pre, uses_of(*br.body, level));
                    assert(branches_uses(branches@, j + 1, level) == branches_uses(branches@, j as int, level)
                        + uses_of(*branches@[j as int].body, level));
                    assert(pre + uses_of(*br.body, level) =~= uses_of(**comp, level) + branches_uses(
                        branches@,
                        j + 1,
                        level,
                    ));
                }
                let nk = pop_count(frames);
                let na = pop_count(frames);
                proof {
                    let la = f0.len() as int;
                    assert(g2[la] == (br.arg_name, 0u32));
                    assert(g2[la + 1] == (br.k_name, 0u32));
                    lemma_visible_push(g1, (br.k_name, 0u32), la);
                    assert(frame_visible(g1, la));
                    assert(frame_visible(g2, la + 1));
                    assert(na == g3[la].1);
                    assert(nk == g3[la + 1].1);
                    assert forall|k: int| 0 <= k < f0.len() implies (#[trigger] frames@[k]).1 == bump(
                        f1[k].1,
                        if frame_visible(f0, k) {
                            branches_count_upto(branches@, j + 1, f0[k].0@)
                        } else {
                            0
                        },
                    ) && frames@[k].0 == f0[k].0 by {
                        assert(g0[k].0 == f0[k].0);
                        lemma_visible_names(f0, g0, k);
                        lemma_visible_push(g0, (br.arg_name, 0u32), k);
                        lemma_visible_push(g1, (br.k_name, 0u32), k);
                        assert(g1[k] == g0[k] && g2[k] == g0[k]);
                        assert(frames@[k] == g3[k]);
                        let before: nat = if frame_visible(f0, k) {
                            branches_count_upto(branches@, j as int, f0[k].0@)
                        } else {
                            0
                        };
                        lemma_bump_add(f1[k].1, before, frame_gain(g2, k, *br.body));
                    }
                }
                match check_once(&br.arg_name, na) {
                    Ok(()) => {},
                    Err(err) => {
                        return Err(err);
                    },
                }
                match check_once(&br.k_name, nk) {
                    Ok(()) => {},
                    Err(err) => {
                        return Err(err);
                    },
                }
                j = j + 1;
            }
            proof {
                assert forall|k: int| 0 <= k < f0.len() implies (#[trigger] frames@[k]).1 == bump(
                    f0[k].1,
                    frame_gain(f0, k, *expr),
                ) by {
                    lemma_count_upto(branches@, branches@.len() as int, f0[k].0@);
                    lemma_visible_names(f0, f1, k);
                    let bc: nat = if frame_visible(f0, k) {
                        branches_count_upto(branches@, branches@.len() as int, f0[k].0@)
                    } else {
                        0
                    };
                    lemma_bump_add(f0[k].1, frame_gain(f0, k, **comp), bc);
                }
            }
            Ok(())
        },
    }
}

/// Check linearity and collect the class flags and usage levels of a
/// resolved term. A function argument is used one level deeper than the
/// function.
pub fn pass1<V: PrimVal, F: PrimFun>(expr: &Ast<V, F>) -> (r: Result<Pass1Result, LinError>)
    ensures
        r is Ok <==> linear(*expr),
        r matches Err(e) ==> e is Unused || e is MultiUse,
        r matches Ok(p) ==> p.rep_used == has_rep(*expr) && p.era_used == has_era(*expr),
        r matches Ok(p) ==> p.usage_levels@ == recorded(Seq::empty(), uses_of(*expr, 0)),
{
    let mut result = Pass1Result { era_used: false, rep_used: false, usage_levels: Vec::new() };
    let mut frames: Vec<(String, u32)> = Vec::new();
    proof {
        assert(result.usage_levels@ =~= Seq::<(String, u32)>::empty());
    }
    match collect(0, &mut frames, &mut result, expr) {
        Ok(()) => Ok(result),
        Err(e) => Err(e),
    }
}

} // verus!
