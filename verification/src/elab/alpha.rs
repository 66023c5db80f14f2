//! Renaming every binder of a term to a name of its own.
use vstd::prelude::*;
use crate::ast::{Ast, HandlerBranch, PrimFun, PrimVal, ast_binders, branches_binders};
use crate::text::{all_distinct, fresh_name, lemma_fresh_distinct, mint_name};

verus! {

/// `outs` are `ins` minted in order with the numbers from `n` on.
pub open spec fn minted_from(ins: Seq<Seq<char>>, outs: Seq<Seq<char>>, n: nat) -> bool {
    &&& outs.len() == ins.len()
    &&& forall|i: int| 0 <= i < outs.len() ==> #[trigger] outs[i] == fresh_name(ins[i], (n + i) as nat)
}

/// The name `n` is renamed to under `env`: the latest binding of `n`.
pub open spec fn env_lookup(env: Seq<(String, String)>, n: Seq<char>) -> Option<Seq<char>>
    decreases env.len(),
{
    if env.len() == 0 {
        None
    } else if env.last().0@ == n {
        Some(env.last().1@)
    } else {
        env_lookup(env.drop_last(), n)
    }
}

/// `o` is `e` with each binder renamed and each occurrence following its
/// binder: the same shape, a bound name becomes its binder's new name (the
/// innermost binding under `env`), a free name stays, labels stay.
pub open spec fn renamed_as<V: PrimVal, F: PrimFun>(e: Ast<V, F>, o: Ast<V, F>, env: Seq<(String, String)>) -> bool
    decreases e, 0int,
{
    match e {
        Ast::Name(n) => o matches Ast::Name(m) && m@ == (match env_lookup(env, n@) {
            Some(x) => x,
            None => n@,
        }),
        Ast::Abs(x, b) => o matches Ast::Abs(x2, b2) && renamed_as(*b, *b2, env.push((x, x2))),
        Ast::App(f, a) => o matches Ast::App(f2, a2) && renamed_as(*f, *f2, env) && renamed_as(*a, *a2, env),
        Ast::Rep(s, a, b, body) => o matches Ast::Rep(s2, a2, b2, body2) && renamed_as(*s, *s2, env)
            && renamed_as(*body, *body2, env.push((a, a2)).push((b, b2))),
        Ast::Era(s, b) => o matches Ast::Era(s2, b2) && renamed_as(*s, *s2, env) && renamed_as(*b, *b2, env),
        Ast::Fix(i) => o matches Ast::Fix(i2) && renamed_as(*i, *i2, env),
        Ast::Val(_) => o is Val,
        Ast::Fun(_) => o is Fun,
        Ast::Perform(l, s) => o matches Ast::Perform(l2, s2) && l2@ == l@ && renamed_as(*s, *s2, env),
        Ast::Handle(c, bs) => o matches Ast::Handle(c2, bs2) && renamed_as(*c, *c2, env) && bs2@.len()
            == bs@.len() && branches_renamed(bs@, bs2@, bs@.len() as int, env),
    }
}

/// The first `j` handler branches of `bs2` are those of `bs` renamed: same
/// labels, each body renamed under its two new binders.
pub open spec fn branches_renamed<V: PrimVal, F: PrimFun>(
    bs: Seq<HandlerBranch<V, F>>,
    bs2: Seq<HandlerBranch<V, F>>,
    j: int,
    env: Seq<(String, String)>,
) -> bool
    decreases bs, j,
{
    if 0 < j <= bs.len() {
        &&& branches_renamed(bs, bs2, j - 1, env)
        &&& j - 1 < bs2.len()
        &&& bs2[j - 1].label@ == bs[j - 1].label@
        &&& renamed_as(
            *bs[j - 1].body,
            *bs2[j - 1].body,
            env.push((bs[j - 1].arg_name, bs2[j - 1].arg_name)).push((bs[j - 1].k_name, bs2[j - 1].k_name)),
        )
    } else {
        true
    }
}

proof fn lemma_branches_renamed_push<V: PrimVal, F: PrimFun>(
    bs: Seq<HandlerBranch<V, F>>,
    bs2: Seq<HandlerBranch<V, F>>,
    x: HandlerBranch<V, F>,
    j: int,
    env: Seq<(String, String)>,
)
    requires
        0 <= j <= bs2.len(),
    ensures
        branches_renamed(bs, bs2.push(x), j, env) == branches_renamed(bs, bs2, j, env),
    decreases j,
{
    if j > 0 {
        lemma_branches_renamed_push(bs, bs2, x, j - 1, env);
        assert(bs2.push(x)[j - 1] == bs2[j - 1]);
    }
}

fn lookup(env: &Vec<(String, String)>, n: &String) -> (r: Option<String>)
    ensures
        r matches Some(s) ==> env_lookup(env@, n@) == Some(s@),
        r is None ==> env_lookup(env@, n@) is None,
{
    let mut i = env.len();
    proof {
        assert(env@.subrange(0, env@.len() as int) =~= env@);
    }
    while i > 0
        invariant
            i <= env@.len(),
            env_lookup(env@, n@) == env_lookup(env@.subrange(0, i as int), n@),
        decreases i,
    {
        let ghost pre = env@.subrange(0, i as int);
        if env[i - 1].0 == *n {
            return Some(env[i - 1].1.clone());
        }
        proof {
            assert(pre.drop_last() =~= env@.subrange(0, (i - 1) as int));
        }
        i = i - 1;
    }
    None
}

proof fn lemma_branches_push<V: PrimVal, F: PrimFun>(s: Seq<HandlerBranch<V, F>>, x: HandlerBranch<V, F>, i: int)
    requires
        0 <= i <= s.len(),
    ensures
        branches_binders(s.push(x), i) == branches_binders(s, i) + seq![x.arg_name@, x.k_name@]
            + ast_binders(*x.body),
    decreases s.len() - i,
{
    if i < s.len() {
        lemma_branches_push(s, x, i + 1);
        assert(s.push(x)[i] == s[i]);
        assert(branches_binders(s.push(x), i) =~= branches_binders(s, i) + seq![x.arg_name@, x.k_name@]
            + ast_binders(*x.body));
    } else {
        assert(s.push(x)[i] == x);
        assert(branches_binders(s.push(x), i + 1) =~= Seq::<Seq<char>>::empty());
        assert(branches_binders(s, i) =~= Seq::<Seq<char>>::empty());
        assert(branches_binders(s.push(x), i) =~= seq![x.arg_name@, x.k_name@] + ast_binders(*x.body));
    }
}

proof fn lemma_branches_split<V: PrimVal, F: PrimFun>(s: Seq<HandlerBranch<V, F>>, j: int)
    requires
        0 <= j < s.len(),
    ensures
        branches_binders(s, j) == seq![s[j].arg_name@, s[j].k_name@] + ast_binders(*s[j].body)
            + branches_binders(s, j + 1),
{
}

proof fn lemma_minted_concat(a: Seq<Seq<char>>, b: Seq<Seq<char>>, oa: Seq<Seq<char>>, ob: Seq<Seq<char>>, n: nat)
    requires
        minted_from(a, oa, n),
        minted_from(b, ob, n + a.len()),
    ensures
        minted_from(a + b, oa + ob, n),
{
    assert forall|i: int| 0 <= i < (oa + ob).len() implies #[trigger] (oa + ob)[i] == fresh_name(
        (a + b)[i],
        (n + i) as nat,
    ) by {
        if i >= oa.len() {
            assert(ob[i - oa.len()] == fresh_name(b[i - a.len()], (n + a.len() + (i - a.len())) as nat));
        }
    }
}

/// Rename binders of `expr` apart, numbering fresh names from `*ctr`;
/// `env` maps the names in scope to their new names.
fn rename<V: PrimVal + Clone, F: PrimFun + Clone>(
    expr: &Ast<V, F>,
    env: &mut Vec<(String, String)>,
    ctr: &mut u64,
) -> (out: Ast<V, F>)
    requires
        *old(ctr) + ast_binders(*expr).len() <= u64::MAX,
    ensures
        *final(ctr) == *old(ctr) + ast_binders(*expr).len(),
        minted_from(ast_binders(*expr), ast_binders(out), *old(ctr) as nat),
        final(env)@ == old(env)@,
        renamed_as(*expr, out, old(env)@),
    decreases expr,
{
    match expr {
        Ast::Name(n) => {
            let m = match lookup(env, n) {
                Some(m) => m,
                None => n.clone(),
            };
            Ast::Name(m)
        },
        Ast::Abs(x, body) => {
            let x2 = mint_name(x, *ctr);
            *ctr = *ctr + 1;
            env.push((x.clone(), x2.clone()));
            let b2 = rename(body, env, ctr);
            env.pop();
            proof {
                lemma_minted_concat(seq![x@], ast_binders(**body), seq![x2@], ast_binders(b2), *old(ctr) as nat);
            }
            Ast::Abs(x2, Box::new(b2))
        },
        Ast::App(f, a) => {
            let f2 = rename(f, env, ctr);
            let a2 = rename(a, env, ctr);
            proof {
                lemma_minted_concat(ast_binders(**f), ast_binders(**a), ast_binders(f2), ast_binders(a2), *old(ctr) as nat);
            }
            Ast::App(Box::new(f2), Box::new(a2))
        },
        Ast::Rep(e, a, b, body) => {
            let e2 = rename(e, env, ctr);
            let c1 = *ctr;
            let a2 = mint_name(a, *ctr);
            *ctr = *ctr + 1;
            let b2 = mint_name(b, *ctr);
            *ctr = *ctr + 1;
            env.push((a.clone(), a2.clone()));
            env.push((b.clone(), b2.clone()));
            let body2 = rename(body, env, ctr);
            env.pop();
            env.pop();
            proof {
                assert(minted_from(seq![a@, b@], seq![a2@, b2@], c1 as nat));
                lemma_minted_concat(ast_binders(**e), seq![a@, b@], ast_binders(e2), seq![a2@, b2@], *old(ctr) as nat);
                lemma_minted_concat(
                    ast_binders(**e) + seq![a@, b@],
                    ast_binders(**body),
                    ast_binders(e2) + seq![a2@, b2@],
                    ast_binders(body2),
                    *old(ctr) as nat,
                );
            }
            Ast::Rep(Box::new(e2), a2, b2, Box::new(body2))
        },
        Ast::Era(e, body) => {
            let e2 = rename(e, env, ctr);
            let body2 = rename(body, env, ctr);
            proof {
                lemma_minted_concat(ast_binders(**e), ast_binders(**body), ast_binders(e2), ast_binders(body2), *old(ctr) as nat);
            }
            Ast::Era(Box::new(e2), Box::new(body2))
        },
        Ast::Fix(inner) => Ast::Fix(Box::new(rename(inner, env, ctr))),
        Ast::Val(v) => Ast::Val(v.clone()),
        Ast::Fun(f) => Ast::Fun(f.clone()),
        Ast::Perform(label, e) => Ast::Perform(label.clone(), Box::new(rename(e, env, ctr))),
        Ast::Handle(comp, branches) => {
            let comp2 = rename(comp, env, ctr);
            let c1 = *ctr;
            let mut out: Vec<HandlerBranch<V, F>> = Vec::new();
            let mut j: usize = 0;
            proof {
                assert(branches_binders(branches@.subrange(0, 0), 0) =~= Seq::<Seq<char>>::empty());
                assert(branches_binders(out@, 0) =~= Seq::<Seq<char>>::empty());
            }
            while j < branches.len()
                invariant
                    j <= branches@.len(),
                    *expr == Ast::Handle(*comp, *branches),
                    env@ == old(env)@,
                    c1 + ast_binders(*expr).len() - ast_binders(**comp).len() <= u64::MAX,
                    ast_binders(*expr) == ast_binders(**comp) + branches_binders(branches@, 0),
                    *ctr == c1 + branches_binders(branches@.subrange(0, j as int), 0).len(),
                    branches_binders(branches@.subrange(0, j as int), 0).len() + branches_binders(branches@, j as int).len() == branches_binders(branches@, 0).len(),
                    minted_from(
                        branches_binders(branches@.subrange(0, j as int), 0),
                        branches_binders(out@, 0),
                        c1 as nat,
                    ),
                    out@.len() == j,
                    branches_renamed(branches@, out@, j as int, old(env)@),
                decreases branches@.len() - j,
            {
                let br = &branches[j];
                proof {
                    assert(branches@[j as int] == *br);
                    assert(decreases_to!(*branches => branches@));
                    assert(decreases_to!(branches@ => branches@[j as int]));
                    assert(decreases_to!(branches@[j as int] => branches@[j as int].body));
                    let pre = branches@.subrange(0, j as int);
                    assert(branches@.subrange(0, (j + 1) as int) =~= pre.push(*br));
                    lemma_branches_push(pre, *br, 0);
                    lemma_branches_split(branches@, j as int);
                }
                let ghost c_before = *ctr;
                let ghost out_before = out@;
                let arg2 = mint_name(&br.arg_name, *ctr);
                *ctr = *ctr + 1;
                let k2 = mint_name(&br.k_name, *ctr);
                *ctr = *ctr + 1;
                env.push((br.arg_name.clone(), arg2.clone()));
                env.push((br.k_name.clone(), k2.clone()));
                let body2 = rename(&br.body, env, ctr);
                env.pop();
                env.pop();
                let nb = HandlerBranch { label: br.label.clone(), arg_name: arg2, k_name: k2, body: Box::new(body2) };
                out.push(nb);
                proof {
                    lemma_branches_renamed_push(branches@, out_before, nb, j as int, old(env)@);
                    assert(out@[j as int] == nb);
                    lemma_branches_push(out_before, nb, 0);
                    assert(minted_from(seq![br.arg_name@, br.k_name@], seq![nb.arg_name@, nb.k_name@], c_before as nat));
                    lemma_minted_concat(
                        seq![br.arg_name@, br.k_name@],
                        ast_binders(*br.body),
                        seq![nb.arg_name@, nb.k_name@],
                        ast_binders(*nb.body),
                        c_before as nat,
                    );
                    lemma_minted_concat(
                        branches_binders(branches@.subrange(0, j as int), 0),
                        seq![br.arg_name@, br.k_name@] + ast_binders(*br.body),
                        branches_binders(out_before, 0),
                        seq![nb.arg_name@, nb.k_name@] + ast_binders(*nb.body),
                        c1 as nat,
                    );
                }
                j = j + 1;
            }
            proof {
                assert(branches@.subrange(0, branches@.len() as int) =~= branches@);
                lemma_minted_concat(
                    ast_binders(**comp),
                    branches_binders(branches@, 0),
                    ast_binders(comp2),
                    branches_binders(out@, 0),
                    *old(ctr) as nat,
                );
            }
            Ast::Handle(Box::new(comp2), out)
        },
    }
}

/// Rename every binder of `expr` to a name of its own (`base~n`, numbered
/// in pre-order from 0), so no binder shadows another; occurrences follow
/// their binders and free names stay.
pub fn alpha_rename<V: PrimVal + Clone, F: PrimFun + Clone>(expr: &Ast<V, F>) -> (out: Ast<V, F>)
    requires
        ast_binders(*expr).len() <= u64::MAX,
    ensures
        minted_from(ast_binders(*expr), ast_binders(out), 0),
        all_distinct(ast_binders(out)),
        renamed_as(*expr, out, Seq::empty()),
{
    let mut env: Vec<(String, String)> = Vec::new();
    proof {
        assert(env@ =~= Seq::<(String, String)>::empty());
    }
    let mut ctr: u64 = 0;
    let out = rename(expr, &mut env, &mut ctr);
    proof {
        let bs = ast_binders(out);
        assert forall|i: int, j: int| 0 <= i < j < bs.len() implies bs[i] != bs[j] by {
            lemma_fresh_distinct(ast_binders(*expr)[i], i as nat, ast_binders(*expr)[j], j as nat);
        }
    }
    out
}

} // verus!
