use dnx::ast::{Ast, HandlerBranch, NoFun, NoVal};
use dnx::{
    alpha_rename, elaborate, normalize, pass0, pass1, DeltaI, DeltaL, DnxError, LOPath, LinError,
    Net, Pass1Result, PortId, PortKind, Proper, SlotView,
};
use std::collections::HashSet;

type E = Ast<NoVal, NoFun>;

fn nm(s: &str) -> E {
    Ast::Name(String::from(s))
}
fn ab(x: &str, b: E) -> E {
    Ast::Abs(String::from(x), Box::new(b))
}
fn ap(f: E, x: E) -> E {
    Ast::App(Box::new(f), Box::new(x))
}
fn rep(e: E, a: &str, b: &str, body: E) -> E {
    Ast::Rep(Box::new(e), String::from(a), String::from(b), Box::new(body))
}
fn era(e: E, body: E) -> E {
    Ast::Era(Box::new(e), Box::new(body))
}
fn fix_e(e: E) -> E {
    Ast::Fix(Box::new(e))
}

fn lvl(r: &Pass1Result, name: &str) -> u32 {
    r.level_of(name).expect("name has a usage level")
}

// ---- alpha renaming ----

#[test]
fn free_name_unchanged() {
    assert_eq!(alpha_rename(&nm("g")), nm("g"));
}

#[test]
fn shadowed_binders_become_distinct() {
    let e: E = ab("h", ap(ab("h", nm("h")), nm("h")));
    let out = alpha_rename(&e);
    let (outer, body) = match &out {
        Ast::Abs(x, b) => (x.clone(), b.as_ref()),
        _ => panic!("expected Abs"),
    };
    let (inner, inner_body, arg) = match body {
        Ast::App(f, a) => match f.as_ref() {
            Ast::Abs(y, ib) => (y.clone(), ib.as_ref(), a.as_ref()),
            _ => panic!("expected inner Abs"),
        },
        _ => panic!("expected App"),
    };
    assert_ne!(outer, inner, "shadowed binders distinct");
    assert_eq!(inner_body, &Ast::Name(inner));
    assert_eq!(arg, &Ast::Name(outer));
}

#[test]
fn identity_stays_identity() {
    let out = alpha_rename(&ab("x", nm("x")));
    match out {
        Ast::Abs(x, b) => assert_eq!(*b, Ast::Name(x)),
        _ => panic!("expected Abs"),
    }
}

#[test]
fn rep_binders_renamed() {
    let e: E = rep(nm("g"), "a", "b", ap(nm("a"), nm("b")));
    match alpha_rename(&e) {
        Ast::Rep(e2, a, b, body) => {
            assert_eq!(*e2, nm("g"), "free scrutinee unchanged");
            assert_ne!(a, b);
            assert_eq!(*body, ap(Ast::Name(a), Ast::Name(b)));
        }
        _ => panic!("expected Rep"),
    }
}

#[test]
fn alpha_renamed_binders_are_fresh_and_distinct() {
    let e: E = ab("x", ab("x", ab("y", nm("y"))));
    match alpha_rename(&e) {
        Ast::Abs(a, b1) => match *b1 {
            Ast::Abs(b, b2) => match *b2 {
                Ast::Abs(c, body) => {
                    assert!(a != b && b != c && a != c);
                    assert!(a != "x" && b != "x" && c != "y");
                    assert_eq!(*body, Ast::Name(c));
                }
                _ => panic!("expected Abs"),
            },
            _ => panic!("expected Abs"),
        },
        _ => panic!("expected Abs"),
    }
}

// ---- pass 0 ----

#[test]
fn pass0_resolves_def_ref() -> Result<(), LinError> {
    let defs = vec![(String::from("id"), ab("x", nm("x")))];
    let expr = ap(nm("id"), nm("y"));
    let resolved = pass0(&defs, &expr)?;
    assert_eq!(resolved, ap(ab("x", nm("x")), nm("y")));
    Ok(())
}

#[test]
fn pass0_mutual_recursion_error() {
    let defs = vec![(String::from("a"), nm("b")), (String::from("b"), nm("a"))];
    assert!(pass0(&defs, &nm("a")).is_err());
}

#[test]
fn pass0_keeps_fix_as_native_node() -> Result<(), LinError> {
    let defs: Vec<(String, E)> = Vec::new();
    let expr = fix_e(nm("f"));
    let resolved = pass0(&defs, &expr)?;
    assert!(matches!(resolved, Ast::Fix(_)));
    Ok(())
}

#[test]
fn pass0_bound_name_shadows_definition() -> Result<(), LinError> {
    let defs = vec![(String::from("x"), ab("z", nm("z")))];
    let expr = ab("x", nm("x"));
    assert_eq!(pass0(&defs, &expr)?, ab("x", nm("x")));
    Ok(())
}

#[test]
fn pass0_self_reference_is_mutual_recursion() {
    let defs = vec![(String::from("loop"), ap(nm("loop"), nm("y")))];
    assert!(matches!(pass0(&defs, &nm("y")), Err(LinError::MutualRecursion(_))));
}

#[test]
fn pass0_three_cycle_is_rejected() {
    let defs = vec![
        (String::from("a"), nm("b")),
        (String::from("b"), nm("c")),
        (String::from("c"), nm("a")),
    ];
    assert!(matches!(pass0(&defs, &nm("z")), Err(LinError::MutualRecursion(_))));
}

#[test]
fn pass0_acyclic_chain_resolves() -> Result<(), LinError> {
    let defs = vec![(String::from("a"), nm("b")), (String::from("b"), ab("x", nm("x")))];
    assert_eq!(pass0(&defs, &nm("a"))?, ab("x", nm("x")));
    Ok(())
}

#[test]
fn pass0_without_definitions_keeps_names() -> Result<(), LinError> {
    let defs: Vec<(String, E)> = Vec::new();
    let expr = ap(nm("f"), ab("x", nm("x")));
    assert_eq!(pass0(&defs, &expr)?, expr);
    Ok(())
}

// ---- pass 1 ----

#[test]
fn pass1_identity_linear() -> Result<(), LinError> {
    let r = pass1(&ab("x", nm("x")))?;
    assert!(!r.era_used && !r.rep_used);
    Ok(())
}

#[test]
fn pass1_unused_error() {
    let e: E = ab("x", ab("y", nm("y")));
    assert!(matches!(pass1(&e), Err(LinError::Unused(n)) if n == "x"));
}

#[test]
fn pass1_multiuse_error() {
    let e: E = ab("x", ap(nm("x"), nm("x")));
    assert!(matches!(pass1(&e), Err(LinError::MultiUse(n, 2)) if n == "x"));
}

#[test]
fn pass1_rep_sets_rep_flag() -> Result<(), LinError> {
    let e: E = ab("x", rep(nm("x"), "a", "b", ap(nm("a"), nm("b"))));
    let r = pass1(&e)?;
    assert!(r.rep_used);
    assert!(!r.era_used);
    Ok(())
}

#[test]
fn pass1_era_sets_era_flag() -> Result<(), LinError> {
    let e: E = ab("y", era(nm("y"), ab("z", nm("z"))));
    let r = pass1(&e)?;
    assert!(r.era_used);
    assert!(!r.rep_used);
    Ok(())
}

#[test]
fn pass1_usage_level_app_arg_plus_one() -> Result<(), LinError> {
    let e: E = ab("f", ab("x", ap(nm("f"), nm("x"))));
    let r = pass1(&e)?;
    assert_eq!(lvl(&r, "f"), 0);
    assert_eq!(lvl(&r, "x"), 1);
    Ok(())
}

// ---- pass 2 ----

fn elab_normalize(
    expr: &E,
) -> Result<(Net<dnx::Canonical, DeltaL>, dnx::ReduceStats), DnxError> {
    let r1 = pass1(expr)?;
    let mut net = Net::<Proper, DeltaL>::new(64);
    let mut env: Vec<(String, PortId, u32)> = Vec::new();
    let (result_p, _) = elaborate(&mut net, 0, &mut env, LOPath::root(), expr, &r1.usage_levels)?;
    net.add_root(String::from("r"), result_p);
    normalize(net)
}

#[test]
fn pass2_identity_elaborates() -> Result<(), DnxError> {
    let e = ab("x", nm("x"));
    let (_, stats) = elab_normalize(&e)?;
    assert_eq!(stats.interactions, 0);
    Ok(())
}

#[test]
fn pass2_id_applied_one_beta() -> Result<(), DnxError> {
    let e = ap(ab("x", nm("x")), ab("y", nm("y")));
    let (_, stats) = elab_normalize(&e)?;
    assert_eq!(stats.r4_count, 1);
    assert_eq!(stats.interactions, stats.r4_count);
    Ok(())
}

#[test]
fn pass2_delta_arithmetic_abs_bound_rep() -> Result<(), DnxError> {
    let sharing: E = ab("x", rep(nm("x"), "a", "b", ap(nm("a"), nm("b"))));
    let expr: E = ap(sharing, ab("y", nm("y")));
    let r1 = pass1(&expr)?;
    assert!(r1.rep_used, "rep flag set");
    let mut net = Net::<Proper, DeltaI>::new(64);
    let mut env: Vec<(String, PortId, u32)> = Vec::new();
    let (result_p, _) = elaborate(&mut net, 0, &mut env, LOPath::root(), &expr, &r1.usage_levels)?;
    net.add_root(String::from("r"), result_p);
    let (_, stats) = normalize(net)?;
    assert!(stats.r4_count >= 1, "at least 1 beta");
    Ok(())
}

#[test]
fn pass2_unbound_name_is_an_error() {
    let mut net = Net::<Proper, DeltaL>::new(8);
    let mut env: Vec<(String, PortId, u32)> = Vec::new();
    let levels: Vec<(String, u32)> = Vec::new();
    let r = elaborate(&mut net, 0, &mut env, LOPath::root(), &nm("q"), &levels);
    assert!(matches!(r, Err(DnxError::ReadbackIncomplete)));
}

#[test]
fn pass2_perform_is_refused() {
    let mut net = Net::<Proper, DeltaL>::new(8);
    let mut env: Vec<(String, PortId, u32)> = Vec::new();
    let levels: Vec<(String, u32)> = Vec::new();
    let e: E = Ast::Perform(String::from("io"), Box::new(ab("x", nm("x"))));
    let r = elaborate(&mut net, 0, &mut env, LOPath::root(), &e, &levels);
    assert!(matches!(r, Err(DnxError::ReadbackIncomplete)));
    assert_eq!(net.agent_count(), 0);
}

#[test]
fn pass2_name_takes_its_binding_out_of_scope() -> Result<(), DnxError> {
    let mut net = Net::<Proper, DeltaL>::new(8);
    let p = net.alloc_free(3)?;
    let mut env: Vec<(String, PortId, u32)> = vec![(String::from("v"), p, 7)];
    let levels: Vec<(String, u32)> = Vec::new();
    let (q, l) = elaborate(&mut net, 0, &mut env, LOPath::root(), &nm("v"), &levels)?;
    assert_eq!((q, l), (p, 7));
    assert!(env.is_empty());
    Ok(())
}

#[test]
fn pass2_single_branch_handler_elaborates() -> Result<(), DnxError> {
    let branch = HandlerBranch {
        label: String::from("io"),
        arg_name: String::from("v"),
        k_name: String::from("k"),
        body: Box::new(ap(nm("k"), nm("v"))),
    };
    let e: E = Ast::Handle(Box::new(ab("z", nm("z"))), vec![branch]);
    let mut net = Net::<Proper, DeltaI>::new(64);
    let mut env: Vec<(String, PortId, u32)> = Vec::new();
    let levels: Vec<(String, u32)> = Vec::new();
    let (_, l) = elaborate(&mut net, 0, &mut env, LOPath::root(), &e, &levels)?;
    assert_eq!(l, 0);
    assert!(env.is_empty());
    Ok(())
}

#[test]
fn pass2_two_branch_handler_is_refused() {
    let mk = |l: &str| HandlerBranch {
        label: String::from(l),
        arg_name: String::from("v"),
        k_name: String::from("k"),
        body: Box::new(ap(nm("k"), nm("v"))),
    };
    let e: E = Ast::Handle(Box::new(ab("z", nm("z"))), vec![mk("a"), mk("b")]);
    let mut net = Net::<Proper, DeltaI>::new(64);
    let mut env: Vec<(String, PortId, u32)> = Vec::new();
    let levels: Vec<(String, u32)> = Vec::new();
    let r = elaborate(&mut net, 0, &mut env, LOPath::root(), &e, &levels);
    assert!(matches!(r, Err(DnxError::ReadbackIncomplete)));
    assert_eq!(net.agent_count(), 0);
}

// ---- replicator levels ----

fn collect_reps<C: dnx::NetClassMarker>(net: &Net<Proper, C>, root: PortId) -> Vec<SlotView> {
    let mut seen: HashSet<u32> = HashSet::new();
    let mut reps: Vec<SlotView> = Vec::new();
    let mut stack: Vec<PortId> = vec![root];
    while let Some(port) = stack.pop() {
        if port.is_eraser() || port.is_null() {
            continue;
        }
        let idx = port.slot_idx();
        if !seen.insert(idx) {
            continue;
        }
        let s = net.slot_view(port);
        if s.is_free() {
            continue;
        }
        if s.is_rep() {
            reps.push(s);
        }
        let gen = port.gen_low();
        for kind in [PortKind::Principal, PortKind::Aux0, PortKind::Aux1] {
            let p = net.peer(PortId::new(idx, kind, gen));
            stack.push(p);
        }
    }
    reps
}

fn reps_of(expr: &E) -> Result<Vec<SlotView>, DnxError> {
    let levels = pass1(expr)?.usage_levels;
    let mut net = Net::<Proper, DeltaI>::new(64);
    let mut env: Vec<(String, PortId, u32)> = Vec::new();
    let (result_p, _) = elaborate(&mut net, 0, &mut env, LOPath::root(), expr, &levels)?;
    Ok(collect_reps(&net, result_p))
}

#[test]
fn church1_app_fn_vs_arg_level_differ_by_one() -> Result<(), DnxError> {
    let e: E = ab("f", ab("x", ap(nm("f"), nm("x"))));
    let lv = pass1(&e)?;
    let lf = lvl(&lv, "f");
    let lx = lvl(&lv, "x");
    assert_eq!(lf, 0);
    assert_eq!(lx, 1);
    assert_eq!(lx - lf, 1);
    assert!(reps_of(&e)?.is_empty());
    Ok(())
}

#[test]
fn nested_app_level_nesting() -> Result<(), DnxError> {
    let e: E = ap(nm("f"), ap(nm("g"), nm("x")));
    let lv = pass1(&e)?;
    assert_eq!(lvl(&lv, "f"), 0);
    assert_eq!(lvl(&lv, "g"), 1);
    assert_eq!(lvl(&lv, "x"), 2);
    assert_eq!(lvl(&lv, "g") - lvl(&lv, "f"), 1);
    assert_eq!(lvl(&lv, "x") - lvl(&lv, "g"), 1);
    Ok(())
}

#[test]
fn self_applicator_rep_level_and_deltas() -> Result<(), DnxError> {
    let e: E = ab("x", rep(nm("x"), "a", "b", ap(nm("a"), nm("b"))));
    let lv = pass1(&e)?;
    let la = lvl(&lv, "a");
    let lb = lvl(&lv, "b");
    assert_eq!(la, 0);
    assert_eq!(lb, 1);
    assert_eq!(lb - la, 1);
    let reps = reps_of(&e)?;
    assert_eq!(reps.len(), 1);
    let r = reps[0];
    assert!(r.is_rep());
    assert_eq!(r.data, 1);
    assert_eq!(r.delta0, -1);
    assert_eq!(r.delta1, 0);
    Ok(())
}

#[test]
fn multi_level_delta_scheme() -> Result<(), DnxError> {
    let inner = ap(ab("y", nm("y")), nm("b"));
    let e: E = ab("x", rep(nm("x"), "a", "b", ap(nm("a"), inner)));
    let lv = pass1(&e)?;
    assert_eq!(lvl(&lv, "a"), 0);
    assert_eq!(lvl(&lv, "b"), 2);
    let reps = reps_of(&e)?;
    assert_eq!(reps.len(), 1);
    let r = reps[0];
    assert_eq!(r.data, 1);
    assert_eq!(r.delta0, -1);
    assert_eq!(r.delta1, 1);
    Ok(())
}

#[test]
fn self_applicator_sets_rep_class() -> Result<(), DnxError> {
    let e: E = ab("x", rep(nm("x"), "a", "b", ap(nm("a"), nm("b"))));
    let r1 = pass1(&e).map_err(DnxError::from)?;
    assert!(r1.rep_used);
    assert!(!r1.era_used);
    let _ = std::marker::PhantomData::<DeltaL>;
    Ok(())
}
