//! Pass 2: emitting the net of a resolved, linearity-checked term.
//!
//! An abstraction's variable sits one level above the abstraction, an
//! application's argument one level above the application, and a sharing
//! replicator takes the level of the shared term with deltas leading to the
//! levels at which its two names are used.
use vstd::prelude::*;
use crate::ast::{Ast, PrimFun, PrimVal};
use crate::class::{NetClassMarker, Proper};
use crate::error::DnxError;
use crate::lopath::LOPath;
use crate::arena::MAX_SLOTS;
use crate::elab::pass1::level_in;
use crate::net::{AgentPorts, Net, lemma_ports_of, port_in, ports_of};
use crate::port::lemma_sentinels;
use crate::reduce::rules::{left, right};
use crate::port::PortId;
use crate::port::{raw_slot, raw_is_eraser};
use crate::slot::{Slot, tag_bit0, tag_is_fan, tag_is_rep};

verus! {

/// The bindings in scope: name, the port the name's use connects to, and
/// the level it was bound at.
pub open spec fn env_in(env: Seq<(String, PortId, u32)>, n: int) -> bool {
    forall|i: int| 0 <= i < env.len() ==> port_in((#[trigger] env[i]).1, n)
}

/// The first binding of `name`.
pub open spec fn env_pos(env: Seq<(String, PortId, u32)>, name: Seq<char>) -> Option<int> {
    if exists|i: int| 0 <= i < env.len() && (#[trigger] env[i]).0@ == name {
        Some(
            choose|i: int|
                0 <= i < env.len() && (#[trigger] env[i]).0@ == name && forall|j: int|
                    0 <= j < i ==> (#[trigger] env[j]).0@ != name,
        )
    } else {
        None
    }
}

/// How a term's primitive leaves become agents.
pub trait LeafElab<V: PrimVal, F: PrimFun, C: NetClassMarker> {
    fn elab_val(&mut self, net: &mut Net<Proper, C>, v: &V) -> (r: Result<PortId, DnxError>)
        requires
            old(net).wf(),
        ensures
            final(net).wf(),
            final(net).n_slots() >= old(net).n_slots(),
            r matches Ok(p) ==> port_in(p, final(net).n_slots()),
            r matches Err(e) ==> e == DnxError::ReadbackIncomplete || e
                == DnxError::ArenaCapacityExceeded,
    ;

    fn elab_fun(&mut self, net: &mut Net<Proper, C>, f: &F) -> (r: Result<PortId, DnxError>)
        requires
            old(net).wf(),
        ensures
            final(net).wf(),
            final(net).n_slots() >= old(net).n_slots(),
            r matches Ok(p) ==> port_in(p, final(net).n_slots()),
            r matches Err(e) ==> e == DnxError::ReadbackIncomplete || e
                == DnxError::ArenaCapacityExceeded,
    ;
}

/// Without primitives: every leaf becomes a free-variable agent.
pub struct NoPrims;

impl<V: PrimVal, F: PrimFun, C: NetClassMarker> LeafElab<V, F, C> for NoPrims {
    fn elab_val(&mut self, net: &mut Net<Proper, C>, v: &V) -> (r: Result<PortId, DnxError>) {
        net.alloc_free(0)
    }

    fn elab_fun(&mut self, net: &mut Net<Proper, C>, f: &F) -> (r: Result<PortId, DnxError>) {
        net.alloc_free(0)
    }
}

/// Take the first binding of `name` out of scope.
fn env_take(env: &mut Vec<(String, PortId, u32)>, name: &String) -> (r: Option<(PortId, u32)>)
    ensures
        env_pos(old(env)@, name@) matches Some(i) ==> {
            &&& 0 <= i < old(env)@.len()
            &&& old(env)@[i].0@ == name@
            &&& r == Some((old(env)@[i].1, old(env)@[i].2))
            &&& final(env)@ == old(env)@.remove(i)
        },
        env_pos(old(env)@, name@) is None ==> r is None && final(env)@ == old(env)@,
{
    let mut i: usize = 0;
    while i < env.len()
        invariant
            i <= env@.len(),
            env@ == old(env)@,
            forall|j: int| 0 <= j < i ==> (#[trigger] env@[j]).0@ != name@,
        decreases env@.len() - i,
    {
        if env[i].0 == *name {
            let (_, p, l) = env.remove(i);
            proof {
                let k = env_pos(old(env)@, name@);
                assert(old(env)@[i as int].0@ == name@);
                let c = choose|q: int|
                    0 <= q < old(env)@.len() && (#[trigger] old(env)@[q]).0@ == name@ && forall|j: int|
                        0 <= j < q ==> (#[trigger] old(env)@[j]).0@ != name@;
                assert(c == i as int) by {
                    if c < i {
                        assert(old(env)@[c].0@ != name@);
                    } else if c > i {
                        assert(old(env)@[i as int].0@ != name@);
                    }
                }
            }
            return Some((p, l));
        }
        i = i + 1;
    }
    None
}

/// Bind `name`, replacing its first binding if it has one.
fn env_put(env: &mut Vec<(String, PortId, u32)>, name: &String, p: PortId, l: u32, Ghost(n): Ghost<int>)
    requires
        env_in(old(env)@, n),
        port_in(p, n),
    ensures
        env_in(final(env)@, n),
        env_pos(old(env)@, name@) matches Some(i) ==> final(env)@ == old(env)@.update(i, (*name, p, l)),
        env_pos(old(env)@, name@) is None ==> final(env)@ == old(env)@.push((*name, p, l)),
{
    let mut i: usize = 0;
    while i < env.len()
        invariant
            i <= env@.len(),
            env@ == old(env)@,
            env_in(env@, n),
            port_in(p, n),
            forall|j: int| 0 <= j < i ==> (#[trigger] env@[j]).0@ != name@,
        decreases env@.len() - i,
    {
        if env[i].0 == *name {
            let key = name.clone();
            let ghost before = env@;
            env.set(i, (key, p, l));
            proof {
                assert(old(env)@[i as int].0@ == name@);
                let c = choose|q: int|
                    0 <= q < old(env)@.len() && (#[trigger] old(env)@[q]).0@ == name@ && forall|j: int|
                        0 <= j < q ==> (#[trigger] old(env)@[j]).0@ != name@;
                assert(c == i as int) by {
                    if c < i {
                        assert(old(env)@[c].0@ != name@);
                    } else if c > i {
                        assert(old(env)@[i as int].0@ != name@);
                    }
                }
                assert(env@ == before.update(i as int, (key, p, l)));
                assert forall|j: int| 0 <= j < env@.len() implies port_in((#[trigger] env@[j]).1, n) by {
                    if j != i {
                        assert(env@[j] == old(env)@[j]);
                    }
                }
            }
            return;
        }
        i = i + 1;
    }
    env.push((name.clone(), p, l));
    proof {
        assert forall|j: int| 0 <= j < env@.len() implies port_in((#[trigger] env@[j]).1, n) by {
            if j < old(env)@.len() {
                assert(env@[j] == old(env)@[j]);
            }
        }
    }
}

/// Drop the first binding of `name`.
fn env_drop(env: &mut Vec<(String, PortId, u32)>, name: &String, Ghost(n): Ghost<int>)
    requires
        env_in(old(env)@, n),
    ensures
        env_in(final(env)@, n),
        env_pos(old(env)@, name@) matches Some(i) ==> final(env)@ == old(env)@.remove(i),
        env_pos(old(env)@, name@) is None ==> final(env)@ == old(env)@,
{
    let ghost before = env@;
    let _ = env_take(env, name);
    proof {
        let k = env_pos(before, name@);
        if k is Some {
            let i = k->0;
            assert(env@ == before.remove(i));
            before.remove_ensures(i);
            assert forall|j: int| 0 <= j < env@.len() implies port_in((#[trigger] env@[j]).1, n) by {
                if j < i {
                    assert(env@[j] == before[j]);
                    assert(port_in(before[j].1, n));
                } else {
                    assert(env@[j] == before[j + 1]);
                    assert(port_in(before[j + 1].1, n));
                }
            }
        }
    }
}

/// Bindings stay inside a net that only grows.
proof fn lemma_env_grow(env: Seq<(String, PortId, u32)>, n: int, m: int)
    requires
        env_in(env, n),
        n <= m,
    ensures
        env_in(env, m),
{
    assert forall|i: int| 0 <= i < env.len() implies port_in((#[trigger] env[i]).1, m) by {
        assert(port_in(env[i].1, n));
    }
}

/// The errors elaboration can end with.
pub open spec fn elab_error(e: DnxError) -> bool {
    ||| e == DnxError::ReadbackIncomplete
    ||| e == DnxError::ArenaCapacityExceeded
    ||| e == DnxError::LOPathDepthExceeded
    ||| e == DnxError::DeltaOverflow
}

/// The level above `level`.
fn next_level(level: u32) -> (r: Result<u32, DnxError>)
    ensures
        level < u32::MAX ==> r == Ok::<u32, DnxError>((level + 1) as u32),
        level == u32::MAX ==> r == Err::<u32, DnxError>(DnxError::DeltaOverflow),
{
    if level == u32::MAX {
        Err(DnxError::DeltaOverflow)
    } else {
        Ok(level + 1)
    }
}

/// The delta from `from` to `to`, when it fits in 16 bits.
fn level_delta(to: u32, from: u32) -> (r: Result<i16, DnxError>)
    ensures
        -32768 <= to - from <= 32767 ==> r == Ok::<i16, DnxError>((to - from) as i16),
        !(-32768 <= to - from <= 32767) ==> r == Err::<i16, DnxError>(DnxError::DeltaOverflow),
{
    let d: i64 = to as i64 - from as i64;
    if -32768 <= d && d <= 32767 {
        Ok(d as i16)
    } else {
        Err(DnxError::DeltaOverflow)
    }
}

/// The ports of an agent in a slot below `n` are inside the net.
proof fn lemma_agent_in(ap: AgentPorts, idx: u32, g: u32, n: int)
    requires
        ap == ports_of(idx, g),
        idx < n <= MAX_SLOTS,
    ensures
        port_in(ap.principal, n),
        port_in(ap.aux0, n),
        port_in(ap.aux1, n),
{
    lemma_ports_of(idx, g);
}

/// The wiring of `fix f = f (fix f)` behind the port `p`: `p` is the second
/// copy of a replicator at `level` with zero deltas, whose principal faces
/// the result port of an application, and whose first copy faces that
/// application's argument port: the fixpoint is fed back to the function
/// as its own argument.
pub open spec fn fix_tied(slots: Seq<Slot>, p: PortId, level: u32) -> bool {
    let ir = raw_slot(p.0);
    let r = slots[ir as int];
    let rp = ports_of(ir, r.generation);
    let ia = raw_slot(r.principal);
    let a = slots[ia as int];
    let ap = ports_of(ia, a.generation);
    &&& tag_is_rep(r.tag) && r.data == level as u16 && r.delta0 == 0 && r.delta1 == 0
    &&& p == rp.aux1
    &&& 0 < ia && 0 < ir && ia != ir
    &&& tag_is_fan(a.tag) && !tag_bit0(a.tag)
    &&& r.principal == ap.aux0.0 && a.aux0 == rp.principal.0
    &&& a.aux1 == rp.aux0.0 && r.aux0 == ap.aux1.0
}

/// In the net of `fix f`, what faces what: the replicator's principal and
/// the application's result face each other, and so do the replicator's
/// first copy and the application's argument, so the value of `fix f` is
/// what `f` returns when applied to `fix f`.
pub proof fn lemma_fix_feeds_back(slots: Seq<Slot>, p: PortId, level: u32)
    requires
        fix_tied(slots, p, level),
    ensures
        ({
            let ir = raw_slot(p.0);
            let rp = ports_of(ir, slots[ir as int].generation);
            let ia = raw_slot(slots[ir as int].principal);
            let ap = ports_of(ia, slots[ia as int].generation);
            &&& crate::net::spec_peer(slots, rp.principal) == ap.aux0
            &&& crate::net::spec_peer(slots, ap.aux0) == rp.principal
            &&& crate::net::spec_peer(slots, rp.aux0) == ap.aux1
            &&& crate::net::spec_peer(slots, ap.aux1) == rp.aux0
            &&& p == rp.aux1
        }),
{
    let pw: u32 = p.0;
    let ir = raw_slot(pw);
    let rw: u32 = slots[ir as int].principal;
    let ia = raw_slot(rw);
    crate::port::lemma_raw_slot_bound(pw);
    crate::port::lemma_raw_slot_bound(rw);
    lemma_ports_of(ir, slots[ir as int].generation);
    lemma_ports_of(ia, slots[ia as int].generation);
    lemma_sentinels();
}

/// Apply the function whose value leaves from `f_p` to its own fixpoint:
/// an application of it whose result is replicated, the first copy fed back
/// as the argument and the second returned.
fn build_fix<C: NetClassMarker>(net: &mut Net<Proper, C>, f_p: PortId, level: u32, lo: LOPath, lo_fn: LOPath) -> (r:
    Result<PortId, DnxError>)
    requires
        old(net).wf(),
        lo.wf(),
        lo_fn.wf(),
        port_in(f_p, old(net).n_slots()),
    ensures
        final(net).wf(),
        final(net).n_slots() >= old(net).n_slots(),
        r matches Ok(p) ==> port_in(p, final(net).n_slots()) && fix_tied(final(net).slots(), p, level),
        r matches Err(e) ==> elab_error(e),
{
    let app = match net.alloc_app() {
        Ok(a) => a,
        Err(e) => {
            return Err(e);
        },
    };
    let ghost ia = raw_slot(app.principal.0);
    let ghost ga = net.slots()[ia as int].generation;
    proof {
        lemma_agent_in(app, ia, ga, net.n_slots());
        lemma_ports_of(ia, ga);
    }
    let _ = net.connect(app.principal, f_p, lo_fn);
    let ghost s1 = net.slots();
    proof {
        assert(s1[ia as int].tag == crate::slot::TAG_FAN_APP);
        assert(s1[ia as int].generation == ga);
        assert(net.arena.has_live(ia));
    }
    let rep = match net.alloc_rep_in(level as u16, 0, 0) {
        Ok(v) => v,
        Err(e) => {
            return Err(e);
        },
    };
    let ghost ir = raw_slot(rep.principal.0);
    let ghost gr = net.slots()[ir as int].generation;
    let ghost s2 = net.slots();
    proof {
        lemma_agent_in(rep, ir, gr, net.n_slots());
        lemma_agent_in(app, ia, ga, net.n_slots());
        lemma_ports_of(ir, gr);
        assert(ir != ia);
        assert(s2[ia as int] == s1[ia as int]);
    }
    let lo_r = match right(&lo) {
        Ok(v) => v,
        Err(e) => {
            return Err(e);
        },
    };
    let _ = net.connect(rep.principal, app.aux0, lo_r);
    let ghost s3 = net.slots();
    proof {
        lemma_sentinels();
        assert(!crate::net::is_virtual(rep.principal));
        assert(!crate::net::is_virtual(app.aux0));
        let w = crate::net::write_slots(s2, rep.principal, app.aux0);
        assert(w[ir as int].principal == app.aux0.0);
        assert(s3[ir as int].principal == app.aux0.0);
        assert(s3[ia as int].aux0 == rep.principal.0);
    }
    let _ = net.connect(app.aux1, rep.aux0, lo);
    proof {
        let s4 = net.slots();
        assert(!crate::net::is_virtual(rep.aux0));
        assert(!crate::net::is_virtual(app.aux1));
        let w = crate::net::write_slots(s3, app.aux1, rep.aux0);
        assert(w[ia as int].aux1 == rep.aux0.0);
        assert(w[ir as int] == s3[ir as int]);
        crate::slot::lemma_agent_tags();
        assert(s4[ir as int].principal == app.aux0.0);
        assert(s4[ia as int].aux0 == rep.principal.0);
        assert(s4[ia as int].aux1 == rep.aux0.0);
        assert(s4[ir as int].aux0 == app.aux1.0);
        assert(s4[ir as int].generation == gr);
        assert(s4[ia as int].generation == ga);
        assert(s4[ir as int].tag == s2[ir as int].tag);
        assert(s4[ia as int].tag == s2[ia as int].tag);
    }
    Ok(rep.aux1)
}

/// What elaboration promises: the net stays well formed and only grows,
/// the bindings left in scope and the returned port lie inside it, the
/// errors are those of elaboration; the value of an abstraction,
/// application, fixpoint, leaf or handler is at the given level; an effect
/// operation and a handler without exactly one branch are refused with
/// nothing changed; a name yields its first binding and takes it out of
/// scope.
pub open spec fn elab_post<C: NetClassMarker, V: PrimVal, F: PrimFun>(
    n0: Net<Proper, C>,
    n1: Net<Proper, C>,
    e0: Seq<(String, PortId, u32)>,
    e1: Seq<(String, PortId, u32)>,
    level: u32,
    expr: Ast<V, F>,
    r: Result<(PortId, u32), DnxError>,
) -> bool {
    &&& n1.wf()
    &&& n1.n_slots() >= n0.n_slots()
    &&& env_in(e1, n1.n_slots())
    &&& (r matches Ok((p, _)) ==> port_in(p, n1.n_slots()))
    &&& (r matches Err(e) ==> elab_error(e))
    &&& ((expr is Abs || expr is App || expr is Fix || expr is Val || expr is Fun || expr is Handle) ==> (
    r matches Ok((_, l)) ==> l == level))
    &&& (expr is Fix ==> (r matches Ok((p, _)) ==> fix_tied(n1.slots(), p, level)))
    &&& (expr is Perform ==> r == Err::<(PortId, u32), DnxError>(DnxError::ReadbackIncomplete) && n1
        == n0 && e1 == e0)
    &&& ((expr matches Ast::Handle(_, bs) && bs@.len() != 1) ==> r == Err::<(PortId, u32), DnxError>(
        DnxError::ReadbackIncomplete,
    ) && n1 == n0 && e1 == e0)
    &&& (expr matches Ast::Name(x) ==> n1 == n0 && match env_pos(e0, x@) {
        Some(i) => r == Ok::<(PortId, u32), DnxError>((e0[i].1, e0[i].2)) && e1 == e0.remove(i),
        None => r == Err::<(PortId, u32), DnxError>(DnxError::ReadbackIncomplete) && e1 == e0,
    })
}

/// Elaborate `expr` at `level` under path `lo`: emit its agents into `net`
/// and return the port its value leaves from, with the level of that value
/// (for a name, the level it was bound at). Names are looked up, and taken
/// out of scope, in `env`; `usage_levels` gives the level at which each
/// shared name is used. A handler with exactly one branch is elaborated as
/// the computation applied to the identity and to a function of label,
/// argument and continuation that discards the label; an effect
/// operation, or a handler with another number of branches, cannot be
/// elaborated.
#[verifier::spinoff_prover]
#[verifier::rlimit(100)]
fn elab_impl<C: NetClassMarker, V: PrimVal, F: PrimFun, L: LeafElab<V, F, C>>(
    net: &mut Net<Proper, C>,
    leaves: &mut L,
    level: u32,
    env: &mut Vec<(String, PortId, u32)>,
    lo: LOPath,
    expr: &Ast<V, F>,
    usage_levels: &Vec<(String, u32)>,
) -> (r: Result<(PortId, u32), DnxError>)
    requires
        old(net).wf(),
        lo.wf(),
        env_in(old(env)@, old(net).n_slots()),
    ensures
        elab_post(*old(net), *final(net), old(env)@, final(env)@, level, *expr, r),
    decreases expr,
{
    proof {
        lemma_sentinels();
    }
    match expr {
        Ast::Name(x) => {
            let ghost e0 = env@;
            match env_take(env, x) {
                Some((p, l)) => {
                    proof {
                        let i = env_pos(e0, x@)->0;
                        assert(port_in(e0[i].1, net.n_slots()));
                        e0.remove_ensures(i);
                        assert forall|j: int| 0 <= j < env@.len() implies port_in(
                            (#[trigger] env@[j]).1,
                            net.n_slots(),
                        ) by {
                            if j < i {
                                assert(env@[j] == e0[j]);
                            } else {
                                assert(env@[j] == e0[j + 1]);
                            }
                        }
                    }
                    Ok((p, l))
                },
                None => Err(DnxError::ReadbackIncomplete),
            }
        },
        Ast::Abs(x, body) => {
            let abs = match net.alloc_abs() {
                Ok(a) => a,
                Err(e) => {
                    return Err(e);
                },
            };
            let ghost n1 = net.n_slots();
            proof {
                let idx = crate::port::raw_slot(abs.principal.0);
                lemma_agent_in(abs, idx, net.slots()[idx as int].generation, n1);
                lemma_env_grow(env@, old(net).n_slots(), n1);
            }
            let l1 = match next_level(level) {
                Ok(v) => v,
                Err(e) => {
                    return Err(e);
                },
            };
            env_put(env, x, abs.aux1, l1, Ghost(n1));
            let lo_body = match left(&lo) {
                Ok(v) => v,
                Err(e) => {
                    return Err(e);
                },
            };
            let (body_p, _) = match elab_impl(net, leaves, level, env, lo_body, body, usage_levels) {
                Ok(v) => v,
                Err(e) => {
                    return Err(e);
                },
            };
            env_drop(env, x, Ghost(net.n_slots()));
            let _ = net.connect(abs.aux0, body_p, lo_body);
            proof {
                lemma_env_grow(env@, net.n_slots(), net.n_slots());
            }
            Ok((abs.principal, level))
        },
        Ast::App(f, x) => {
            let app = match net.alloc_app() {
                Ok(a) => a,
                Err(e) => {
                    return Err(e);
                },
            };
            proof {
                let idx = crate::port::raw_slot(app.principal.0);
                lemma_agent_in(app, idx, net.slots()[idx as int].generation, net.n_slots());
                lemma_env_grow(env@, old(net).n_slots(), net.n_slots());
            }
            let lo_fn = match left(&lo) {
                Ok(v) => v,
                Err(e) => {
                    return Err(e);
                },
            };
            let ghost n1 = net.n_slots();
            let (f_p, _) = match elab_impl(net, leaves, level, env, lo_fn, f, usage_levels) {
                Ok(v) => v,
                Err(e) => {
                    return Err(e);
                },
            };
            let lo_arg = match right(&lo) {
                Ok(v) => v,
                Err(e) => {
                    return Err(e);
                },
            };
            let l1 = match next_level(level) {
                Ok(v) => v,
                Err(e) => {
                    return Err(e);
                },
            };
            let ghost n2 = net.n_slots();
            let (a_p, _) = match elab_impl(net, leaves, l1, env, lo_arg, x, usage_levels) {
                Ok(v) => v,
                Err(e) => {
                    return Err(e);
                },
            };
            assert(port_in(f_p, net.n_slots()));
            let _ = net.connect(app.principal, f_p, lo_fn);
            let _ = net.connect(app.aux1, a_p, lo_arg);
            Ok((app.aux0, level))
        },
        Ast::Rep(e, a, b, body) => {
            let la = match level_in(usage_levels, a.as_str()) {
                Some(v) => v,
                None => level,
            };
            let lb = match level_in(usage_levels, b.as_str()) {
                Some(v) => v,
                None => level,
            };
            let (e_p, rep_level) = match elab_impl(net, leaves, level, env, lo, e, usage_levels) {
                Ok(v) => v,
                Err(err) => {
                    return Err(err);
                },
            };
            let d0 = match level_delta(la, rep_level) {
                Ok(v) => v,
                Err(err) => {
                    return Err(err);
                },
            };
            let d1 = match level_delta(lb, rep_level) {
                Ok(v) => v,
                Err(err) => {
                    return Err(err);
                },
            };
            let ghost n1 = net.n_slots();
            let rep = match net.alloc_rep_in(rep_level as u16, d0, d1) {
                Ok(v) => v,
                Err(err) => {
                    return Err(err);
                },
            };
            proof {
                let idx = crate::port::raw_slot(rep.principal.0);
                lemma_agent_in(rep, idx, net.slots()[idx as int].generation, net.n_slots());
                lemma_env_grow(env@, n1, net.n_slots());
            }
            let _ = net.connect(rep.principal, e_p, lo);
            env_put(env, a, rep.aux0, la, Ghost(net.n_slots()));
            env_put(env, b, rep.aux1, lb, Ghost(net.n_slots()));
            elab_impl(net, leaves, level, env, lo, body, usage_levels)
        },
        Ast::Era(e, body) => {
            let (e_p, _) = match elab_impl(net, leaves, level, env, lo, e, usage_levels) {
                Ok(v) => v,
                Err(err) => {
                    return Err(err);
                },
            };
            let _ = net.connect(Net::<Proper, C>::eraser_port(), e_p, lo);
            elab_impl(net, leaves, level, env, lo, body, usage_levels)
        },
        Ast::Fix(inner) => {
            let lo_fn = match left(&lo) {
                Ok(v) => v,
                Err(e) => {
                    return Err(e);
                },
            };
            let (inner_p, _) = match elab_impl(net, leaves, level, env, lo_fn, inner, usage_levels) {
                Ok(v) => v,
                Err(e) => {
                    return Err(e);
                },
            };
            let ghost n1 = net.n_slots();
            let p = match build_fix(net, inner_p, level, lo, lo_fn) {
                Ok(p) => p,
                Err(e) => {
                    return Err(e);
                },
            };
            proof {
                lemma_env_grow(env@, n1, net.n_slots());
            }
            Ok((p, level))
        },
        Ast::Perform(_, _) => Err(DnxError::ReadbackIncomplete),
        Ast::Handle(comp, branches) => {
            if branches.len() != 1 {
                return Err(DnxError::ReadbackIncomplete);
            }
            let br = &branches[0];
            proof {
                assert(decreases_to!(*expr => (*expr)->Handle_1));
                assert(decreases_to!(*branches => branches@));
                assert(decreases_to!(branches@ => branches@[0]));
                assert(decreases_to!(branches@[0] => branches@[0].body));
            }
            let app1 = match net.alloc_app() {
                Ok(a) => a,
                Err(e) => {
                    return Err(e);
                },
            };
            proof {
                let idx = crate::port::raw_slot(app1.principal.0);
                lemma_agent_in(app1, idx, net.slots()[idx as int].generation, net.n_slots());
                lemma_env_grow(env@, old(net).n_slots(), net.n_slots());
            }
            let lo_fn = match left(&lo) {
                Ok(v) => v,
                Err(e) => {
                    return Err(e);
                },
            };
            let ghost m1 = net.n_slots();
            let app2 = match net.alloc_app() {
                Ok(a) => a,
                Err(e) => {
                    return Err(e);
                },
            };
            proof {
                let idx = crate::port::raw_slot(app2.principal.0);
                lemma_agent_in(app2, idx, net.slots()[idx as int].generation, net.n_slots());
                lemma_env_grow(env@, m1, net.n_slots());
            }
            let lo_fn2 = match left(&lo_fn) {
                Ok(v) => v,
                Err(e) => {
                    return Err(e);
                },
            };
            let (c_p, _) = match elab_impl(net, leaves, level, env, lo_fn2, comp, usage_levels) {
                Ok(v) => v,
                Err(e) => {
                    return Err(e);
                },
            };
            let lo_arg2 = match right(&lo_fn) {
                Ok(v) => v,
                Err(e) => {
                    return Err(e);
                },
            };
            let ghost m2 = net.n_slots();
            let id = match net.alloc_abs() {
                Ok(a) => a,
                Err(e) => {
                    return Err(e);
                },
            };
            proof {
                let idx = crate::port::raw_slot(id.principal.0);
                lemma_agent_in(id, idx, net.slots()[idx as int].generation, net.n_slots());
                lemma_env_grow(env@, m2, net.n_slots());
            }
            let lo_id = match left(&lo_arg2) {
                Ok(v) => v,
                Err(e) => {
                    return Err(e);
                },
            };
            let _ = net.connect(id.aux0, id.aux1, lo_id);
            let _ = net.connect(app2.principal, c_p, lo_fn2);
            let _ = net.connect(app2.aux1, id.principal, lo_arg2);
            let lo_arg = match right(&lo) {
                Ok(v) => v,
                Err(e) => {
                    return Err(e);
                },
            };
            let l1 = match next_level(level) {
                Ok(v) => v,
                Err(e) => {
                    return Err(e);
                },
            };
            let l2 = match next_level(l1) {
                Ok(v) => v,
                Err(e) => {
                    return Err(e);
                },
            };
            let ghost m3 = net.n_slots();
            let abs_l = match net.alloc_abs() {
                Ok(a) => a,
                Err(e) => {
                    return Err(e);
                },
            };
            proof {
                let idx = crate::port::raw_slot(abs_l.principal.0);
                lemma_agent_in(abs_l, idx, net.slots()[idx as int].generation, net.n_slots());
                lemma_env_grow(env@, m3, net.n_slots());
            }
            let lo1 = match left(&lo_arg) {
                Ok(v) => v,
                Err(e) => {
                    return Err(e);
                },
            };
            let ghost m4 = net.n_slots();
            let abs_a = match net.alloc_abs() {
                Ok(a) => a,
                Err(e) => {
                    return Err(e);
                },
            };
            proof {
                let idx = crate::port::raw_slot(abs_a.principal.0);
                lemma_agent_in(abs_a, idx, net.slots()[idx as int].generation, net.n_slots());
                lemma_env_grow(env@, m4, net.n_slots());
            }
            env_put(env, &br.arg_name, abs_a.aux1, l2, Ghost(net.n_slots()));
            let lo2 = match left(&lo1) {
                Ok(v) => v,
                Err(e) => {
                    return Err(e);
                },
            };
            let ghost m5 = net.n_slots();
            let abs_k = match net.alloc_abs() {
                Ok(a) => a,
                Err(e) => {
                    return Err(e);
                },
            };
            proof {
                let idx = crate::port::raw_slot(abs_k.principal.0);
                lemma_agent_in(abs_k, idx, net.slots()[idx as int].generation, net.n_slots());
                lemma_env_grow(env@, m5, net.n_slots());
            }
            env_put(env, &br.k_name, abs_k.aux1, l2, Ghost(net.n_slots()));
            let lo3 = match left(&lo2) {
                Ok(v) => v,
                Err(e) => {
                    return Err(e);
                },
            };
            let _ = net.connect(Net::<Proper, C>::eraser_port(), abs_l.aux1, lo3);
            let (b_p, _) = match elab_impl(net, leaves, l1, env, lo3, &br.body, usage_levels) {
                Ok(v) => v,
                Err(e) => {
                    return Err(e);
                },
            };
            env_drop(env, &br.k_name, Ghost(net.n_slots()));
            let _ = net.connect(abs_k.aux0, b_p, lo3);
            env_drop(env, &br.arg_name, Ghost(net.n_slots()));
            let _ = net.connect(abs_a.aux0, abs_k.principal, lo2);
            let _ = net.connect(abs_l.aux0, abs_a.principal, lo1);
            let _ = net.connect(app1.principal, app2.aux0, lo_fn);
            let _ = net.connect(app1.aux1, abs_l.principal, lo_arg);
            Ok((app1.aux0, level))
        },
        Ast::Val(v) => {
            let ghost n0 = net.n_slots();
            match leaves.elab_val(net, v) {
                Ok(p) => {
                    proof {
                        lemma_env_grow(env@, n0, net.n_slots());
                    }
                    Ok((p, level))
                },
                Err(e) => {
                    proof {
                        lemma_env_grow(env@, n0, net.n_slots());
                    }
                    Err(e)
                },
            }
        },
        Ast::Fun(f) => {
            let ghost n0 = net.n_slots();
            match leaves.elab_fun(net, f) {
                Ok(p) => {
                    proof {
                        lemma_env_grow(env@, n0, net.n_slots());
                    }
                    Ok((p, level))
                },
                Err(e) => {
                    proof {
                        lemma_env_grow(env@, n0, net.n_slots());
                    }
                    Err(e)
                },
            }
        },
    }
}

/// Elaborate a resolved, linearity-checked term into `net` (see
/// `elab_impl`), with every primitive leaf a free-variable agent.
pub fn elaborate<C: NetClassMarker, V: PrimVal, F: PrimFun>(
    net: &mut Net<Proper, C>,
    level: u32,
    env: &mut Vec<(String, PortId, u32)>,
    lo: LOPath,
    expr: &Ast<V, F>,
    usage_levels: &Vec<(String, u32)>,
) -> (r: Result<(PortId, u32), DnxError>)
    requires
        old(net).wf(),
        lo.wf(),
        env_in(old(env)@, old(net).n_slots()),
    ensures
        elab_post(*old(net), *final(net), old(env)@, final(env)@, level, *expr, r),
{
    let mut leaves = NoPrims;
    elab_impl(net, &mut leaves, level, env, lo, expr, usage_levels)
}

/// Elaborate with primitive leaves made by `leaves`.
pub fn elaborate_with<C: NetClassMarker, V: PrimVal, F: PrimFun, L: LeafElab<V, F, C>>(
    net: &mut Net<Proper, C>,
    leaves: &mut L,
    level: u32,
    env: &mut Vec<(String, PortId, u32)>,
    lo: LOPath,
    expr: &Ast<V, F>,
    usage_levels: &Vec<(String, u32)>,
) -> (r: Result<(PortId, u32), DnxError>)
    requires
        old(net).wf(),
        lo.wf(),
        env_in(old(env)@, old(net).n_slots()),
    ensures
        elab_post(*old(net), *final(net), old(env)@, final(env)@, level, *expr, r),
{
    elab_impl(net, leaves, level, env, lo, expr, usage_levels)
}

} // verus!
