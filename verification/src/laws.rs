//! The laws of the core, stated and proved over the models that the
//! executable contracts use: splitting a fuel budget, fuel beyond natural
//! termination, idempotence of a drained result, and the permanence of
//! staleness. The monoid laws of composition stand beside `njoin` in
//! `atom`, the parse-render round trip stands beside the reader in `text`,
//! and the guarantees of collection stand in the contracts of `mark`,
//! `sweep` and `flush`.

use vstd::prelude::*;

use crate::atom::Atom;
use crate::heap::{Heap, Pointer};
use crate::atom::{nil_leaves, Opcode};
use crate::semantics::{flush_atoms, init_state, run_spec, squash, step_spec, MState};

verus! {

/// Running a machine further continues the same run: the fuel budget splits
/// across the two calls.
pub proof fn lemma_run_add(s0: MState, d: Map<Seq<char>, Seq<Atom>>, f1: nat, f2: nat)
    requires
        run_spec(s0, d, f1) is Some,
    ensures
        run_spec(s0, d, f1 + f2) == run_spec(run_spec(s0, d, f1)->Some_0, d, f2),
    decreases f1,
{
    if f1 == 0 || s0.con.len() == 0 {
        if s0.con.len() == 0 {
            crate::semantics::lemma_run_stall(s0, d, 0, f1 + f2);
            crate::semantics::lemma_run_stall(s0, d, 0, f2);
        }
    } else {
        let s2 = crate::semantics::step_spec(s0, d)->Some_0;
        lemma_run_add(s2, d, (f1 - 1) as nat, f2);
    }
}

/// Resumability: a partial result whose environment and thunk list are empty
/// and whose remaining continuation holds no `Empty` leaves is a faithful
/// snapshot. Feeding it back into the machine with the rest of the fuel
/// budget flushes to the same term as one uninterrupted run, and fails
/// exactly when the uninterrupted run fails. A split that interrupts the
/// machine with values on its environment does not resume for free: the
/// flushed values must be re-read, which costs fuel the uninterrupted run
/// never spent.
pub proof fn lemma_reduce_split(s0: MState, d: Map<Seq<char>, Seq<Atom>>, f1: nat, f2: nat)
    requires
        run_spec(s0, d, f1) matches Some(m) && m.env.len() == 0 && m.err.len() == 0 && (forall|
            i: int,
        | 0 <= i < m.con.len() ==> m.con[i] != Atom::Nil),
    ensures
        run_spec(init_state(flush_atoms(run_spec(s0, d, f1)->Some_0)), d, f2) is Some <==> run_spec(
            s0,
            d,
            f1 + f2,
        ) is Some,
        (run_spec(init_state(flush_atoms(run_spec(s0, d, f1)->Some_0)), d, f2) is Some
            && run_spec(s0, d, f1 + f2) is Some) ==> flush_atoms(
            run_spec(init_state(flush_atoms(run_spec(s0, d, f1)->Some_0)), d, f2)->Some_0,
        ) == flush_atoms(run_spec(s0, d, f1 + f2)->Some_0),
{
    let m = run_spec(s0, d, f1)->Some_0;
    lemma_run_add(s0, d, f1, f2);
    assert(run_spec(s0, d, f1 + f2) == run_spec(m, d, f2));
    let pred = |a: Atom| !(a is Nil);
    if m.con.len() == 0 {
        assert(m.err + m.env + m.con =~= Seq::<Atom>::empty());
        assert(Seq::<Atom>::empty().filter(pred) =~= Seq::<Atom>::empty()) by {
            reveal(Seq::filter);
        }
        assert(flush_atoms(m) == crate::atom::nil_leaves());
        let s1 = init_state(flush_atoms(m));
        assert(run_spec(m, d, f2) == Some(m));
        if f2 == 0 {
            assert(run_spec(s1, d, f2) == Some(s1));
            assert(flush_atoms(s1) == flush_atoms(m)) by {
                assert(s1.err + s1.env + s1.con =~= crate::atom::nil_leaves());
                assert(squash(crate::atom::nil_leaves()) == crate::atom::nil_leaves()) by {
                    crate::machine::lemma_squash_clean(crate::atom::nil_leaves());
                }
            }
        } else {
            assert(s1.con.len() == 1 && s1.con[0] == Atom::Nil);
            let s2 = crate::semantics::step_spec(s1, d)->Some_0;
            assert(s2.con =~= Seq::<Atom>::empty());
            assert(s2.env =~= Seq::<Atom>::empty());
            assert(s2.err =~= Seq::<Atom>::empty());
            assert(run_spec(s1, d, 1) == run_spec(s2, d, 0));
            assert(run_spec(s1, d, 1) == Some(s2));
            crate::semantics::lemma_run_stall(s1, d, 1, f2);
            assert(run_spec(s1, d, f2) == Some(s2));
            assert(flush_atoms(s2) == flush_atoms(m)) by {
                assert(s2.err + s2.env + s2.con =~= Seq::<Atom>::empty());
            }
        }
    } else {
        assert(m.err + m.env + m.con =~= m.con);
        assert(m.con.filter(pred) == m.con) by {
            crate::machine::lemma_filter_all_pub(m.con, pred);
        }
        assert(flush_atoms(m) == m.con);
        let s1 = init_state(flush_atoms(m));
        assert(s1 =~~= m) by {
            assert(s1.con == m.con);
            assert(s1.env =~= m.env);
            assert(s1.err =~= m.err);
        }
        assert(run_spec(s1, d, f2) == run_spec(m, d, f2));
    }
}

/// Stale-pointer safety across allocation: once a pointer's stamp is below
/// the heap's generation and its slot does not carry it, no extension of the
/// heap — however many nodes are allocated, and whichever slots they reuse —
/// can make it valid again, because every slot filled after a sweep is
/// stamped with the current generation. Together with the `Null` clauses of
/// the accessors and the staleness clause of `flush`, every access through
/// such a pointer keeps failing with `Null`.
pub proof fn lemma_stale_preserved(h1: Heap, h2: Heap, p: Pointer)
    requires
        Heap::extends(h2, h1),
        !h1.valid(p),
        p.stamp() < h1.gen(),
        0 <= p.idx() < h1.cap(),
    ensures
        !h2.valid(p),
        p.stamp() < h2.gen(),
{
    if h2.occupied(p.idx()) {
        if h1.occupied(p.idx()) {
            assert(h2.slot_stamp(p.idx()) == h1.slot_stamp(p.idx()));
        } else {
            assert(h2.slot_stamp(p.idx()) == h1.gen());
        }
    }
}


/// The length of the leading run of quotations.
pub open spec fn quo_run(s: Seq<Atom>) -> nat
    decreases s.len(),
{
    if s.len() == 0 || !(s[0] is Quo) {
        0
    } else {
        1 + quo_run(s.skip(1))
    }
}

/// A quotation run never runs past the end.
proof fn lemma_quo_run_bound(s: Seq<Atom>)
    ensures
        quo_run(s) <= s.len(),
        forall|i: int| 0 <= i < quo_run(s) ==> #[trigger] s[i] is Quo,
    decreases s.len(),
{
    if s.len() > 0 && s[0] is Quo {
        lemma_quo_run_bound(s.skip(1));
        assert forall|i: int| 0 <= i < quo_run(s) implies #[trigger] s[i] is Quo by {
            if i > 0 {
                assert(s[i] == s.skip(1)[i - 1]);
            }
        }
    }
}

/// An instruction that freezes with `pending` operands available: an unbound
/// symbol, a primitive short of operands, or a reserved name.
pub open spec fn stuck_atom(a: Atom, pending: nat, d: Map<Seq<char>, Seq<Atom>>) -> bool {
    match a {
        Atom::Sym(w) => !d.dom().contains(w),
        Atom::Op(op) => match op {
            Opcode::App => pending < 1,
            Opcode::Box => pending < 1,
            Opcode::Cat => pending < 2,
            Opcode::Copy => pending < 1,
            Opcode::Drop => pending < 1,
            Opcode::Swap => pending < 2,
            Opcode::Fix => pending < 1,
            Opcode::Prop => true,
            Opcode::Forall => true,
        },
        _ => false,
    }
}

/// A well-formed thunk history: runs of frozen values, each closed by an
/// instruction that was stuck given the values before it. `pending` counts
/// values already on the environment when the history's first instruction
/// froze.
pub open spec fn hist_wf(s: Seq<Atom>, pending: nat, d: Map<Seq<char>, Seq<Atom>>) -> bool
    decreases s.len(),
    via hist_wf_decreases
{
    if s.len() == 0 {
        true
    } else {
        let k = quo_run(s) as int;
        &&& k < s.len()
        &&& stuck_atom(s[k], (pending + k) as nat, d)
        &&& hist_wf(s.skip(k + 1), 0, d)
    }
}

#[via_fn]
proof fn hist_wf_decreases(s: Seq<Atom>, pending: nat, d: Map<Seq<char>, Seq<Atom>>) {
    lemma_quo_run_bound(s);
}

/// Every value in a row is a quotation.
pub open spec fn all_quo(v: Seq<Atom>) -> bool {
    forall|i: int| 0 <= i < v.len() ==> #[trigger] v[i] is Quo
}


proof fn lemma_quo_run_stop(x: Seq<Atom>, y: Seq<Atom>)
    requires
        quo_run(x) < x.len(),
    ensures
        quo_run(x + y) == quo_run(x),
    decreases x.len(),
{
    lemma_quo_run_bound(x);
    if x.len() > 0 && x[0] is Quo {
        assert((x + y)[0] == x[0]);
        assert((x + y).skip(1) =~= x.skip(1) + y);
        lemma_quo_run_stop(x.skip(1), y);
    } else {
        assert((x + y)[0] == x[0]);
    }
}

proof fn lemma_quo_run_full(x: Seq<Atom>, y: Seq<Atom>)
    requires
        all_quo(x),
        y.len() >= 1,
        !(y[0] is Quo),
    ensures
        quo_run(x + y) == x.len(),
    decreases x.len(),
{
    if x.len() == 0 {
        assert(x + y =~= y);
    } else {
        assert((x + y)[0] == x[0]);
        assert((x + y).skip(1) =~= x.skip(1) + y);
        assert(forall|i: int| 0 <= i < x.skip(1).len() ==> x.skip(1)[i] == x[i + 1]);
        lemma_quo_run_full(x.skip(1), y);
    }
}

/// Freezing one more stuck instruction keeps the thunk history well-formed.
proof fn lemma_hist_append(e: Seq<Atom>, v: Seq<Atom>, a: Atom, d: Map<Seq<char>, Seq<Atom>>)
    requires
        hist_wf(e, 0, d),
        all_quo(v),
        stuck_atom(a, v.len() as nat, d),
    ensures
        hist_wf(e + v + seq![a], 0, d),
    decreases e.len(),
{
    let w = e + v + seq![a];
    assert(!(a is Quo));
    if e.len() == 0 {
        assert(w =~= v + seq![a]);
        assert((seq![a])[0] == a);
        lemma_quo_run_full(v, seq![a]);
        assert(quo_run(w) == v.len());
        assert(w[v.len() as int] == a);
        assert(w.skip(v.len() as int + 1) =~= Seq::<Atom>::empty());
        assert(hist_wf(w.skip(v.len() as int + 1), 0, d));
        assert(stuck_atom(w[v.len() as int], (0 + v.len() as int) as nat, d));
        assert(hist_wf(w, 0, d));
    } else {
        let k = quo_run(e) as int;
        assert(k < e.len());
        lemma_quo_run_stop(e, v + seq![a]);
        assert(w =~= e + (v + seq![a]));
        assert(quo_run(w) == k);
        assert((e + (v + seq![a]))[k] == e[k]);
        assert(w[k] == e[k]);
        assert(stuck_atom(e[k], (0 + k) as nat, d));
        assert(w.skip(k + 1) =~= e.skip(k + 1) + v + seq![a]);
        lemma_hist_append(e.skip(k + 1), v, a, d);
        assert(hist_wf(w.skip(k + 1), 0, d));
        assert((quo_run(w) as int) < w.len());
        assert(hist_wf(w, 0, d));
    }
}

/// One machine step keeps the thunk history well-formed and the environment
/// a row of quotations.
proof fn lemma_step_hist(s: MState, d: Map<Seq<char>, Seq<Atom>>)
    requires
        s.con.len() > 0,
        hist_wf(s.err, 0, d),
        all_quo(s.env),
        step_spec(s, d) is Some,
    ensures
        hist_wf(step_spec(s, d)->Some_0.err, 0, d),
        all_quo(step_spec(s, d)->Some_0.env),
{
    let s2 = step_spec(s, d)->Some_0;
    match s.con[0] {
        Atom::Nil => {},
        Atom::Ann(_) => {},
        Atom::Lit(_) => {},
        Atom::Quo(q) => {
            assert(all_quo(s2.env)) by {
                assert(forall|i: int|
                    0 <= i < s.env.len() ==> s2.env[i] == s.env[i]);
            }
        },
        Atom::Sym(w) => {
            if d.dom().contains(w) {
            } else {
                assert(stuck_atom(s.con[0], s.env.len() as nat, d));
                lemma_hist_append(s.err, s.env, s.con[0], d);
                assert(s2.err =~= s.err + s.env + seq![s.con[0]]);
            }
        },
        Atom::Op(op) => {
            if crate::semantics::step_op(s, op, s.con[0], s.con.skip(1)) == Some(
                crate::semantics::thunked(s, s.con[0]),
            ) && stuck_atom(s.con[0], s.env.len() as nat, d) {
                lemma_hist_append(s.err, s.env, s.con[0], d);
                assert(s2.err =~= s.err + s.env + seq![s.con[0]]);
            } else {
                match op {
                    Opcode::App => {
                        if s.env.len() >= 1 {
                            assert(all_quo(s2.env)) by {
                                assert(forall|i: int|
                                    0 <= i < s2.env.len() ==> s2.env[i] == s.env[i]);
                            }
                        } else {
                            lemma_hist_append(s.err, s.env, s.con[0], d);
                            assert(s2.err =~= s.err + s.env + seq![s.con[0]]);
                        }
                    },
                    Opcode::Box => {
                        if s.env.len() >= 1 {
                            assert(all_quo(s2.env)) by {
                                assert(forall|i: int|
                                    0 <= i < s2.env.len() - 1 ==> s2.env[i] == s.env[i]);
                            }
                        } else {
                            lemma_hist_append(s.err, s.env, s.con[0], d);
                            assert(s2.err =~= s.err + s.env + seq![s.con[0]]);
                        }
                    },
                    Opcode::Cat => {
                        if s.env.len() >= 2 {
                            assert(all_quo(s2.env)) by {
                                assert(forall|i: int|
                                    0 <= i < s2.env.len() - 1 ==> s2.env[i] == s.env[i]);
                            }
                        } else {
                            lemma_hist_append(s.err, s.env, s.con[0], d);
                            assert(s2.err =~= s.err + s.env + seq![s.con[0]]);
                        }
                    },
                    Opcode::Copy => {
                        if s.env.len() >= 1 {
                            assert(all_quo(s2.env)) by {
                                assert(forall|i: int|
                                    0 <= i < s2.env.len() - 1 ==> s2.env[i] == s.env[i]);
                                assert(s2.env.last() == s.env.last());
                            }
                        } else {
                            lemma_hist_append(s.err, s.env, s.con[0], d);
                            assert(s2.err =~= s.err + s.env + seq![s.con[0]]);
                        }
                    },
                    Opcode::Drop => {
                        if s.env.len() >= 1 {
                            assert(all_quo(s2.env)) by {
                                assert(forall|i: int|
                                    0 <= i < s2.env.len() ==> s2.env[i] == s.env[i]);
                            }
                        } else {
                            lemma_hist_append(s.err, s.env, s.con[0], d);
                            assert(s2.err =~= s.err + s.env + seq![s.con[0]]);
                        }
                    },
                    Opcode::Swap => {
                        if s.env.len() >= 2 {
                            assert(all_quo(s2.env)) by {
                                assert(forall|i: int|
                                    0 <= i < s2.env.len() - 2 ==> s2.env[i] == s.env[i]);
                                assert(s2.env[s2.env.len() - 1] == s.env[s.env.len() - 2]);
                                assert(s2.env[s2.env.len() - 2] == s.env[s.env.len() - 1]);
                            }
                        } else {
                            lemma_hist_append(s.err, s.env, s.con[0], d);
                            assert(s2.err =~= s.err + s.env + seq![s.con[0]]);
                        }
                    },
                    Opcode::Fix => {
                        if s.env.len() >= 1 {
                            assert(all_quo(s2.env)) by {
                                assert(forall|i: int|
                                    0 <= i < s2.env.len() - 1 ==> s2.env[i] == s.env[i]);
                            }
                        } else {
                            lemma_hist_append(s.err, s.env, s.con[0], d);
                            assert(s2.err =~= s.err + s.env + seq![s.con[0]]);
                        }
                    },
                    Opcode::Prop => {
                        lemma_hist_append(s.err, s.env, s.con[0], d);
                        assert(s2.err =~= s.err + s.env + seq![s.con[0]]);
                    },
                    Opcode::Forall => {
                        lemma_hist_append(s.err, s.env, s.con[0], d);
                        assert(s2.err =~= s.err + s.env + seq![s.con[0]]);
                    },
                }
            }
        },
    }
}

/// A whole run keeps the thunk history well-formed and the environment a
/// row of quotations.
proof fn lemma_run_hist(s: MState, d: Map<Seq<char>, Seq<Atom>>, f: nat)
    requires
        hist_wf(s.err, 0, d),
        all_quo(s.env),
        run_spec(s, d, f) is Some,
    ensures
        hist_wf(run_spec(s, d, f)->Some_0.err, 0, d),
        all_quo(run_spec(s, d, f)->Some_0.env),
    decreases f,
{
    if f == 0 || s.con.len() == 0 {
    } else {
        lemma_step_hist(s, d);
        lemma_run_hist(step_spec(s, d)->Some_0, d, (f - 1) as nat);
    }
}


/// Replaying a flushed machine state re-freezes everything: every value is
/// pushed back, every frozen instruction is still stuck when it is reached,
/// and the concatenation of thunk list, environment and continuation never
/// changes, however much fuel the replay is given.
proof fn lemma_replay(
    pre: Seq<Atom>,
    s: Seq<Atom>,
    vdone: Seq<Atom>,
    v: Seq<Atom>,
    d: Map<Seq<char>, Seq<Atom>>,
    g: nat,
)
    requires
        hist_wf(s, vdone.len() as nat, d),
        all_quo(vdone),
        all_quo(v),
    ensures
        run_spec(MState { con: s + v, env: vdone, err: pre }, d, g) matches Some(sg)
            && sg.err + sg.env + sg.con == pre + vdone + (s + v),
    decreases g,
{
    let st = MState { con: s + v, env: vdone, err: pre };
    if g == 0 || st.con.len() == 0 {
        assert(run_spec(st, d, g) == Some(st));
    } else if s.len() > 0 {
        let k = quo_run(s) as int;
        lemma_quo_run_bound(s);
        assert((s + v)[0] == s[0]);
        if k > 0 {
            assert(s[0] is Quo);
            let s2 = step_spec(st, d)->Some_0;
            assert(s2.con =~= s.skip(1) + v) by {
                assert((s + v).skip(1) =~= s.skip(1) + v);
            }
            assert(s2.env == vdone.push(s[0]));
            assert(all_quo(vdone.push(s[0]))) by {
                assert(forall|i: int|
                    0 <= i < vdone.len() ==> vdone.push(s[0])[i] == vdone[i]);
            }
            assert(hist_wf(s.skip(1), vdone.len() + 1, d)) by {
                assert(s.skip(1)[k - 1] == s[k]);
                assert(quo_run(s.skip(1)) == k - 1);
                assert(s.skip(1).skip(k) =~= s.skip(k + 1));
                assert(stuck_atom(s[k], (vdone.len() + k) as nat, d));
            }
            lemma_replay(pre, s.skip(1), vdone.push(s[0]), v, d, (g - 1) as nat);
            let sg = run_spec(MState { con: s.skip(1) + v, env: vdone.push(s[0]), err: pre },
                d, (g - 1) as nat)->Some_0;
            assert(run_spec(st, d, g) == Some(sg)) by {
                assert(step_spec(st, d) == Some(
                    MState { con: s.skip(1) + v, env: vdone.push(s[0]), err: pre },
                )) by {
                    assert(s2.con =~= s.skip(1) + v);
                    assert(s2 =~~= MState {
                        con: s.skip(1) + v,
                        env: vdone.push(s[0]),
                        err: pre,
                    });
                }
            }
            assert(pre + vdone.push(s[0]) + (s.skip(1) + v) =~= pre + vdone + (s + v));
        } else {
            let a = s[0];
            assert(stuck_atom(a, vdone.len() as nat, d));
            assert(!(a is Quo));
            let thunk_state = MState {
                con: s.skip(1) + v,
                env: Seq::empty(),
                err: pre + vdone + seq![a],
            };
            assert(step_spec(st, d) == Some(thunk_state)) by {
                assert(crate::semantics::thunked(st, a) =~~= thunk_state) by {
                    assert((s + v).skip(1) =~= s.skip(1) + v);
                    assert(st.err + st.env + seq![a] =~= pre + vdone + seq![a]);
                    assert(crate::semantics::thunked(st, a).env =~= Seq::<Atom>::empty());
                }
                match a {
                    Atom::Sym(w) => {},
                    Atom::Op(op) => {},
                    _ => {
                        assert(false);
                    },
                }
            }
            assert(hist_wf(s.skip(1), 0, d));
            assert(all_quo(Seq::<Atom>::empty()));
            lemma_replay(pre + vdone + seq![a], s.skip(1), Seq::empty(), v, d, (g - 1) as nat);
            let sg = run_spec(thunk_state, d, (g - 1) as nat)->Some_0;
            assert(run_spec(st, d, g) == Some(sg));
            assert((pre + vdone + seq![a]) + Seq::<Atom>::empty() + (s.skip(1) + v) =~= pre
                + vdone + (s + v));
        }
    } else {
        assert(s + v =~= v);
        assert(v.len() > 0);
        assert(v[0] is Quo);
        let s2 = step_spec(st, d)->Some_0;
        assert(s2.con =~= Seq::<Atom>::empty() + v.skip(1)) by {
            assert((s + v).skip(1) =~= v.skip(1));
            assert(Seq::<Atom>::empty() + v.skip(1) =~= v.skip(1));
        }
        assert(all_quo(v.skip(1))) by {
            assert(forall|i: int| 0 <= i < v.skip(1).len() ==> v.skip(1)[i] == v[i + 1]);
        }
        assert(all_quo(vdone.push(v[0]))) by {
            assert(forall|i: int| 0 <= i < vdone.len() ==> vdone.push(v[0])[i] == vdone[i]);
        }
        assert(hist_wf(Seq::<Atom>::empty(), vdone.len() + 1, d));
        lemma_replay(pre, Seq::empty(), vdone.push(v[0]), v.skip(1), d, (g - 1) as nat);
        let nxt = MState { con: Seq::empty() + v.skip(1), env: vdone.push(v[0]), err: pre };
        let sg = run_spec(nxt, d, (g - 1) as nat)->Some_0;
        assert(run_spec(st, d, g) == Some(sg)) by {
            assert(step_spec(st, d) == Some(nxt)) by {
                assert(s2 =~~= nxt);
            }
        }
        assert(pre + vdone.push(v[0]) + (Seq::<Atom>::empty() + v.skip(1)) =~= pre + vdone + (s
            + v));
    }
}

/// No leaf of a well-formed thunk history is `Empty`.
proof fn lemma_hist_no_nil(s: Seq<Atom>, pending: nat, d: Map<Seq<char>, Seq<Atom>>)
    requires
        hist_wf(s, pending, d),
    ensures
        forall|i: int| 0 <= i < s.len() ==> #[trigger] s[i] != Atom::Nil,
    decreases s.len(),
{
    if s.len() > 0 {
        let k = quo_run(s) as int;
        lemma_quo_run_bound(s);
        lemma_hist_no_nil(s.skip(k + 1), 0, d);
        assert forall|i: int| 0 <= i < s.len() implies #[trigger] s[i] != Atom::Nil by {
            if i < k {
                assert(s[i] is Quo);
            } else if i == k {
                assert(stuck_atom(s[k], (pending + k) as nat, d));
            } else {
                assert(s[i] == s.skip(k + 1)[i - k - 1]);
            }
        }
    }
}

/// Idempotence: a result whose continuation drained naturally is fully
/// reduced-or-stuck, and reduces to itself under any further fuel budget —
/// every flushed value is pushed back and every frozen instruction freezes
/// again, so the flush never changes.
pub proof fn lemma_reduce_idempotent(
    atoms: Seq<Atom>,
    d: Map<Seq<char>, Seq<Atom>>,
    f: nat,
    g: nat,
)
    requires
        run_spec(init_state(atoms), d, f) matches Some(m) && m.con.len() == 0,
    ensures
        run_spec(
            init_state(flush_atoms(run_spec(init_state(atoms), d, f)->Some_0)),
            d,
            g,
        ) matches Some(sg) && flush_atoms(sg) == flush_atoms(
            run_spec(init_state(atoms), d, f)->Some_0,
        ),
{
    let m = run_spec(init_state(atoms), d, f)->Some_0;
    assert(hist_wf(init_state(atoms).err, 0, d));
    assert(all_quo(init_state(atoms).env));
    lemma_run_hist(init_state(atoms), d, f);
    let content = m.err + m.env;
    assert(m.err + m.env + m.con =~= content);
    let pred = |a: Atom| !(a is Nil);
    lemma_hist_no_nil(m.err, 0, d);
    assert forall|i: int| 0 <= i < content.len() implies pred(#[trigger] content[i]) by {
        if i < m.err.len() {
            assert(content[i] == m.err[i]);
        } else {
            assert(content[i] == m.env[i - m.err.len()]);
            assert(m.env[i - m.err.len()] is Quo);
        }
    }
    if content.len() == 0 {
        assert(content.filter(pred) =~= Seq::<Atom>::empty()) by {
            reveal(Seq::filter);
        }
        assert(flush_atoms(m) == nil_leaves());
        let s1 = init_state(nil_leaves());
        if g == 0 {
            assert(run_spec(s1, d, g) == Some(s1));
            assert(flush_atoms(s1) == flush_atoms(m)) by {
                assert(s1.err + s1.env + s1.con =~= nil_leaves());
                crate::machine::lemma_squash_clean(nil_leaves());
            }
        } else {
            assert(s1.con.len() == 1 && s1.con[0] == Atom::Nil);
            let s2 = step_spec(s1, d)->Some_0;
            assert(s2.con =~= Seq::<Atom>::empty());
            assert(s2.env =~= Seq::<Atom>::empty());
            assert(s2.err =~= Seq::<Atom>::empty());
            assert(run_spec(s1, d, 1) == run_spec(s2, d, 0));
            crate::semantics::lemma_run_stall(s1, d, 1, g);
            assert(run_spec(s1, d, g) == Some(s2));
            assert(flush_atoms(s2) == flush_atoms(m)) by {
                assert(s2.err + s2.env + s2.con =~= Seq::<Atom>::empty());
            }
        }
    } else {
        crate::machine::lemma_filter_all_pub(content, pred);
        assert(flush_atoms(m) == content);
        lemma_replay(Seq::empty(), m.err, Seq::empty(), m.env, d, g);
        let st = MState { con: m.err + m.env, env: Seq::empty(), err: Seq::empty() };
        assert(init_state(content) =~~= st);
        let sg = run_spec(st, d, g)->Some_0;
        assert(run_spec(init_state(content), d, g) == Some(sg));
        assert(sg.err + sg.env + sg.con == Seq::<Atom>::empty() + Seq::<Atom>::empty() + (m.err
            + m.env));
        assert(Seq::<Atom>::empty() + Seq::<Atom>::empty() + (m.err + m.env) =~= content);
        assert(flush_atoms(sg) == squash(content));
        assert(squash(content) == flush_atoms(m));
    }
}

} // verus!
