//! The abstract reduction machine: one step of the rewrite relation over
//! leaf sequences, the fuel-bounded run, and the flush that renders a machine
//! state back into a single term. The executable machine is verified against
//! these definitions.

use vstd::prelude::*;

use crate::atom::{njoin, nil_leaves, Atom, Opcode};

verus! {

/// The abstract state of the reduction machine: the leaves still to execute
/// (front first), the values produced so far (bottom first), and the thunk
/// list in original program order.
pub ghost struct MState {
    pub con: Seq<Atom>,
    pub env: Seq<Atom>,
    pub err: Seq<Atom>,
}

/// Freezing a stuck instruction: the entire current environment, then the
/// instruction itself, move onto the thunk list, in original left-to-right
/// order.
pub open spec fn thunked(s: MState, a: Atom) -> MState {
    MState { con: s.con.skip(1), env: seq![], err: s.err + s.env + seq![a] }
}

/// One step of the machine on the first leaf of the continuation. `None`
/// stands for the internal `Bug`: a literal, or a malformed operand, in
/// instruction position.
pub open spec fn step_spec(s: MState, d: Map<Seq<char>, Seq<Atom>>) -> Option<MState>
    recommends
        s.con.len() > 0,
{
    let a = s.con[0];
    let rest = s.con.skip(1);
    match a {
        Atom::Nil => Some(MState { con: rest, env: s.env, err: s.err }),
        Atom::Ann(_) => Some(MState { con: rest, env: s.env, err: s.err }),
        Atom::Lit(_) => None,
        Atom::Quo(q) => Some(MState { con: rest, env: s.env.push(Atom::Quo(q)), err: s.err }),
        Atom::Sym(w) => if d.dom().contains(w) {
            Some(MState { con: d[w] + rest, env: s.env, err: s.err })
        } else {
            Some(thunked(s, a))
        },
        Atom::Op(op) => step_op(s, op, a, rest),
    }
}

/// The rewrite rule of one primitive. A stuck instruction (operands missing,
/// or a reserved instruction) defers to the thunk list.
pub open spec fn step_op(s: MState, op: Opcode, a: Atom, rest: Seq<Atom>) -> Option<MState> {
    match op {
        Opcode::App => if s.env.len() >= 1 {
            match s.env.last() {
                Atom::Quo(q) => Some(MState { con: q + rest, env: s.env.drop_last(), err: s.err }),
                _ => None,
            }
        } else {
            Some(thunked(s, a))
        },
        Opcode::Box => if s.env.len() >= 1 {
            Some(
                MState {
                    con: rest,
                    env: s.env.drop_last().push(Atom::Quo(seq![s.env.last()])),
                    err: s.err,
                },
            )
        } else {
            Some(thunked(s, a))
        },
        Opcode::Cat => if s.env.len() >= 2 {
            match (s.env[s.env.len() - 2], s.env.last()) {
                (Atom::Quo(p), Atom::Quo(q)) => Some(
                    MState {
                        con: rest,
                        env: s.env.drop_last().drop_last().push(Atom::Quo(njoin(p, q))),
                        err: s.err,
                    },
                ),
                _ => None,
            }
        } else {
            Some(thunked(s, a))
        },
        Opcode::Copy => if s.env.len() >= 1 {
            Some(MState { con: rest, env: s.env.push(s.env.last()), err: s.err })
        } else {
            Some(thunked(s, a))
        },
        Opcode::Drop => if s.env.len() >= 1 {
            Some(MState { con: rest, env: s.env.drop_last(), err: s.err })
        } else {
            Some(thunked(s, a))
        },
        Opcode::Swap => if s.env.len() >= 2 {
            Some(
                MState {
                    con: rest,
                    env: s.env.drop_last().drop_last().push(s.env.last()).push(
                        s.env[s.env.len() - 2],
                    ),
                    err: s.err,
                },
            )
        } else {
            Some(thunked(s, a))
        },
        Opcode::Fix => if s.env.len() >= 1 {
            match s.env.last() {
                Atom::Quo(p) => Some(
                    MState {
                        con: rest,
                        env: s.env.drop_last().push(
                            Atom::Quo(njoin(seq![Atom::Quo(p), Atom::Op(Opcode::Fix)], p)),
                        ),
                        err: s.err,
                    },
                ),
                _ => None,
            }
        } else {
            Some(thunked(s, a))
        },
        Opcode::Prop => Some(thunked(s, a)),
        Opcode::Forall => Some(thunked(s, a)),
    }
}

/// The machine seeded with a single term.
pub open spec fn init_state(leaves: Seq<Atom>) -> MState {
    MState { con: leaves, env: seq![], err: seq![] }
}

/// Running the machine: steps are taken while fuel remains and the
/// continuation is nonempty, each costing exactly one unit of fuel.
pub open spec fn run_spec(s: MState, d: Map<Seq<char>, Seq<Atom>>, fuel: nat) -> Option<MState>
    decreases fuel,
{
    if fuel == 0 || s.con.len() == 0 {
        Some(s)
    } else {
        match step_spec(s, d) {
            None => None,
            Some(s2) => run_spec(s2, d, (fuel - 1) as nat),
        }
    }
}

/// The leaves of the single term a machine state flushes to: thunk list
/// first, then the environment bottom-up, then what remains of the
/// continuation, all composed with `Empty` leaves collapsed away.
pub open spec fn squash(xs: Seq<Atom>) -> Seq<Atom> {
    let f = xs.filter(|a: Atom| !(a is Nil));
    if f.len() == 0 {
        nil_leaves()
    } else {
        f
    }
}

/// The flush of a machine state.
pub open spec fn flush_atoms(s: MState) -> Seq<Atom> {
    squash(s.err + s.env + s.con)
}

/// Once the continuation empties, further fuel changes nothing.
pub proof fn lemma_run_stall(s: MState, d: Map<Seq<char>, Seq<Atom>>, f1: nat, f2: nat)
    requires
        f1 <= f2,
        run_spec(s, d, f1) matches Some(m) && m.con.len() == 0,
    ensures
        run_spec(s, d, f2) == run_spec(s, d, f1),
    decreases f1,
{
    if f1 == 0 || s.con.len() == 0 {
        if s.con.len() == 0 {
        } else {
            assert(run_spec(s, d, f1) == Some(s));
        }
    } else {
        let s2 = step_spec(s, d)->Some_0;
        lemma_run_stall(s2, d, (f1 - 1) as nat, (f2 - 1) as nat);
    }
}

/// Extending a successful partial run by one successful step.
pub proof fn lemma_run_snoc(s: MState, d: Map<Seq<char>, Seq<Atom>>, k: nat)
    requires
        run_spec(s, d, k) matches Some(m) && m.con.len() > 0 && step_spec(m, d) is Some,
    ensures
        run_spec(s, d, k + 1) == Some(step_spec(run_spec(s, d, k)->Some_0, d)->Some_0),
    decreases k,
{
    if k == 0 {
        let s2 = step_spec(s, d)->Some_0;
        assert(run_spec(s, d, 1) == run_spec(s2, d, 0));
        assert(run_spec(s2, d, 0) == Some(s2));
    } else if s.con.len() == 0 {
        let m = run_spec(s, d, k)->Some_0;
        assert(m == s);
        assert(false);
    } else {
        let s2 = step_spec(s, d)->Some_0;
        lemma_run_snoc(s2, d, (k - 1) as nat);
    }
}

/// Extending a partial run that hits the internal `Bug` by one step: the
/// whole run fails.
pub proof fn lemma_run_fail(s: MState, d: Map<Seq<char>, Seq<Atom>>, k: nat, f: nat)
    requires
        k < f,
        run_spec(s, d, k) matches Some(m) && m.con.len() > 0 && step_spec(m, d) is None,
    ensures
        run_spec(s, d, f) is None,
    decreases k,
{
    if k == 0 {
        assert(run_spec(s, d, k) == Some(s));
    } else if s.con.len() == 0 {
        assert(run_spec(s, d, k) == Some(s));
        assert(false);
    } else {
        let s2 = step_spec(s, d)->Some_0;
        lemma_run_fail(s2, d, (k - 1) as nat, (f - 1) as nat);
    }
}

} // verus!
