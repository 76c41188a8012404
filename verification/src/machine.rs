//! The reduction machine: a double-ended continuation queue, a LIFO
//! environment stack, and a LIFO thunk list, executing one primitive basis
//! under a fuel budget. Verified against the abstract machine of
//! `semantics`.

use std::collections::VecDeque;

use vstd::prelude::*;

use crate::atom::{clean, nil_leaves, njoin, Atom, Opcode};
use crate::dict::Dict;
use crate::error::Error;
use crate::heap::{lemma_extends_leaves, lemma_extends_trans, lemma_leaves_clean, Heap, ObjView, Pointer};
use crate::semantics::{flush_atoms, init_state, run_spec, squash, step_spec, thunked, MState};

verus! {

/// The leaves of a row of terms, in order.
pub open spec fn seq_leaves(h: Heap, s: Seq<Pointer>) -> Seq<Atom>
    decreases s.len(),
{
    if s.len() == 0 {
        seq![]
    } else {
        h.leaves(s[0]) + seq_leaves(h, s.skip(1))
    }
}

proof fn lemma_seq_leaves_push(h: Heap, s: Seq<Pointer>, p: Pointer)
    ensures
        seq_leaves(h, s.push(p)) == seq_leaves(h, s) + h.leaves(p),
    decreases s.len(),
{
    if s.len() == 0 {
        assert(s.push(p)[0] == p);
        assert(s.push(p).skip(1) =~= Seq::<Pointer>::empty());
        assert(seq_leaves(h, s.push(p).skip(1)) == Seq::<Atom>::empty());
        assert(seq_leaves(h, s.push(p)) == h.leaves(p) + Seq::<Atom>::empty());
        assert(h.leaves(p) + Seq::<Atom>::empty() =~= h.leaves(p));
        assert(seq_leaves(h, s) + h.leaves(p) =~= h.leaves(p));
    } else {
        assert(s.push(p)[0] == s[0]);
        assert(s.push(p).skip(1) =~= s.skip(1).push(p));
        lemma_seq_leaves_push(h, s.skip(1), p);
        assert(seq_leaves(h, s.push(p)) == h.leaves(s[0]) + (seq_leaves(h, s.skip(1))
            + h.leaves(p)));
        assert(h.leaves(s[0]) + (seq_leaves(h, s.skip(1)) + h.leaves(p)) =~= (h.leaves(s[0])
            + seq_leaves(h, s.skip(1))) + h.leaves(p));
    }
}

proof fn lemma_seq_leaves_cons(h: Heap, s: Seq<Pointer>, p: Pointer)
    ensures
        seq_leaves(h, seq![p] + s) == h.leaves(p) + seq_leaves(h, s),
{
    assert((seq![p] + s)[0] == p);
    assert((seq![p] + s).skip(1) =~= s);
}

proof fn lemma_seq_leaves_drop_last(h: Heap, s: Seq<Pointer>)
    requires
        s.len() > 0,
    ensures
        seq_leaves(h, s) == seq_leaves(h, s.drop_last()) + h.leaves(s.last()),
{
    assert(s =~= s.drop_last().push(s.last()));
    lemma_seq_leaves_push(h, s.drop_last(), s.last());
}

proof fn lemma_seq_leaves_concat(h: Heap, s: Seq<Pointer>, t: Seq<Pointer>)
    ensures
        seq_leaves(h, s + t) == seq_leaves(h, s) + seq_leaves(h, t),
    decreases t.len(),
{
    if t.len() == 0 {
        assert(s + t =~= s);
        assert(seq_leaves(h, s) + seq_leaves(h, t) =~= seq_leaves(h, s));
    } else {
        assert(s + t =~= (s + t.drop_last()).push(t.last()));
        lemma_seq_leaves_push(h, s + t.drop_last(), t.last());
        lemma_seq_leaves_concat(h, s, t.drop_last());
        lemma_seq_leaves_drop_last(h, t);
        assert((seq_leaves(h, s) + seq_leaves(h, t.drop_last())) + h.leaves(t.last())
            =~= seq_leaves(h, s) + (seq_leaves(h, t.drop_last()) + h.leaves(t.last())));
    }
}

proof fn lemma_seq_leaves_extends(h1: Heap, h2: Heap, s: Seq<Pointer>)
    requires
        h1.inv(),
        Heap::extends(h2, h1),
        forall|i: int| 0 <= i < s.len() ==> h1.valid(#[trigger] s[i]),
    ensures
        seq_leaves(h2, s) == seq_leaves(h1, s),
    decreases s.len(),
{
    if s.len() > 0 {
        lemma_extends_leaves(h1, h2, s[0]);
        assert(forall|i: int| 0 <= i < s.skip(1).len() ==> s.skip(1)[i] == s[i + 1]);
        lemma_seq_leaves_extends(h1, h2, s.skip(1));
    }
}

/// A heap extension leaves the leaves of a row of valid terms unchanged.
pub proof fn lemma_seq_leaves_extends_pub(h1: Heap, h2: Heap, s: Seq<Pointer>)
    requires
        h1.inv(),
        Heap::extends(h2, h1),
        forall|i: int| 0 <= i < s.len() ==> h1.valid(#[trigger] s[i]),
    ensures
        seq_leaves(h2, s) == seq_leaves(h1, s),
{
    lemma_seq_leaves_extends(h1, h2, s);
}

/// Appending a term to a row appends its leaves.
pub proof fn lemma_seq_leaves_push_pub(h: Heap, s: Seq<Pointer>, p: Pointer)
    ensures
        seq_leaves(h, s.push(p)) == seq_leaves(h, s) + h.leaves(p),
{
    lemma_seq_leaves_push(h, s, p);
}

/// The size of a term's concatenation spine: each leaf counts one, each
/// concatenation node one more. Flattening is bounded by it.
pub closed spec fn tsize(h: Heap, p: Pointer) -> nat
    decreases h.rank(p),
{
    if !h.valid(p) {
        0
    } else {
        match h.obj(p) {
            ObjView::Sequence(a, b) => 1 + (if h.rank(a) < h.rank(p) {
                tsize(h, a)
            } else {
                0
            }) + (if h.rank(b) < h.rank(p) {
                tsize(h, b)
            } else {
                0
            }),
            _ => 1,
        }
    }
}

spec fn row_size(h: Heap, s: Seq<Pointer>) -> nat
    decreases s.len(),
{
    if s.len() == 0 {
        0
    } else {
        tsize(h, s[0]) + row_size(h, s.skip(1))
    }
}

proof fn lemma_row_size_cons(h: Heap, s: Seq<Pointer>, p: Pointer)
    ensures
        row_size(h, seq![p] + s) == tsize(h, p) + row_size(h, s),
{
    assert((seq![p] + s)[0] == p);
    assert((seq![p] + s).skip(1) =~= s);
}

/// A thread of execution: the continuation (front of the queue is executed
/// next), the environment of values produced so far (bottom first), and the
/// thunk list of frozen instructions in original program order.
pub struct Thread {
    con: VecDeque<Pointer>,
    env: Vec<Pointer>,
    err: Vec<Pointer>,
}

impl Thread {
    /// The continuation entries, front first.
    pub closed spec fn con_ptrs(self) -> Seq<Pointer> {
        self.con@
    }

    /// The environment entries, bottom first.
    pub closed spec fn env_ptrs(self) -> Seq<Pointer> {
        self.env@
    }

    /// The thunk-list entries, in original program order.
    pub closed spec fn err_ptrs(self) -> Seq<Pointer> {
        self.err@
    }

    /// Every entry is a valid pointer, and environment entries are
    /// quotations.
    pub open spec fn wf(self, h: Heap) -> bool {
        &&& forall|i: int| 0 <= i < self.con_ptrs().len() ==> h.valid(#[trigger] self.con_ptrs()[i])
        &&& forall|i: int|
            0 <= i < self.env_ptrs().len() ==> h.valid(#[trigger] self.env_ptrs()[i]) && h.obj(
                self.env_ptrs()[i],
            ) is Block
        &&& forall|i: int| 0 <= i < self.err_ptrs().len() ==> h.valid(#[trigger] self.err_ptrs()[i])
    }

    /// The abstract machine state this thread denotes.
    pub open spec fn mstate(self, h: Heap) -> MState {
        MState {
            con: seq_leaves(h, self.con_ptrs()),
            env: seq_leaves(h, self.env_ptrs()),
            err: seq_leaves(h, self.err_ptrs()),
        }
    }

    /// Seeds the continuation with a single root term.
    pub fn with_continuation(continuation: Pointer) -> (t: Thread)
        ensures
            t.con_ptrs() == seq![continuation],
            t.env_ptrs().len() == 0,
            t.err_ptrs().len() == 0,
    {
        let mut con: VecDeque<Pointer> = VecDeque::new();
        con.push_back(continuation);
        proof {
            assert(con@ =~= seq![continuation]);
        }
        Thread { con, env: Vec::new(), err: Vec::new() }
    }

    /// Whether any code remains to execute.
    pub fn has_continuation(&self) -> (r: bool)
        ensures
            r <==> self.con_ptrs().len() > 0,
    {
        self.con.len() != 0
    }

    /// Schedules a term to execute next.
    pub fn push_continuation_front(&mut self, data: Pointer)
        ensures
            final(self).con_ptrs() == seq![data] + old(self).con_ptrs(),
            final(self).env_ptrs() == old(self).env_ptrs(),
            final(self).err_ptrs() == old(self).err_ptrs(),
    {
        self.con.push_front(data);
    }

    /// Schedules a term to execute after everything already queued.
    pub fn push_continuation_back(&mut self, data: Pointer)
        ensures
            final(self).con_ptrs() == old(self).con_ptrs().push(data),
            final(self).env_ptrs() == old(self).env_ptrs(),
            final(self).err_ptrs() == old(self).err_ptrs(),
    {
        self.con.push_back(data);
    }

    /// The number of frozen entries on the thunk list.
    pub fn err_len(&self) -> (n: usize)
        ensures
            n == self.err_ptrs().len(),
    {
        self.err.len()
    }

    /// Whether at least one operand is available.
    pub fn is_monadic(&self) -> (r: bool)
        ensures
            r <==> self.env_ptrs().len() >= 1,
    {
        self.env.len() >= 1
    }

    /// Whether at least two operands are available.
    pub fn is_dyadic(&self) -> (r: bool)
        ensures
            r <==> self.env_ptrs().len() >= 2,
    {
        self.env.len() >= 2
    }

    /// Pushes a value onto the environment.
    pub fn push_environment(&mut self, data: Pointer)
        ensures
            final(self).env_ptrs() == old(self).env_ptrs().push(data),
            final(self).con_ptrs() == old(self).con_ptrs(),
            final(self).err_ptrs() == old(self).err_ptrs(),
    {
        self.env.push(data);
    }

    /// Pops the top of the environment; `Underflow` if it is empty.
    pub fn pop_environment(&mut self) -> (r: Result<Pointer, Error>)
        ensures
            match r {
                Ok(p) => {
                    &&& old(self).env_ptrs().len() > 0
                    &&& p == old(self).env_ptrs().last()
                    &&& final(self).env_ptrs() == old(self).env_ptrs().drop_last()
                },
                Err(e) => {
                    &&& e == Error::Underflow
                    &&& old(self).env_ptrs().len() == 0
                    &&& final(self).env_ptrs() == old(self).env_ptrs()
                },
            },
            final(self).con_ptrs() == old(self).con_ptrs(),
            final(self).err_ptrs() == old(self).err_ptrs(),
    {
        let r = self.env.pop();
        proof {
            if r is Some {
                assert(self.env@ =~= old(self).env@.drop_last());
            }
        }
        match r {
            Some(p) => Ok(p),
            None => Err(Error::Underflow),
        }
    }

    /// Reads the top of the environment without popping; `Underflow` if it is
    /// empty.
    pub fn peek_environment(&mut self) -> (r: Result<Pointer, Error>)
        ensures
            *final(self) == *old(self),
            match r {
                Ok(p) => old(self).env_ptrs().len() > 0 && p == old(self).env_ptrs().last(),
                Err(e) => e == Error::Underflow && old(self).env_ptrs().len() == 0,
            },
    {
        let n = self.env.len();
        if n == 0 {
            Err(Error::Underflow)
        } else {
            Ok(self.env[n - 1])
        }
    }

    /// Freezes a stuck instruction: the entire current environment, then the
    /// instruction itself, move onto the thunk list.
    pub fn thunk(&mut self, root: Pointer)
        ensures
            final(self).err_ptrs() == old(self).err_ptrs() + old(self).env_ptrs() + seq![root],
            final(self).env_ptrs().len() == 0,
            final(self).con_ptrs() == old(self).con_ptrs(),
    {
        self.err.append(&mut self.env);
        self.err.push(root);
        proof {
            assert(self.err@ =~= old(self).err@ + old(self).env@ + seq![root]);
        }
    }

    /// Pops the front of the continuation, flattening concatenations: the
    /// children of a concatenation are pushed back onto the front (left child
    /// first) until a leaf is obtained. An empty continuation is the internal
    /// `Bug`.
    pub fn pop_continuation(&mut self, heap: &mut Heap) -> (r: Result<Pointer, Error>)
        requires
            old(heap).inv(),
            old(self).wf(*old(heap)),
        ensures
            *final(heap) == *old(heap),
            final(self).env_ptrs() == old(self).env_ptrs(),
            final(self).err_ptrs() == old(self).err_ptrs(),
            final(self).wf(*final(heap)),
            match r {
                Ok(c) => {
                    &&& final(heap).valid(c)
                    &&& !(final(heap).obj(c) is Sequence)
                    &&& final(heap).leaves(c).len() == 1
                    &&& old(self).mstate(*old(heap)).con == final(heap).leaves(c)
                        + final(self).mstate(*final(heap)).con
                },
                Err(e) => {
                    &&& e == Error::Bug
                    &&& old(self).con_ptrs().len() == 0
                    &&& final(self).con_ptrs() == old(self).con_ptrs()
                },
            },
    {
        loop
            invariant
                heap.inv(),
                *heap == *old(heap),
                self.wf(*heap),
                self.env_ptrs() == old(self).env_ptrs(),
                self.err_ptrs() == old(self).err_ptrs(),
                seq_leaves(*heap, self.con_ptrs()) == seq_leaves(*heap, old(self).con_ptrs()),
                self.con_ptrs().len() == 0 ==> self.con_ptrs() == old(self).con_ptrs(),
            decreases row_size(*heap, self.con@),
        {
            let ghost pre = *self;
            let code = match self.con.pop_front() {
                Some(c) => c,
                None => {
                    return Err(Error::Bug);
                },
            };
            proof {
                assert(code == pre.con@[0]);
                assert(self.con@ =~= pre.con@.skip(1));
                assert(pre.con@ =~= seq![code] + self.con@);
                lemma_seq_leaves_cons(*heap, self.con@, code);
                lemma_row_size_cons(*heap, self.con@, code);
                assert(heap.valid(code));
            }
            let info: Option<(Pointer, Pointer)> = match self.get_children(heap, code) {
                Some(pair) => Some(pair),
                None => None,
            };
            if let Some((fst, snd)) = info {
                proof {
                    assert(heap.slot_wf(code.idx()));
                    assert(heap.valid(fst) && heap.rank(fst) < heap.rank(code));
                    assert(heap.valid(snd) && heap.rank(snd) < heap.rank(code));
                    crate::heap::lemma_leaves_unfold(*heap, code);
                    assert(heap.leaves(code) == heap.leaves(fst) + heap.leaves(snd));
                    assert(tsize(*heap, code) == 1 + tsize(*heap, fst) + tsize(*heap, snd));
                }
                self.con.push_front(snd);
                self.con.push_front(fst);
                proof {
                    let ghost mid = pre.con@.skip(1);
                    assert(self.con@ =~= seq![fst] + (seq![snd] + mid));
                    lemma_seq_leaves_cons(*heap, seq![snd] + mid, fst);
                    lemma_seq_leaves_cons(*heap, mid, snd);
                    assert(heap.leaves(code) == heap.leaves(fst) + heap.leaves(snd));
                    assert(seq_leaves(*heap, self.con@) == (heap.leaves(fst) + (heap.leaves(snd)
                        + seq_leaves(*heap, mid))));
                    assert((heap.leaves(fst) + (heap.leaves(snd) + seq_leaves(*heap, mid))) =~= (
                    heap.leaves(fst) + heap.leaves(snd)) + seq_leaves(*heap, mid));
                    lemma_row_size_cons(*heap, seq![snd] + mid, fst);
                    lemma_row_size_cons(*heap, mid, snd);
                }
            } else {
                proof {
                    lemma_leaves_clean(*heap, code);
                    crate::heap::lemma_leaves_unfold(*heap, code);
                    assert(heap.leaves(code).len() == 1);
                }
                return Ok(code);
            }
        }
    }

    /// Reads the two children of a concatenation node, or `None` for any
    /// other node.
    fn get_children(&self, heap: &Heap, code: Pointer) -> (r: Option<(Pointer, Pointer)>)
        requires
            heap.inv(),
            heap.valid(code),
        ensures
            match r {
                Some(pair) => heap.obj(code) == ObjView::Sequence(pair.0, pair.1),
                None => !(heap.obj(code) is Sequence),
            },
    {
        match heap.get_sequence_head(code) {
            Ok(a) => match heap.get_sequence_tail(code) {
                Ok(b) => Some((a, b)),
                Err(_) => None,
            },
            Err(_) => None,
        }
    }
}

/// The bindings as a map from names to the leaves of the bound terms.
pub open spec fn dict_leaves(h: Heap, d: Dict) -> Map<Seq<char>, Seq<Atom>> {
    Map::new(|w: Seq<char>| d@.dom().contains(w), |w: Seq<char>| h.leaves(d@[w]))
}

proof fn lemma_dict_leaves_extends(h1: Heap, h2: Heap, d: Dict)
    requires
        h1.inv(),
        Heap::extends(h2, h1),
        d.wf_in(h1),
    ensures
        d.wf_in(h2),
        dict_leaves(h2, d) == dict_leaves(h1, d),
{
    assert forall|w: Seq<char>| d@.dom().contains(w) implies h2.valid(#[trigger] d@[w])
        && h2.leaves(d@[w]) == h1.leaves(d@[w]) by {
        lemma_extends_leaves(h1, h2, d@[w]);
    }
    assert(dict_leaves(h2, d) =~= dict_leaves(h1, d));
}

proof fn lemma_wf_extends(t: Thread, h1: Heap, h2: Heap)
    requires
        t.wf(h1),
        h1.inv(),
        Heap::extends(h2, h1),
    ensures
        t.wf(h2),
        t.mstate(h2) == t.mstate(h1),
{
    assert forall|i: int|
        0 <= i < t.con_ptrs().len() implies h2.valid(#[trigger] t.con_ptrs()[i]) by {
        lemma_extends_leaves(h1, h2, t.con_ptrs()[i]);
    }
    assert forall|i: int|
        0 <= i < t.env_ptrs().len() implies h2.valid(#[trigger] t.env_ptrs()[i]) && h2.obj(
        t.env_ptrs()[i]) is Block by {
        lemma_extends_leaves(h1, h2, t.env_ptrs()[i]);
    }
    assert forall|i: int|
        0 <= i < t.err_ptrs().len() implies h2.valid(#[trigger] t.err_ptrs()[i]) by {
        lemma_extends_leaves(h1, h2, t.err_ptrs()[i]);
    }
    lemma_seq_leaves_extends(h1, h2, t.con_ptrs());
    lemma_seq_leaves_extends(h1, h2, t.env_ptrs());
    lemma_seq_leaves_extends(h1, h2, t.err_ptrs());
}

/// Each entry of a row of quotations contributes exactly one leaf.
proof fn lemma_env_atoms(h: Heap, s: Seq<Pointer>)
    requires
        h.inv(),
        forall|i: int| 0 <= i < s.len() ==> h.valid(#[trigger] s[i]) && h.obj(s[i]) is Block,
    ensures
        seq_leaves(h, s).len() == s.len(),
        forall|i: int|
            0 <= i < s.len() ==> #[trigger] seq_leaves(h, s)[i] == h.leaves(s[i])[0]
                && seq_leaves(h, s)[i] is Quo,
    decreases s.len(),
{
    if s.len() > 0 {
        crate::heap::lemma_leaves_unfold(h, s[0]);
        assert(h.leaves(s[0]).len() == 1);
        assert(h.leaves(s[0])[0] is Quo);
        assert(forall|i: int| 0 <= i < s.skip(1).len() ==> s.skip(1)[i] == s[i + 1]);
        lemma_env_atoms(h, s.skip(1));
        assert forall|i: int|
            0 <= i < s.len() implies #[trigger] seq_leaves(h, s)[i] == h.leaves(s[i])[0]
            && seq_leaves(h, s)[i] is Quo by {
            if i > 0 {
                assert(seq_leaves(h, s)[i] == seq_leaves(h, s.skip(1))[i - 1]);
            }
        }
    }
}

/// A nonempty row of valid entries has at least one leaf.
proof fn lemma_row_atoms_nonempty(h: Heap, s: Seq<Pointer>)
    requires
        h.inv(),
        s.len() > 0,
        forall|i: int| 0 <= i < s.len() ==> h.valid(#[trigger] s[i]),
    ensures
        seq_leaves(h, s).len() > 0,
{
    lemma_leaves_clean(h, s[0]);
}

/// Filtering keeps a sequence in which every element passes the predicate.
proof fn lemma_filter_all(s: Seq<Atom>, pred: spec_fn(Atom) -> bool)
    requires
        forall|i: int| 0 <= i < s.len() ==> pred(#[trigger] s[i]),
    ensures
        s.filter(pred) == s,
    decreases s.len(),
{
    reveal(Seq::filter);
    if s.len() > 0 {
        lemma_filter_all(s.drop_last(), pred);
        assert(s =~= s.drop_last().push(s.last()));
    }
}

/// Filtering keeps a sequence whose elements all pass the predicate.
pub proof fn lemma_filter_all_pub(s: Seq<Atom>, pred: spec_fn(Atom) -> bool)
    requires
        forall|i: int| 0 <= i < s.len() ==> pred(#[trigger] s[i]),
    ensures
        s.filter(pred) == s,
{
    lemma_filter_all(s, pred);
}

/// Squashing a clean leaf sequence is the identity.
pub proof fn lemma_squash_clean(x: Seq<Atom>)
    requires
        clean(x),
    ensures
        squash(x) == x,
{
    reveal(Seq::filter);
    let pred = |a: Atom| !(a is Nil);
    if x == nil_leaves() {
        assert(x.len() == 1 && x.last() == Atom::Nil);
        assert(x.drop_last() =~= Seq::<Atom>::empty());
        assert(Seq::<Atom>::empty().filter(pred) =~= Seq::<Atom>::empty());
        assert(x.filter(pred) =~= Seq::<Atom>::empty());
    } else {
        lemma_filter_all(x, pred);
    }
}

/// The squash of any leaf row is clean.
pub proof fn lemma_squash_is_clean(x: Seq<Atom>)
    ensures
        clean(squash(x)),
{
    let pred = |a: Atom| !(a is Nil);
    let f = x.filter(pred);
    assert forall|i: int| 0 <= i < f.len() implies f[i] != Atom::Nil by {
        x.lemma_filter_pred(pred, i);
    }
}

/// Squashing distributes over composition: composing the squashes of two
/// rows squashes the composed row.
pub proof fn lemma_squash_join(x: Seq<Atom>, y: Seq<Atom>)
    ensures
        njoin(squash(x), squash(y)) == squash(x + y),
{
    let pred = |a: Atom| !(a is Nil);
    Seq::filter_distributes_over_add(x, y, pred);
    let fx = x.filter(pred);
    let fy = y.filter(pred);
    assert forall|i: int| 0 <= i < fx.len() implies fx[i] != Atom::Nil by {
        x.lemma_filter_pred(pred, i);
    }
    assert forall|i: int| 0 <= i < fy.len() implies fy[i] != Atom::Nil by {
        y.lemma_filter_pred(pred, i);
    }
    if fx.len() == 0 {
        assert(squash(x) == nil_leaves());
        assert(fx + fy =~= fy);
    } else if fy.len() == 0 {
        assert(squash(y) == nil_leaves());
        assert(fx + fy =~= fx);
        assert(squash(x) != nil_leaves()) by {
            if fx == nil_leaves() {
                assert(fx[0] == Atom::Nil);
            }
        }
    } else {
        assert(squash(x) != nil_leaves()) by {
            if fx == nil_leaves() {
                assert(fx[0] == Atom::Nil);
            }
        }
        assert(squash(y) != nil_leaves()) by {
            if fy == nil_leaves() {
                assert(fy[0] == Atom::Nil);
            }
        }
        assert((fx + fy).len() > 0);
    }
}

/// One step of a right fold over a flush row: composing the accumulated term
/// onto one more entry squashes the same row.
proof fn lemma_fold_step(x: Seq<Atom>, le: Seq<Atom>, lx: Seq<Atom>)
    requires
        clean(le),
        clean(lx),
    ensures
        squash(x + njoin(le, lx)) == squash((x + le) + lx),
{
    lemma_squash_join(x, njoin(le, lx));
    lemma_squash_join(x + le, lx);
    lemma_squash_join(x, le);
    lemma_squash_clean(le);
    lemma_squash_clean(lx);
    crate::atom::lemma_njoin_clean(le, lx);
    lemma_squash_clean(njoin(le, lx));
    lemma_squash_is_clean(x);
    crate::atom::lemma_njoin_assoc(squash(x), le, lx);
}

impl Thread {
    /// Flushes the remaining continuation into a single term, in execution
    /// order, leaving the continuation empty. Returns the sole entry itself,
    /// with the heap untouched, when the continuation holds exactly one.
    #[verifier::rlimit(60)]
    pub fn get_continuation(&mut self, heap: &mut Heap) -> (r: Result<Pointer, Error>)
        requires
            old(heap).inv(),
            old(self).wf(*old(heap)),
        ensures
            final(heap).inv(),
            Heap::extends(*final(heap), *old(heap)),
            final(self).env_ptrs() == old(self).env_ptrs(),
            final(self).err_ptrs() == old(self).err_ptrs(),
            final(self).wf(*final(heap)),
            match r {
                Ok(p) => {
                    &&& final(self).con_ptrs().len() == 0
                    &&& final(heap).valid(p)
                    &&& final(heap).leaves(p) == squash(old(self).mstate(*old(heap)).con)
                },
                Err(e) => e == Error::Space && (forall|i: int|
                    0 <= i < final(heap).cap() ==> final(heap).occupied(i)),
            },
            old(self).con_ptrs().len() == 1 ==> (*final(heap) == *old(heap) && (r matches Ok(p)
                && p == old(self).con_ptrs()[0])),
    {
        let ghost orig = squash(old(self).mstate(*old(heap)).con);
        if self.con.len() == 1 {
            let e = match self.con.pop_back() {
                Some(e) => e,
                None => {
                    proof {
                        assert(false);
                    }
                    return Err(Error::Space);
                },
            };
            proof {
                assert(self.wf(*heap)) by {
                    assert(self.con@.len() == 0);
                }
                let cp = old(self).con_ptrs();
                assert(cp[0] == e);
                assert(cp.skip(1) =~= Seq::<Pointer>::empty());
                assert(seq_leaves(*old(heap), cp) == old(heap).leaves(e) + seq_leaves(
                    *old(heap),
                    cp.skip(1),
                ));
                assert(old(heap).leaves(e) + Seq::<Atom>::empty() =~= old(heap).leaves(e));
                lemma_leaves_clean(*heap, e);
                lemma_squash_clean(heap.leaves(e));
            }
            return Ok(e);
        }
        let mut acc: Option<Pointer> = None;
        while self.con.len() != 0
            invariant
                heap.inv(),
                Heap::extends(*heap, *old(heap)),
                self.wf(*heap),
                self.env_ptrs() == old(self).env_ptrs(),
                self.err_ptrs() == old(self).err_ptrs(),
                old(self).con_ptrs().len() != 1,
                acc matches Some(x) ==> heap.valid(x),
                orig == squash(
                    seq_leaves(*heap, self.con_ptrs()) + (match acc {
                        Some(x) => heap.leaves(x),
                        None => seq![],
                    }),
                ),
            decreases self.con@.len(),
        {
            let ghost hpre = *heap;
            let ghost cpre = self.con@;
            let ghost apre = match acc {
                Some(x) => hpre.leaves(x),
                None => seq![],
            };
            let e = match self.con.pop_back() {
                Some(e) => e,
                None => {
                    proof {
                        assert(false);
                    }
                    return Err(Error::Space);
                },
            };
            proof {
                assert(self.con@ =~= cpre.drop_last());
                lemma_seq_leaves_drop_last(*heap, cpre);
            }
            let acc2: Pointer = match acc {
                None => {
                    proof {
                        assert(seq_leaves(*heap, cpre) + seq![] =~= seq_leaves(*heap, cpre));
                        lemma_leaves_clean(*heap, e);
                        lemma_squash_clean(heap.leaves(e));
                        crate::atom::lemma_njoin_clean(heap.leaves(e), heap.leaves(e));
                        assert(njoin(heap.leaves(e), nil_leaves()) == heap.leaves(e));
                        lemma_fold_step(
                            seq_leaves(*heap, self.con@),
                            heap.leaves(e),
                            nil_leaves(),
                        );
                        assert((seq_leaves(*heap, self.con@) + heap.leaves(e)) + nil_leaves()
                            =~= seq_leaves(*heap, cpre) + nil_leaves());
                        assert(squash(seq_leaves(*heap, self.con@) + heap.leaves(e)) == squash(
                            seq_leaves(*heap, cpre) + seq![],
                        )) by {
                            lemma_squash_join(seq_leaves(*heap, self.con@), heap.leaves(e));
                            lemma_squash_join(seq_leaves(*heap, cpre), seq![]);
                            lemma_squash_join(seq_leaves(*heap, cpre), nil_leaves());
                            lemma_squash_clean(nil_leaves());
                            assert(squash(seq![Atom::Nil].filter(|a: Atom| !(a is Nil)))
                                == nil_leaves()) by {
                                reveal(Seq::filter);
                            }
                            assert(squash(seq![]) == nil_leaves()) by {
                                assert(Seq::<Atom>::empty().filter(|a: Atom| !(a is Nil)) =~= Seq::<
                                    Atom,
                                >::empty()) by {
                                    reveal(Seq::filter);
                                }
                                assert(seq![] =~= Seq::<Atom>::empty());
                            }
                        }
                    }
                    e
                },
                Some(x) => {
                    let ghost hx = *heap;
                    let joined = match heap.new_sequence(e, x) {
                        Ok(j) => j,
                        Err(err) => {
                            proof {
                                lemma_wf_extends(*self, hx, *heap);
                            }
                            return Err(err);
                        },
                    };
                    proof {
                        lemma_wf_extends(*self, hx, *heap);
                        lemma_extends_leaves(hx, *heap, e);
                        lemma_extends_leaves(hx, *heap, x);
                        lemma_seq_leaves_extends(hx, *heap, self.con@);
                        lemma_leaves_clean(hx, e);
                        lemma_leaves_clean(hx, x);
                        assert(heap.leaves(joined) == njoin(hx.leaves(e), hx.leaves(x)));
                        lemma_fold_step(seq_leaves(*heap, self.con@), hx.leaves(e), hx.leaves(x));
                        assert((seq_leaves(*heap, self.con@) + hx.leaves(e)) + hx.leaves(x)
                            =~= seq_leaves(hx, cpre) + apre);
                    }
                    joined
                },
            };
            acc = Some(acc2);
        }
        match acc {
            None => {
                proof {
                    assert(self.con@.len() == 0);
                    assert(seq_leaves(*heap, self.con_ptrs()) =~= Seq::<Atom>::empty());
                    assert(seq_leaves(*heap, self.con_ptrs()) + seq![] =~= Seq::<Atom>::empty());
                    assert(Seq::<Atom>::empty().filter(|a: Atom| !(a is Nil)) =~= Seq::<
                        Atom,
                    >::empty()) by {
                        reveal(Seq::filter);
                    }
                    assert(orig == nil_leaves());
                }
                let ghost hpre = *heap;
                let r = heap.new_id();
                proof {
                    lemma_wf_extends(*self, hpre, *heap);
                    if let Ok(p) = r {
                        crate::heap::lemma_leaves_unfold(*heap, p);
                    }
                }
                r
            },
            Some(x) => {
                proof {
                    assert(self.con@.len() == 0);
                    assert(seq_leaves(*heap, self.con_ptrs()) =~= Seq::<Atom>::empty());
                    assert(Seq::<Atom>::empty() + heap.leaves(x) =~= heap.leaves(x));
                    lemma_leaves_clean(*heap, x);
                    lemma_squash_clean(heap.leaves(x));
                }
                Ok(x)
            },
        }
    }

    /// Flushes the environment and the thunk list into a single term: the
    /// thunk list first, in original program order, then the environment
    /// bottom-up. Leaves both empty.
    #[verifier::rlimit(60)]
    pub fn get_environment(&mut self, heap: &mut Heap) -> (r: Result<Pointer, Error>)
        requires
            old(heap).inv(),
            old(self).wf(*old(heap)),
        ensures
            final(heap).inv(),
            Heap::extends(*final(heap), *old(heap)),
            final(self).con_ptrs() == old(self).con_ptrs(),
            final(self).wf(*final(heap)),
            match r {
                Ok(p) => {
                    &&& final(self).env_ptrs().len() == 0
                    &&& final(self).err_ptrs().len() == 0
                    &&& final(heap).valid(p)
                    &&& final(heap).leaves(p) == squash(
                        old(self).mstate(*old(heap)).err + old(self).mstate(*old(heap)).env,
                    )
                },
                Err(e) => e == Error::Space && (forall|i: int|
                    0 <= i < final(heap).cap() ==> final(heap).occupied(i)),
            },
    {
        let ghost orig = squash(
            old(self).mstate(*old(heap)).err + old(self).mstate(*old(heap)).env,
        );
        proof {
            lemma_seq_leaves_concat(*heap, old(self).err_ptrs(), old(self).env_ptrs());
        }
        let mut acc: Option<Pointer> = None;
        while self.err.len() != 0 || self.env.len() != 0
            invariant
                heap.inv(),
                Heap::extends(*heap, *old(heap)),
                self.wf(*heap),
                self.con_ptrs() == old(self).con_ptrs(),
                acc matches Some(x) ==> heap.valid(x),
                orig == squash(
                    seq_leaves(*heap, self.err_ptrs() + self.env_ptrs()) + (match acc {
                        Some(x) => heap.leaves(x),
                        None => seq![],
                    }),
                ),
            decreases self.err@.len() + self.env@.len(),
        {
            let ghost hpre = *heap;
            let ghost row = self.err@ + self.env@;
            let ghost apre = match acc {
                Some(x) => hpre.leaves(x),
                None => seq![],
            };
            let from_env = self.env.len() != 0;
            let e = if from_env {
                match self.env.pop() {
                    Some(e) => e,
                    None => {
                        proof {
                            assert(false);
                        }
                        return Err(Error::Space);
                    },
                }
            } else {
                match self.err.pop() {
                    Some(e) => e,
                    None => {
                        proof {
                            assert(false);
                        }
                        return Err(Error::Space);
                    },
                }
            };
            proof {
                assert(row.len() > 0 && e == row.last());
                assert(self.err@ + self.env@ =~= row.drop_last());
                lemma_seq_leaves_drop_last(*heap, row);
            }
            let acc2: Pointer = match acc {
                None => {
                    proof {
                        assert(seq_leaves(*heap, row) + seq![] =~= seq_leaves(*heap, row));
                        lemma_leaves_clean(*heap, e);
                        assert(njoin(heap.leaves(e), nil_leaves()) == heap.leaves(e));
                        lemma_fold_step(
                            seq_leaves(*heap, self.err@ + self.env@),
                            heap.leaves(e),
                            nil_leaves(),
                        );
                        assert((seq_leaves(*heap, self.err@ + self.env@) + heap.leaves(e))
                            + nil_leaves() =~= seq_leaves(*heap, row) + nil_leaves());
                        assert(squash(seq_leaves(*heap, self.err@ + self.env@) + heap.leaves(e))
                            == squash(seq_leaves(*heap, row) + seq![])) by {
                            lemma_squash_join(
                                seq_leaves(*heap, self.err@ + self.env@),
                                heap.leaves(e),
                            );
                            lemma_squash_join(seq_leaves(*heap, row), seq![]);
                            lemma_squash_join(seq_leaves(*heap, row), nil_leaves());
                            lemma_squash_clean(nil_leaves());
                            assert(squash(seq![]) == nil_leaves()) by {
                                assert(Seq::<Atom>::empty().filter(|a: Atom| !(a is Nil)) =~= Seq::<
                                    Atom,
                                >::empty()) by {
                                    reveal(Seq::filter);
                                }
                                assert(seq![] =~= Seq::<Atom>::empty());
                            }
                        }
                    }
                    e
                },
                Some(x) => {
                    let ghost hx = *heap;
                    let joined = match heap.new_sequence(e, x) {
                        Ok(j) => j,
                        Err(err) => {
                            proof {
                                lemma_wf_extends(*self, hx, *heap);
                            }
                            return Err(err);
                        },
                    };
                    proof {
                        lemma_wf_extends(*self, hx, *heap);
                        lemma_extends_leaves(hx, *heap, e);
                        lemma_extends_leaves(hx, *heap, x);
                        lemma_seq_leaves_extends(hx, *heap, self.err@ + self.env@);
                        lemma_leaves_clean(hx, e);
                        lemma_leaves_clean(hx, x);
                        assert(heap.leaves(joined) == njoin(hx.leaves(e), hx.leaves(x)));
                        lemma_fold_step(
                            seq_leaves(*heap, self.err@ + self.env@),
                            hx.leaves(e),
                            hx.leaves(x),
                        );
                        assert((seq_leaves(*heap, self.err@ + self.env@) + hx.leaves(e))
                            + hx.leaves(x) =~= seq_leaves(hx, row) + apre);
                    }
                    joined
                },
            };
            acc = Some(acc2);
        }
        proof {
            assert(self.err@.len() == 0 && self.env@.len() == 0);
            assert(self.err@ + self.env@ =~= Seq::<Pointer>::empty());
            assert(seq_leaves(*heap, self.err@ + self.env@) =~= Seq::<Atom>::empty());
        }
        match acc {
            None => {
                proof {
                    assert(Seq::<Atom>::empty() + Seq::<Atom>::empty() =~= Seq::<Atom>::empty());
                    assert(Seq::<Atom>::empty().filter(|a: Atom| !(a is Nil)) =~= Seq::<
                        Atom,
                    >::empty()) by {
                        reveal(Seq::filter);
                    }
                    assert(orig == nil_leaves());
                }
                let ghost hpre = *heap;
                let r = heap.new_id();
                proof {
                    lemma_wf_extends(*self, hpre, *heap);
                    if let Ok(p) = r {
                        crate::heap::lemma_leaves_unfold(*heap, p);
                    }
                }
                r
            },
            Some(x) => {
                proof {
                    assert(Seq::<Atom>::empty() + heap.leaves(x) =~= heap.leaves(x));
                    lemma_leaves_clean(*heap, x);
                    lemma_squash_clean(heap.leaves(x));
                }
                Ok(x)
            },
        }
    }
}



proof fn lemma_wf_ops(t2: Thread, t1: Thread, h: Heap)
    requires
        t1.wf(h),
        t2.con_ptrs() == t1.con_ptrs() || (t2.con_ptrs().len() == t1.con_ptrs().len() + 1
            && t2.con_ptrs().skip(1) == t1.con_ptrs() && h.valid(t2.con_ptrs()[0])),
        t2.env_ptrs() == t1.env_ptrs() || (t1.env_ptrs().len() >= 1 && t2.env_ptrs()
            == t1.env_ptrs().drop_last()) || (t2.env_ptrs().len() >= 1
            && t2.env_ptrs().drop_last() == t1.env_ptrs() && h.valid(t2.env_ptrs().last())
            && h.obj(t2.env_ptrs().last()) is Block),
        t2.err_ptrs() == t1.err_ptrs(),
    ensures
        t2.wf(h),
{
    assert forall|i: int|
        0 <= i < t2.con_ptrs().len() implies h.valid(#[trigger] t2.con_ptrs()[i]) by {
        if t2.con_ptrs() == t1.con_ptrs() {
        } else {
            if i > 0 {
                assert(t2.con_ptrs()[i] == t2.con_ptrs().skip(1)[i - 1]);
            }
        }
    }
    assert forall|i: int|
        0 <= i < t2.env_ptrs().len() implies h.valid(#[trigger] t2.env_ptrs()[i]) && h.obj(
        t2.env_ptrs()[i]) is Block by {
        if t2.env_ptrs() == t1.env_ptrs() {
        } else if t1.env_ptrs().len() >= 1 && t2.env_ptrs() == t1.env_ptrs().drop_last() {
            assert(t2.env_ptrs()[i] == t1.env_ptrs()[i]);
        } else {
            if i < t2.env_ptrs().len() - 1 {
                assert(t2.env_ptrs()[i] == t1.env_ptrs()[i]);
            }
        }
    }
}

impl Thread {
    /// Executes one instruction: pops the front of the continuation down to a
    /// leaf and dispatches on it. A quotation is pushed onto the environment;
    /// a primitive applies its rewrite rule, or freezes itself and the
    /// environment onto the thunk list when operands are missing; a symbol
    /// splices its binding onto the continuation, or freezes when unbound;
    /// `Empty` and annotations are no-ops; a literal in instruction position
    /// is the internal `Bug`.
    #[verifier::rlimit(100)]
    pub fn step(&mut self, heap: &mut Heap, tab: &Dict) -> (r: Result<(), Error>)
        requires
            old(heap).inv(),
            old(self).wf(*old(heap)),
            tab.sorted(),
            tab.wf_in(*old(heap)),
            old(self).con_ptrs().len() > 0,
        ensures
            final(heap).inv(),
            Heap::extends(*final(heap), *old(heap)),
            match r {
                Ok(()) => {
                    &&& final(self).wf(*final(heap))
                    &&& step_spec(
                        old(self).mstate(*old(heap)),
                        dict_leaves(*old(heap), *tab),
                    ) == Some(final(self).mstate(*final(heap)))
                },
                Err(e) => (e == Error::Space && (forall|i: int|
                    0 <= i < final(heap).cap() ==> final(heap).occupied(i))) || (e == Error::Bug
                    && step_spec(
                    old(self).mstate(*old(heap)),
                    dict_leaves(*old(heap), *tab),
                ) is None),
            },
            ({
                let a = old(self).mstate(*old(heap)).con[0];
                let depth = old(self).mstate(*old(heap)).env.len();
                match a {
                    Atom::Lit(_) => true,
                    Atom::Op(op) => (match op {
                        Opcode::Box => depth >= 1,
                        Opcode::Cat => depth >= 2,
                        Opcode::Fix => depth >= 1,
                        _ => false,
                    }) || r is Ok,
                    _ => r is Ok,
                }
            }),
    {
        let ghost m0 = old(self).mstate(*old(heap));
        let ghost d0 = dict_leaves(*old(heap), *tab);
        let code = match self.pop_continuation(heap) {
            Ok(c) => c,
            Err(e) => {
                proof {
                    assert(false);
                }
                return Err(e);
            },
        };
        let ghost a = heap.leaves(code)[0];
        let ghost t0 = *self;
        proof {
            assert(*heap == *old(heap));
            assert(heap.leaves(code) =~= seq![a]);
            assert(m0.con == heap.leaves(code) + seq_leaves(*heap, t0.con_ptrs()));
            assert(m0.con.len() >= 1);
            assert(m0.con[0] == a);
            assert(m0.con.skip(1) =~= seq_leaves(*heap, t0.con_ptrs()));
            crate::heap::lemma_leaves_unfold(*heap, code);
            lemma_env_atoms(*heap, t0.env_ptrs());
            assert(m0.env == seq_leaves(*heap, t0.env_ptrs()));
            assert(m0.env.len() == t0.env_ptrs().len());
        }
        let is_block = heap.is_block(code)?;
        if is_block {
            self.push_environment(code);
            proof {
                lemma_seq_leaves_push(*heap, t0.env_ptrs(), code);
                assert(self.mstate(*heap).env =~= m0.env.push(a));
                assert(self.env_ptrs().drop_last() =~= t0.env_ptrs());
                assert(self.con_ptrs() == t0.con_ptrs());
                assert(self.err_ptrs() == t0.err_ptrs());
                assert(heap.valid(code) && heap.obj(code) is Block);
                assert(self.env_ptrs().last() == code);
                lemma_wf_ops(*self, t0, *heap);
            }
            return Ok(());
        }
        let is_code = heap.is_opcode(code)?;
        if is_code {
            let op = heap.get_opcode(code)?;
            proof {
                assert(a == Atom::Op(op));
            }
            match op {
                Opcode::App => {
                    if !self.is_monadic() {
                        let ghost tpre = *self;
                        self.thunk(code);
                        proof {
                            self.lemma_thunk_state(*heap, tpre, m0, code, a);
                        }
                        return Ok(());
                    }
                    let source = self.pop_environment()?;
                    let target = heap.get_block_body(source)?;
                    self.push_continuation_front(target);
                    proof {
                        let ep = t0.env_ptrs();
                        assert(source == ep.last());
                        assert(seq_leaves(*heap, ep)[ep.len() - 1] == heap.leaves(ep.last())[0]);
                        assert(m0.env.last() == heap.leaves(source)[0]);
                        crate::heap::lemma_leaves_unfold(*heap, source);
                        assert(m0.env.last() == Atom::Quo(heap.leaves(target)));
                        assert(heap.slot_wf(source.idx()));
                        assert(heap.valid(target));
                        lemma_seq_leaves_cons(*heap, t0.con_ptrs(), target);
                        assert(self.con_ptrs() =~= seq![target] + t0.con_ptrs());
                        assert(self.mstate(*heap).env =~= m0.env.drop_last()) by {
                            lemma_seq_leaves_drop_last(*heap, t0.env_ptrs());
                            assert(heap.leaves(source).len() == 1);
                            assert(m0.env =~= seq_leaves(*heap, self.env_ptrs()) + heap.leaves(
                                source,
                            ));
                        }
                        assert(self.con_ptrs().skip(1) =~= t0.con_ptrs());
                        assert(self.env_ptrs() =~= t0.env_ptrs().drop_last());
                        lemma_wf_ops(*self, t0, *heap);
                        assert(step_spec(m0, d0) == Some(self.mstate(*heap)));
                    }
                },
                Opcode::Box => {
                    if !self.is_monadic() {
                        let ghost tpre = *self;
                        self.thunk(code);
                        proof {
                            self.lemma_thunk_state(*heap, tpre, m0, code, a);
                        }
                        return Ok(());
                    }
                    let source = self.pop_environment()?;
                    let ghost h1 = *heap;
                    let ghost t1 = *self;
                    proof {
                        assert(h1.valid(source));
                    }
                    let target = heap.new_block(source)?;
                    self.push_environment(target);
                    proof {
                        lemma_wf_extends(t1, h1, *heap);
                        assert(self.mstate(*heap).err =~= m0.err) by {
                            lemma_seq_leaves_extends(h1, *heap, t1.err_ptrs());
                        }
                        assert(self.mstate(*heap).con =~= m0.con.skip(1)) by {
                            lemma_seq_leaves_extends(h1, *heap, t1.con_ptrs());
                        }
                        let ep = t0.env_ptrs();
                        assert(source == ep.last());
                        assert(seq_leaves(h1, ep)[ep.len() - 1] == h1.leaves(ep.last())[0]);
                        crate::heap::lemma_leaves_unfold(h1, source);
                        assert(m0.env.last() == h1.leaves(source)[0]);
                        lemma_seq_leaves_push(*heap, t1.env_ptrs(), target);
                        assert(heap.leaves(target) =~= seq![Atom::Quo(h1.leaves(source))]);
                        assert(h1.leaves(source) =~= seq![m0.env.last()]);
                        assert(self.mstate(*heap).env =~= m0.env.drop_last().push(
                            Atom::Quo(seq![m0.env.last()]),
                        )) by {
                            lemma_seq_leaves_drop_last(h1, t0.env_ptrs());
                            assert(h1.leaves(source).len() == 1);
                            assert(m0.env =~= seq_leaves(h1, t1.env_ptrs()) + h1.leaves(source));
                        }
                        assert(self.mstate(*heap).con =~= m0.con.skip(1)) by {
                            lemma_seq_leaves_extends(h1, *heap, t1.con_ptrs());
                        }
                        assert(self.env_ptrs().drop_last() =~= t1.env_ptrs());
                        lemma_wf_ops(*self, t1, *heap);
                        assert(step_spec(m0, d0) == Some(self.mstate(*heap)));
                    }
                },
                Opcode::Cat => {
                    if !self.is_dyadic() {
                        let ghost tpre = *self;
                        self.thunk(code);
                        proof {
                            self.lemma_thunk_state(*heap, tpre, m0, code, a);
                        }
                        return Ok(());
                    }
                    let rhs = self.pop_environment()?;
                    let lhs = self.pop_environment()?;
                    let rhs_body = heap.get_block_body(rhs)?;
                    let lhs_body = heap.get_block_body(lhs)?;
                    let ghost h1 = *heap;
                    let ghost t1 = *self;
                    proof {
                        assert(h1.slot_wf(rhs.idx()));
                        assert(h1.slot_wf(lhs.idx()));
                        assert(h1.valid(rhs_body) && h1.valid(lhs_body));
                    }
                    let target_body = heap.new_sequence(lhs_body, rhs_body)?;
                    let ghost h2 = *heap;
                    let target = match heap.new_block(target_body) {
                        Ok(t) => t,
                        Err(e) => {
                            proof {
                                lemma_extends_trans(h1, h2, *heap);
                            }
                            return Err(e);
                        },
                    };
                    self.push_environment(target);
                    proof {
                        lemma_wf_extends(t1, h1, h2);
                        lemma_wf_extends(t1, h2, *heap);
                        lemma_extends_trans(h1, h2, *heap);
                        crate::heap::lemma_leaves_unfold(h1, rhs);
                        crate::heap::lemma_leaves_unfold(h1, lhs);
                        let q = h1.leaves(rhs_body);
                        let p = h1.leaves(lhs_body);
                        let ep = t0.env_ptrs();
                        assert(rhs == ep.last());
                        assert(lhs == ep.drop_last().last());
                        assert(lhs == ep[ep.len() - 2]);
                        assert(seq_leaves(h1, ep)[ep.len() - 1] == h1.leaves(ep.last())[0]);
                        assert(seq_leaves(h1, ep)[ep.len() - 2] == h1.leaves(ep[ep.len() - 2])[0]);
                        assert(m0.env.last() == Atom::Quo(q));
                        assert(m0.env[m0.env.len() - 2] == Atom::Quo(p)) by {
                            assert(m0.env[m0.env.len() - 2] == h1.leaves(lhs)[0]);
                        }
                        lemma_extends_leaves(h2, *heap, target_body);
                        assert(h2.leaves(target_body) == njoin(p, q));
                        assert(heap.leaves(target) =~= seq![Atom::Quo(njoin(p, q))]);
                        lemma_seq_leaves_push(*heap, t1.env_ptrs(), target);
                        lemma_seq_leaves_extends(h1, *heap, t1.env_ptrs());
                        assert(self.mstate(*heap).env =~= m0.env.drop_last().drop_last().push(
                            Atom::Quo(njoin(p, q)),
                        )) by {
                            lemma_seq_leaves_drop_last(h1, t0.env_ptrs());
                            lemma_seq_leaves_drop_last(h1, t0.env_ptrs().drop_last());
                            assert(h1.leaves(rhs).len() == 1);
                            assert(h1.leaves(lhs).len() == 1);
                            assert(m0.env =~= (seq_leaves(h1, t1.env_ptrs()) + h1.leaves(lhs))
                                + h1.leaves(rhs));
                        }
                        assert(self.mstate(*heap).con =~= m0.con.skip(1)) by {
                            lemma_seq_leaves_extends(h1, *heap, t1.con_ptrs());
                        }
                        assert(self.mstate(*heap).err =~= m0.err) by {
                            lemma_seq_leaves_extends(h1, *heap, t1.err_ptrs());
                        }
                        assert(self.env_ptrs().drop_last() =~= t1.env_ptrs());
                        lemma_wf_ops(*self, t1, *heap);
                        assert(step_spec(m0, d0) == Some(self.mstate(*heap)));
                    }
                },
                Opcode::Copy => {
                    if !self.is_monadic() {
                        let ghost tpre = *self;
                        self.thunk(code);
                        proof {
                            self.lemma_thunk_state(*heap, tpre, m0, code, a);
                        }
                        return Ok(());
                    }
                    let source = self.peek_environment()?;
                    self.push_environment(source);
                    proof {
                        let ep = t0.env_ptrs();
                        assert(source == ep.last());
                        assert(seq_leaves(*heap, ep)[ep.len() - 1] == heap.leaves(ep.last())[0]);
                        crate::heap::lemma_leaves_unfold(*heap, source);
                        lemma_seq_leaves_push(*heap, t0.env_ptrs(), source);
                        assert(self.mstate(*heap).env =~= m0.env.push(m0.env.last()));
                        assert(self.env_ptrs().drop_last() =~= t0.env_ptrs());
                        lemma_wf_ops(*self, t0, *heap);
                        assert(step_spec(m0, d0) == Some(self.mstate(*heap)));
                    }
                },
                Opcode::Drop => {
                    if !self.is_monadic() {
                        let ghost tpre = *self;
                        self.thunk(code);
                        proof {
                            self.lemma_thunk_state(*heap, tpre, m0, code, a);
                        }
                        return Ok(());
                    }
                    let source = self.pop_environment()?;
                    proof {
                        let ep = t0.env_ptrs();
                        assert(source == ep.last());
                        crate::heap::lemma_leaves_unfold(*heap, source);
                        lemma_seq_leaves_drop_last(*heap, t0.env_ptrs());
                        assert(heap.leaves(source).len() == 1);
                        assert(self.mstate(*heap).env =~= m0.env.drop_last()) by {
                            assert(m0.env =~= seq_leaves(*heap, self.env_ptrs()) + heap.leaves(
                                source,
                            ));
                        }
                        assert(self.env_ptrs() =~= t0.env_ptrs().drop_last());
                        lemma_wf_ops(*self, t0, *heap);
                        assert(step_spec(m0, d0) == Some(self.mstate(*heap)));
                    }
                },
                Opcode::Swap => {
                    if !self.is_dyadic() {
                        let ghost tpre = *self;
                        self.thunk(code);
                        proof {
                            self.lemma_thunk_state(*heap, tpre, m0, code, a);
                        }
                        return Ok(());
                    }
                    let fst = self.pop_environment()?;
                    let snd = self.pop_environment()?;
                    let ghost t1 = *self;
                    self.push_environment(fst);
                    self.push_environment(snd);
                    proof {
                        let ep = t0.env_ptrs();
                        assert(fst == ep.last());
                        assert(snd == ep.drop_last().last());
                        assert(snd == ep[ep.len() - 2]);
                        assert(seq_leaves(*heap, ep)[ep.len() - 1] == heap.leaves(ep.last())[0]);
                        assert(seq_leaves(*heap, ep)[ep.len() - 2] == heap.leaves(
                            ep[ep.len() - 2],
                        )[0]);
                        crate::heap::lemma_leaves_unfold(*heap, fst);
                        crate::heap::lemma_leaves_unfold(*heap, snd);
                        assert(m0.env.last() == heap.leaves(fst)[0]);
                        assert(m0.env[m0.env.len() - 2] == heap.leaves(snd)[0]);
                        lemma_seq_leaves_push(*heap, t1.env_ptrs(), fst);
                        lemma_seq_leaves_push(*heap, t1.env_ptrs().push(fst), snd);
                        assert(self.env_ptrs() =~= t1.env_ptrs().push(fst).push(snd));
                        assert(self.mstate(*heap).env =~= m0.env.drop_last().drop_last().push(
                            m0.env.last(),
                        ).push(m0.env[m0.env.len() - 2])) by {
                            lemma_seq_leaves_drop_last(*heap, t0.env_ptrs());
                            lemma_seq_leaves_drop_last(*heap, t0.env_ptrs().drop_last());
                            assert(heap.leaves(fst).len() == 1);
                            assert(heap.leaves(snd).len() == 1);
                            assert(m0.env =~= (seq_leaves(*heap, t1.env_ptrs()) + heap.leaves(snd))
                                + heap.leaves(fst));
                        }
                        assert forall|i: int|
                            0 <= i < self.env_ptrs().len() implies heap.valid(
                            #[trigger] self.env_ptrs()[i]) && heap.obj(
                            self.env_ptrs()[i]) is Block by {
                            if i < self.env_ptrs().len() - 2 {
                                assert(self.env_ptrs()[i] == t0.env_ptrs()[i]);
                            } else if i == self.env_ptrs().len() - 2 {
                                assert(self.env_ptrs()[i] == fst);
                            } else {
                                assert(self.env_ptrs()[i] == snd);
                            }
                        }
                        assert(step_spec(m0, d0) == Some(self.mstate(*heap)));
                    }
                },
                Opcode::Fix => {
                    if !self.is_monadic() {
                        let ghost tpre = *self;
                        self.thunk(code);
                        proof {
                            self.lemma_thunk_state(*heap, tpre, m0, code, a);
                        }
                        return Ok(());
                    }
                    let source = self.pop_environment()?;
                    let source_body = heap.get_block_body(source)?;
                    let ghost h1 = *heap;
                    let ghost t1 = *self;
                    proof {
                        assert(h1.slot_wf(source.idx()));
                        assert(h1.valid(source) && h1.valid(source_body) && h1.valid(code));
                    }
                    let fixed = heap.new_sequence(source, code)?;
                    let ghost h2 = *heap;
                    proof {
                        lemma_extends_leaves(h1, h2, source_body);
                    }
                    let target_body = match heap.new_sequence(fixed, source_body) {
                        Ok(t) => t,
                        Err(e) => {
                            proof {
                                lemma_extends_trans(h1, h2, *heap);
                            }
                            return Err(e);
                        },
                    };
                    let ghost h3 = *heap;
                    let target = match heap.new_block(target_body) {
                        Ok(t) => t,
                        Err(e) => {
                            proof {
                                lemma_extends_trans(h1, h2, h3);
                                lemma_extends_trans(h1, h3, *heap);
                            }
                            return Err(e);
                        },
                    };
                    self.push_environment(target);
                    proof {
                        lemma_wf_extends(t1, h1, h2);
                        lemma_wf_extends(t1, h2, h3);
                        lemma_wf_extends(t1, h3, *heap);
                        lemma_extends_trans(h1, h2, h3);
                        lemma_extends_trans(h1, h3, *heap);
                        assert(h1.slot_wf(source.idx()));
                        assert(h1.valid(source_body));
                        crate::heap::lemma_leaves_unfold(h1, source);
                        let p = h1.leaves(source_body);
                        let ep = t0.env_ptrs();
                        assert(source == ep.last());
                        assert(seq_leaves(h1, ep)[ep.len() - 1] == h1.leaves(ep.last())[0]);
                        assert(m0.env.last() == Atom::Quo(p));
                        assert(h1.leaves(source) =~= seq![Atom::Quo(p)]);
                        assert(h1.leaves(code) =~= seq![Atom::Op(Opcode::Fix)]);
                        assert(h2.leaves(fixed) == njoin(
                            seq![Atom::Quo(p)],
                            seq![Atom::Op(Opcode::Fix)],
                        ));
                        assert(njoin(seq![Atom::Quo(p)], seq![Atom::Op(Opcode::Fix)]) == seq![
                            Atom::Quo(p),
                            Atom::Op(Opcode::Fix),
                        ]) by {
                            assert(seq![Atom::Quo(p)] != nil_leaves());
                            assert(seq![Atom::Op(Opcode::Fix)] != nil_leaves());
                            assert(seq![Atom::Quo(p)] + seq![Atom::Op(Opcode::Fix)] =~= seq![
                                Atom::Quo(p),
                                Atom::Op(Opcode::Fix),
                            ]);
                        }
                        lemma_extends_leaves(h2, h3, fixed);
                        lemma_extends_leaves(h1, h2, source_body);
                        assert(h3.leaves(target_body) == njoin(
                            seq![Atom::Quo(p), Atom::Op(Opcode::Fix)],
                            p,
                        ));
                        lemma_extends_leaves(h3, *heap, target_body);
                        assert(heap.leaves(target) =~= seq![
                            Atom::Quo(njoin(seq![Atom::Quo(p), Atom::Op(Opcode::Fix)], p)),
                        ]);
                        lemma_seq_leaves_push(*heap, t1.env_ptrs(), target);
                        lemma_seq_leaves_extends(h1, *heap, t1.env_ptrs());
                        assert(self.mstate(*heap).env =~= m0.env.drop_last().push(
                            Atom::Quo(njoin(seq![Atom::Quo(p), Atom::Op(Opcode::Fix)], p)),
                        )) by {
                            lemma_seq_leaves_drop_last(h1, t0.env_ptrs());
                            assert(h1.leaves(source).len() == 1);
                            assert(m0.env =~= seq_leaves(h1, t1.env_ptrs()) + h1.leaves(source));
                        }
                        assert(self.mstate(*heap).con =~= m0.con.skip(1)) by {
                            lemma_seq_leaves_extends(h1, *heap, t1.con_ptrs());
                        }
                        assert(self.mstate(*heap).err =~= m0.err) by {
                            lemma_seq_leaves_extends(h1, *heap, t1.err_ptrs());
                        }
                        assert(self.env_ptrs().drop_last() =~= t1.env_ptrs());
                        lemma_wf_ops(*self, t1, *heap);
                        assert(step_spec(m0, d0) == Some(self.mstate(*heap)));
                    }
                },
                Opcode::Prop => {
                    let ghost tpre = *self;
                    self.thunk(code);
                    proof {
                        self.lemma_thunk_state(*heap, tpre, m0, code, a);
                    }
                    return Ok(());
                },
                Opcode::Forall => {
                    let ghost tpre = *self;
                    self.thunk(code);
                    proof {
                        self.lemma_thunk_state(*heap, tpre, m0, code, a);
                    }
                    return Ok(());
                },
            }
            return Ok(());
        }
        let is_word = heap.is_word(code)?;
        if is_word {
            let word = heap.get_word(code)?;
            proof {
                assert(a == Atom::Sym(word@));
            }
            match tab.get(word.as_str()) {
                Some(binding) => {
                    self.push_continuation_front(binding);
                    proof {
                        assert(heap.valid(binding));
                        lemma_seq_leaves_cons(*heap, t0.con_ptrs(), binding);
                        assert(self.con_ptrs() =~= seq![binding] + t0.con_ptrs());
                        assert(self.con_ptrs().skip(1) =~= t0.con_ptrs());
                        lemma_wf_ops(*self, t0, *heap);
                        assert(dict_leaves(*old(heap), *tab)[word@] == heap.leaves(binding));
                    }
                },
                None => {
                    let ghost tpre = *self;
                    self.thunk(code);
                    proof {
                        self.lemma_thunk_state(*heap, tpre, m0, code, a);
                        assert(!dict_leaves(*old(heap), *tab).dom().contains(word@));
                    }
                },
            }
            return Ok(());
        }
        let is_id = heap.is_id(code)?;
        let is_hint = heap.is_hint(code)?;
        if is_id || is_hint {
            proof {
                assert(a is Nil || a is Ann);
                assert(self.mstate(*heap).con =~= m0.con.skip(1));
                assert(self.mstate(*heap).env =~= m0.env);
                assert(self.mstate(*heap).err =~= m0.err);
            }
            return Ok(());
        }
        proof {
            assert(a is Lit);
        }
        Err(Error::Bug)
    }

    /// After `thunk(code)`, the thread denotes the frozen state.
    proof fn lemma_thunk_state(self, h: Heap, pre: Thread, m0: MState, code: Pointer, a: Atom)
        requires
            h.inv(),
            pre.wf(h),
            h.valid(code),
            h.leaves(code) == seq![a],
            self.err_ptrs() == pre.err_ptrs() + pre.env_ptrs() + seq![code],
            self.env_ptrs().len() == 0,
            self.con_ptrs() == pre.con_ptrs(),
            m0.err == seq_leaves(h, pre.err_ptrs()),
            m0.env == seq_leaves(h, pre.env_ptrs()),
            m0.con == seq![a] + seq_leaves(h, pre.con_ptrs()),
        ensures
            self.mstate(h) == thunked(m0, a),
            self.wf(h),
    {
        lemma_seq_leaves_concat(h, pre.err_ptrs(), pre.env_ptrs());
        lemma_seq_leaves_concat(h, pre.err_ptrs() + pre.env_ptrs(), seq![code]);
        assert(self.err_ptrs() =~= (pre.err_ptrs() + pre.env_ptrs()) + seq![code]);
        assert((seq![code])[0] == code);
        assert((seq![code]).skip(1) =~= Seq::<Pointer>::empty());
        assert(seq_leaves(h, seq![code]) == h.leaves(code) + seq_leaves(
            h,
            (seq![code]).skip(1),
        ));
        assert(h.leaves(code) + Seq::<Atom>::empty() =~= h.leaves(code));
        assert(seq_leaves(h, seq![code]) =~= h.leaves(code));
        assert(self.mstate(h).err =~= m0.err + m0.env + seq![a]);
        assert(self.mstate(h).env =~= Seq::<Atom>::empty());
        assert((seq![a] + seq_leaves(h, pre.con_ptrs())).skip(1) =~= seq_leaves(
            h,
            pre.con_ptrs(),
        ));
        assert forall|i: int|
            0 <= i < self.err_ptrs().len() implies h.valid(#[trigger] self.err_ptrs()[i]) by {
            if i < pre.err_ptrs().len() {
                assert(self.err_ptrs()[i] == pre.err_ptrs()[i]);
            } else if i < pre.err_ptrs().len() + pre.env_ptrs().len() {
                assert(self.err_ptrs()[i] == pre.env_ptrs()[i - pre.err_ptrs().len()]);
            } else {
                assert(self.err_ptrs()[i] == code);
            }
        }
    }
}


/// Rewrites a term until it reaches normal form or the fuel runs out: one
/// fuel unit per step, regardless of outcome. If fuel runs out first, the
/// result is the flushed environment composed with the remaining
/// continuation, a valid re-reducible partial term; if the continuation
/// empties, the result is the flushed environment and thunk list, in
/// original program order. With zero fuel the root comes back unchanged.
#[verifier::rlimit(100)]
#[verifier::spinoff_prover]
pub fn reduce(continuation: Pointer, heap: &mut Heap, tab: &Dict, time_quota: u64) -> (r: Result<
    Pointer,
    Error,
>)
    requires
        old(heap).inv(),
        tab.sorted(),
        tab.wf_in(*old(heap)),
    ensures
        final(heap).inv(),
        Heap::extends(*final(heap), *old(heap)),
        match r {
            Ok(p) => {
                &&& old(heap).valid(continuation)
                &&& final(heap).valid(p)
                &&& run_spec(
                    init_state(old(heap).leaves(continuation)),
                    dict_leaves(*old(heap), *tab),
                    time_quota as nat,
                ) matches Some(m) && final(heap).leaves(p) == flush_atoms(m)
                &&& (time_quota == 0 ==> p == continuation)
            },
            Err(e) => {
                &&& (e == Error::Null <==> !old(heap).valid(continuation))
                &&& (e == Error::Null ==> *final(heap) == *old(heap))
                &&& (e == Error::Bug ==> run_spec(
                    init_state(old(heap).leaves(continuation)),
                    dict_leaves(*old(heap), *tab),
                    time_quota as nat,
                ) is None)
                &&& (e == Error::Space ==> forall|i: int|
                    0 <= i < final(heap).cap() ==> final(heap).occupied(i))
                &&& (e == Error::Null || e == Error::Bug || e == Error::Space)
            },
        },
        time_quota == 0 && old(heap).valid(continuation) ==> r is Ok,
{
    let valid_root = match heap.is_id(continuation) {
        Ok(_) => true,
        Err(_) => false,
    };
    if !valid_root {
        return Err(Error::Null);
    }
    let ghost d0 = dict_leaves(*old(heap), *tab);
    let ghost s0 = init_state(old(heap).leaves(continuation));
    let mut thread = Thread::with_continuation(continuation);
    let mut time_left: u64 = time_quota;
    proof {
        assert(thread.con_ptrs()[0] == continuation);
        assert(thread.con_ptrs().skip(1) =~= Seq::<Pointer>::empty());
        assert(seq_leaves(*heap, thread.con_ptrs()) == heap.leaves(continuation) + seq_leaves(
            *heap,
            thread.con_ptrs().skip(1),
        ));
        assert(heap.leaves(continuation) + Seq::<Atom>::empty() =~= heap.leaves(continuation));
        assert(thread.mstate(*heap).env =~= Seq::<Atom>::empty());
        assert(thread.mstate(*heap).err =~= Seq::<Atom>::empty());
        assert(thread.mstate(*heap) == s0);
        assert(run_spec(s0, d0, 0) == Some(s0));
    }
    while time_left > 0 && thread.has_continuation()
        invariant
            heap.inv(),
            Heap::extends(*heap, *old(heap)),
            old(heap).inv(),
            old(heap).valid(continuation),
            thread.wf(*heap),
            tab.sorted(),
            tab.wf_in(*heap),
            dict_leaves(*heap, *tab) == d0,
            d0 == dict_leaves(*old(heap), *tab),
            s0 == init_state(old(heap).leaves(continuation)),
            time_left <= time_quota,
            time_left == time_quota ==> thread.con_ptrs() == seq![continuation]
                && thread.env_ptrs().len() == 0 && thread.err_ptrs().len() == 0,
            run_spec(s0, d0, (time_quota - time_left) as nat) == Some(thread.mstate(*heap)),
        decreases time_left,
    {
        proof {
            lemma_row_atoms_nonempty(*heap, thread.con_ptrs());
        }
        time_left = time_left - 1;
        let ghost hpre = *heap;
        let ghost spent = (time_quota - time_left - 1) as nat;
        match thread.step(heap, tab) {
            Ok(()) => {},
            Err(e) => {
                proof {
                    lemma_dict_leaves_extends(hpre, *heap, *tab);
                    if e == Error::Bug {
                        crate::semantics::lemma_run_fail(s0, d0, spent, time_quota as nat);
                    }
                }
                return Err(e);
            },
        }
        proof {
            lemma_dict_leaves_extends(hpre, *heap, *tab);
            crate::semantics::lemma_run_snoc(s0, d0, spent);
        }
    }
    let ghost m_final = thread.mstate(*heap);
    proof {
        if time_left > 0 {
            assert(thread.con_ptrs().len() == 0);
            assert(seq_leaves(*heap, thread.con_ptrs()) =~= Seq::<Atom>::empty());
            crate::semantics::lemma_run_stall(
                s0,
                d0,
                (time_quota - time_left) as nat,
                time_quota as nat,
            );
        }
        assert(run_spec(s0, d0, time_quota as nat) == Some(m_final));
    }
    let r = flush_thread(thread, heap);
    proof {
        if time_quota == 0 {
            assert(time_left == time_quota);
        }
    }
    r
}

/// Flushes a finished thread into a single result term: the thunk list,
/// then the environment, then whatever continuation remains, in execution
/// order. When the thread is still in its seeded state — one continuation
/// entry, nothing produced — the seed itself comes back and the heap is
/// untouched.
fn flush_thread(thread: Thread, heap: &mut Heap) -> (r: Result<Pointer, Error>)
    requires
        old(heap).inv(),
        thread.wf(*old(heap)),
    ensures
        final(heap).inv(),
        Heap::extends(*final(heap), *old(heap)),
        match r {
            Ok(p) => final(heap).valid(p) && final(heap).leaves(p) == flush_atoms(
                thread.mstate(*old(heap)),
            ),
            Err(e) => e == Error::Space && (forall|i: int|
                0 <= i < final(heap).cap() ==> final(heap).occupied(i)),
        },
        thread.con_ptrs().len() == 1 && thread.env_ptrs().len() == 0 && thread.err_ptrs().len()
            == 0 ==> (*final(heap) == *old(heap) && (r matches Ok(p) && p
            == thread.con_ptrs()[0])),
{
    let ghost m_final = thread.mstate(*old(heap));
    let mut thread = thread;
    if thread.has_continuation() {
        let env_empty = !thread.is_monadic();
        let err_empty = thread.err_len() == 0;
        if env_empty && err_empty {
            let r = thread.get_continuation(heap);
            proof {
                if let Ok(p) = r {
                    assert(m_final.err + m_final.env =~= Seq::<Atom>::empty());
                    assert((m_final.err + m_final.env) + m_final.con =~= m_final.con);
                    assert(heap.leaves(p) == flush_atoms(m_final));
                }
            }
            return r;
        }
        let ghost hpre = *heap;
        let ghost tpre = thread;
        let snd = match thread.get_continuation(heap) {
            Ok(p) => p,
            Err(e) => {
                return Err(e);
            },
        };
        let ghost h1 = *heap;
        let ghost t1 = thread;
        proof {
            lemma_seq_leaves_extends(hpre, h1, tpre.env_ptrs());
            lemma_seq_leaves_extends(hpre, h1, tpre.err_ptrs());
            assert(seq_leaves(h1, t1.env_ptrs()) == m_final.env);
            assert(seq_leaves(h1, t1.err_ptrs()) == m_final.err);
        }
        let fst = match thread.get_environment(heap) {
            Ok(p) => p,
            Err(e) => {
                proof {
                    lemma_extends_trans(hpre, h1, *heap);
                }
                return Err(e);
            },
        };
        let ghost h2 = *heap;
        let r = heap.new_sequence(fst, snd);
        proof {
            lemma_extends_trans(hpre, h1, h2);
            lemma_extends_trans(hpre, h2, *heap);
            if let Ok(p) = r {
                lemma_extends_leaves(h1, h2, snd);
                assert(h2.leaves(fst) == squash(m_final.err + m_final.env));
                assert(h2.leaves(snd) == squash(m_final.con));
                lemma_squash_join(m_final.err + m_final.env, m_final.con);
                assert((m_final.err + m_final.env) + m_final.con =~= m_final.err + m_final.env
                    + m_final.con);
                assert(heap.leaves(p) == flush_atoms(m_final));
            }
        }
        r
    } else {
        let r = thread.get_environment(heap);
        proof {
            if let Ok(p) = r {
                assert(m_final.con.len() == 0);
                assert((m_final.err + m_final.env) + m_final.con =~= m_final.err + m_final.env);
                assert(heap.leaves(p) == flush_atoms(m_final));
            }
        }
        r
    }
}

} // verus!
