//! A fixed-capacity generational arena with mark-sweep collection.
//!
//! Nodes are immutable once created and are destroyed only by `sweep`. A
//! `Pointer` names a slot together with the generation stamp of the node it
//! was issued for; a pointer whose stamp no longer matches the slot's
//! occupant fails every operation with `Error::Null`, never undefined
//! behaviour.

use vstd::prelude::*;

use crate::atom::{njoin, nil_leaves, clean, Atom, Opcode};
use crate::error::Error;

verus! {

/// A pointer to some object: a slot index and the generation stamp of the
/// node it was issued for. Two pointers are equal iff both fields match.
#[derive(Debug, Copy, Clone, Eq, PartialEq, Structural, Hash)]
pub struct Pointer {
    index: usize,
    generation: u64,
}

impl Pointer {
    /// The slot this pointer names.
    pub closed spec fn idx(self) -> int {
        self.index as int
    }

    /// The generation stamp this pointer carries.
    pub closed spec fn stamp(self) -> nat {
        self.generation as nat
    }
}

/// The public view of a node's payload: the kind of the object and the plain
/// values or children it holds.
pub ghost enum ObjView {
    /// The identity element of sequential composition.
    Id,
    /// A numeric literal.
    Number(int),
    /// A symbolic name.
    Word(Seq<char>),
    /// An annotation-only leaf.
    Hint(Seq<char>),
    /// A primitive instruction.
    Code(Opcode),
    /// A quotation: an inert program fragment.
    Block(Pointer),
    /// Sequential composition of two fragments.
    Sequence(Pointer, Pointer),
}

enum Object {
    Id,
    Number(i64),
    Word(String),
    Hint(String),
    Code(Opcode),
    Block(Pointer),
    Sequence(Pointer, Pointer),
}

impl Object {
    spec fn view(&self) -> ObjView {
        match self {
            Object::Id => ObjView::Id,
            Object::Number(n) => ObjView::Number(*n as int),
            Object::Word(w) => ObjView::Word(w@),
            Object::Hint(w) => ObjView::Hint(w@),
            Object::Code(op) => ObjView::Code(*op),
            Object::Block(b) => ObjView::Block(*b),
            Object::Sequence(a, b) => ObjView::Sequence(*a, *b),
        }
    }
}

struct Node {
    object: Object,
    generation: u64,
    rank: Ghost<nat>,
}

/// A garbage-collected heap.
pub struct Heap {
    nodes: Vec<Option<Node>>,
    marks: Vec<bool>,
    generation: u64,
}

impl Heap {
    /// The number of slots; fixed at construction.
    pub closed spec fn cap(self) -> nat {
        self.nodes@.len()
    }

    /// The heap's generation counter.
    pub closed spec fn gen(self) -> nat {
        self.generation as nat
    }

    /// Whether slot `i` holds a node.
    pub closed spec fn occupied(self, i: int) -> bool {
        0 <= i < self.nodes@.len() && self.nodes@[i] is Some
    }

    /// The payload of the node in slot `i`.
    pub closed spec fn slot_obj(self, i: int) -> ObjView
        recommends
            self.occupied(i),
    {
        self.nodes@[i]->Some_0.object.view()
    }

    /// The generation stamp of the node in slot `i`.
    pub closed spec fn slot_stamp(self, i: int) -> nat
        recommends
            self.occupied(i),
    {
        self.nodes@[i]->Some_0.generation as nat
    }

    /// The termination rank of the node in slot `i`: children always have
    /// strictly smaller rank.
    pub closed spec fn slot_rank(self, i: int) -> nat
        recommends
            self.occupied(i),
    {
        self.nodes@[i]->Some_0.rank@
    }

    /// Whether the node in slot `i` carries the transient GC-visited flag.
    pub closed spec fn slot_marked(self, i: int) -> bool
        recommends
            0 <= i < self.cap(),
    {
        0 <= i < self.marks@.len() && self.marks@[i]
    }

    /// A pointer is valid while the slot it names is occupied and stamped
    /// with the pointer's own generation.
    pub open spec fn valid(self, p: Pointer) -> bool {
        &&& self.occupied(p.idx())
        &&& self.slot_stamp(p.idx()) == p.stamp()
    }

    /// The payload of the node a valid pointer names.
    pub open spec fn obj(self, p: Pointer) -> ObjView
        recommends
            self.valid(p),
    {
        self.slot_obj(p.idx())
    }

    /// The termination rank of the node a valid pointer names.
    pub open spec fn rank(self, p: Pointer) -> nat
        recommends
            self.valid(p),
    {
        self.slot_rank(p.idx())
    }

    /// Whether a valid pointer's node is marked.
    pub open spec fn marked(self, p: Pointer) -> bool
        recommends
            self.valid(p),
    {
        self.slot_marked(p.idx())
    }

    /// Well-formedness of one occupied slot: its stamp is within the heap's
    /// generation, its children are valid with smaller ranks, and
    /// concatenation nodes are normalized (the left child is neither `Empty`
    /// nor a concatenation, the right child is not `Empty`).
    pub open spec fn slot_wf(self, i: int) -> bool
        recommends
            self.occupied(i),
    {
        &&& self.slot_stamp(i) <= self.gen()
        &&& match self.slot_obj(i) {
            ObjView::Block(b) => self.valid(b) && self.rank(b) < self.slot_rank(i),
            ObjView::Sequence(a, b) => {
                &&& self.valid(a)
                &&& self.valid(b)
                &&& self.rank(a) < self.slot_rank(i)
                &&& self.rank(b) < self.slot_rank(i)
                &&& !(self.obj(a) is Id)
                &&& !(self.obj(a) is Sequence)
                &&& !(self.obj(b) is Id)
            },
            _ => true,
        }
    }

    /// The mark table covers every slot.
    pub closed spec fn marks_sized(self) -> bool {
        self.marks@.len() == self.nodes@.len()
    }

    /// The heap's internal invariant, established by `with_capacity` and
    /// preserved by every operation.
    pub open spec fn inv(self) -> bool {
        &&& self.marks_sized()
        &&& forall|i: int| self.occupied(i) ==> #[trigger] self.slot_wf(i)
        &&& forall|i: int|
            0 <= i < self.cap() && !self.occupied(i) ==> !(#[trigger] self.slot_marked(i))
    }

    /// The visited flags are closed under reachability: the children of every
    /// marked node are marked. Holds between operations; `mark` extends the
    /// flags by everything reachable from a root, and `sweep` clears them.
    pub open spec fn marks_ok(self) -> bool {
        forall|i: int|
            self.occupied(i) && #[trigger] self.slot_marked(i) ==> match self.slot_obj(i) {
                ObjView::Block(b) => self.slot_marked(b.idx()),
                ObjView::Sequence(a, b) => self.slot_marked(a.idx()) && self.slot_marked(b.idx()),
                _ => true,
            }
    }

    /// No slot carries the visited flag.
    pub open spec fn unmarked(self) -> bool {
        forall|i: int| 0 <= i < self.cap() ==> !(#[trigger] self.slot_marked(i))
    }

    /// `h2` extends `h1`: same capacity and generation, every node of `h1`
    /// untouched (payload, stamp, rank and flag alike), and any slot filled
    /// since is unmarked and stamped with the current generation. Every
    /// operation of the reduction machine leaves the heap an extension of
    /// what it was.
    pub open spec fn extends(h2: Heap, h1: Heap) -> bool {
        &&& h2.cap() == h1.cap()
        &&& h2.gen() == h1.gen()
        &&& forall|i: int| h1.occupied(i) ==> {
            &&& #[trigger] h2.occupied(i)
            &&& h2.slot_obj(i) == h1.slot_obj(i)
            &&& h2.slot_stamp(i) == h1.slot_stamp(i)
            &&& h2.slot_rank(i) == h1.slot_rank(i)
        }
        &&& forall|i: int|
            h1.occupied(i) ==> #[trigger] h2.slot_marked(i) == h1.slot_marked(i)
        &&& forall|i: int|
            h2.occupied(i) && !h1.occupied(i) ==> {
                &&& #[trigger] h2.slot_stamp(i) == h1.gen()
                &&& !h2.slot_marked(i)
            }
    }

    /// The leaves of the term a pointer names: `Empty` contributes a `Nil`
    /// leaf, a concatenation contributes the leaves of both children in
    /// order, a quotation is one leaf carrying the leaves of its body, and
    /// every other node is one leaf.
    pub closed spec fn leaves(self, p: Pointer) -> Seq<Atom>
        decreases self.rank(p),
    {
        if !self.valid(p) {
            seq![]
        } else {
            match self.obj(p) {
                ObjView::Id => nil_leaves(),
                ObjView::Number(n) => seq![Atom::Lit(n)],
                ObjView::Word(w) => seq![Atom::Sym(w)],
                ObjView::Hint(w) => seq![Atom::Ann(w)],
                ObjView::Code(op) => seq![Atom::Op(op)],
                ObjView::Block(b) => seq![
                    Atom::Quo(
                        if self.valid(b) && self.rank(b) < self.rank(p) {
                            self.leaves(b)
                        } else {
                            seq![]
                        },
                    ),
                ],
                ObjView::Sequence(a, b) => (if self.valid(a) && self.rank(a) < self.rank(p) {
                    self.leaves(a)
                } else {
                    seq![]
                }) + (if self.valid(b) && self.rank(b) < self.rank(p) {
                    self.leaves(b)
                } else {
                    seq![]
                }),
            }
        }
    }

    /// Everything reachable from `p`: `p` itself, the body of a reachable
    /// quotation, and both children of a reachable concatenation.
    pub closed spec fn reach(self, p: Pointer) -> Set<Pointer>
        decreases self.rank(p),
    {
        set![p].union(
            if !self.valid(p) {
                set![]
            } else {
                match self.obj(p) {
                    ObjView::Block(b) => {
                        if self.valid(b) && self.rank(b) < self.rank(p) {
                            self.reach(b)
                        } else {
                            set![]
                        }
                    },
                    ObjView::Sequence(a, b) => (if self.valid(a) && self.rank(a) < self.rank(p) {
                        self.reach(a)
                    } else {
                        set![]
                    }).union(
                        if self.valid(b) && self.rank(b) < self.rank(p) {
                            self.reach(b)
                        } else {
                            set![]
                        },
                    ),
                    _ => set![],
                }
            },
        )
    }
    /// Well-formedness of a payload about to be stored with rank `rk`: its
    /// children are valid with smaller ranks, and a concatenation is
    /// normalized.
    pub open spec fn new_obj_wf(self, o: ObjView, rk: nat) -> bool {
        match o {
            ObjView::Block(b) => self.valid(b) && self.rank(b) < rk,
            ObjView::Sequence(a, b) => {
                &&& self.valid(a)
                &&& self.valid(b)
                &&& self.rank(a) < rk
                &&& self.rank(b) < rk
                &&& !(self.obj(a) is Id)
                &&& !(self.obj(a) is Sequence)
                &&& !(self.obj(b) is Id)
            },
            _ => true,
        }
    }

    /// Creates a heap with the given capacity: a fixed-size slot table, all
    /// slots empty.
    pub fn with_capacity(capacity: usize) -> (heap: Heap)
        ensures
            heap.inv(),
            heap.marks_ok(),
            heap.unmarked(),
            heap.cap() == capacity,
            heap.gen() == 0,
            forall|i: int| !heap.occupied(i),
    {
        let mut nodes: Vec<Option<Node>> = Vec::new();
        let mut marks: Vec<bool> = Vec::new();
        let mut k: usize = 0;
        while k < capacity
            invariant
                nodes@.len() == k,
                marks@.len() == k,
                k <= capacity,
                forall|i: int| 0 <= i < k ==> nodes@[i] is None,
                forall|i: int| 0 <= i < k ==> !marks@[i],
            decreases capacity - k,
        {
            nodes.push(None);
            marks.push(false);
            k = k + 1;
        }
        Heap { nodes, marks, generation: 0 }
    }

    fn get_ref(&self, pointer: Pointer) -> (r: Result<&Object, Error>)
        ensures
            match r {
                Ok(o) => self.valid(pointer) && o.view() == self.obj(pointer),
                Err(e) => e == Error::Null && !self.valid(pointer),
            },
    {
        if pointer.index >= self.nodes.len() {
            return Err(Error::Null);
        }
        match &self.nodes[pointer.index] {
            Some(node) => {
                if node.generation == pointer.generation {
                    Ok(&node.object)
                } else {
                    Err(Error::Null)
                }
            },
            None => Err(Error::Null),
        }
    }

    fn put(&mut self, object: Object, rk: Ghost<nat>) -> (r: Result<Pointer, Error>)
        requires
            old(self).inv(),
            old(self).new_obj_wf(object.view(), rk@),
        ensures
            match r {
                Ok(p) => {
                    &&& final(self).inv()
                    &&& Heap::extends(*final(self), *old(self))
                    &&& !old(self).occupied(p.idx())
                    &&& final(self).valid(p)
                    &&& final(self).obj(p) == object.view()
                    &&& final(self).rank(p) == rk@
                    &&& p.stamp() == final(self).gen()
                    &&& !final(self).marked(p)
                    &&& forall|i: int|
                        !old(self).occupied(i) && i != p.idx() ==> !final(self).occupied(i)
                    &&& forall|j: int| 0 <= j < p.idx() ==> old(self).occupied(j)
                },
                Err(e) => {
                    &&& e == Error::Space
                    &&& *final(self) == *old(self)
                    &&& forall|i: int| 0 <= i < final(self).cap() ==> final(self).occupied(i)
                },
            },
    {
        let n = self.nodes.len();
        let mut index: usize = 0;
        while index < n
            invariant
                *self == *old(self),
                self.inv(),
                old(self).new_obj_wf(object.view(), rk@),
                n == self.cap(),
                index <= n,
                forall|j: int| 0 <= j < index ==> self.occupied(j),
            decreases n - index,
        {
            let free = self.nodes[index].is_none();
            if free {
                let ghost pre = *self;
                proof {
                    assert(pre == *old(self));
                    assert(pre.new_obj_wf(object.view(), rk@));
                }
                let node = Node { object, generation: self.generation, rank: rk };
                self.nodes[index] = Some(node);
                self.marks[index] = false;
                let pointer = Pointer { index, generation: self.generation };
                proof {
                    assert(self.nodes@ == pre.nodes@.update(index as int, Some(node)));
                    assert(self.marks@ == pre.marks@.update(index as int, false));
                    assert(forall|i: int|
                        0 <= i < self.marks@.len() && i != index as int
                            ==> self.marks@[i] == pre.marks@[i]);
                    assert(forall|i: int|
                        0 <= i < self.nodes@.len() && i != index as int
                            ==> self.nodes@[i] == pre.nodes@[i]);
                    assert(forall|i: int|
                        pre.occupied(i) ==> #[trigger] self.occupied(i)
                            && self.slot_obj(i) == pre.slot_obj(i)
                            && self.slot_stamp(i) == pre.slot_stamp(i)
                            && self.slot_rank(i) == pre.slot_rank(i));
                    assert(!pre.occupied(index as int));
                    assert forall|i: int| self.occupied(i) implies #[trigger] self.slot_wf(i) by {
                        if i != index as int {
                            assert(pre.occupied(i));
                            assert(pre.slot_wf(i));
                            match pre.slot_obj(i) {
                                ObjView::Block(b) => {
                                    assert(pre.valid(b));
                                    assert(b.idx() != index as int);
                                    assert(self.valid(b));
                                },
                                ObjView::Sequence(a, b) => {
                                    assert(pre.valid(a) && pre.valid(b));
                                    assert(a.idx() != index as int && b.idx() != index as int);
                                    assert(self.valid(a) && self.valid(b));
                                },
                                _ => {},
                            }
                        } else {
                            assert(self.slot_obj(i) == object.view());
                            assert(self.slot_stamp(i) == self.gen());
                            assert(self.slot_rank(i) == rk@);
                            match object.view() {
                                ObjView::Block(b) => {
                                    assert(pre.valid(b));
                                    assert(b.idx() != index as int);
                                    assert(self.valid(b));
                                },
                                ObjView::Sequence(a, b) => {
                                    assert(pre.valid(a) && pre.valid(b));
                                    assert(a.idx() != index as int && b.idx() != index as int);
                                    assert(self.valid(a) && self.valid(b));
                                },
                                _ => {},
                            }
                        }
                    }
                    assert forall|i: int|
                        0 <= i < self.cap() && !self.occupied(i) implies !self.slot_marked(
                        i,
                    ) by {
                        assert(i != index as int);
                        assert(!pre.occupied(i));
                        assert(!pre.slot_marked(i));
                        assert(self.marks@[i] == pre.marks@[i]);
                    }
                    assert(self.valid(pointer));
                    assert(Heap::extends(*self, pre));
                }
                return Ok(pointer);
            }
            index = index + 1;
        }
        Err(Error::Space)
    }

    /// Returns a fresh `Empty` object: the identity element of composition.
    pub fn new_id(&mut self) -> (r: Result<Pointer, Error>)
        requires
            old(self).inv(),
        ensures
            Heap::alloc_post(*old(self), *final(self), r, ObjView::Id),
    {
        self.put(Object::Id, Ghost(0))
    }

    /// Creates a new numeric literal.
    pub fn new_number(&mut self, value: i64) -> (r: Result<Pointer, Error>)
        requires
            old(self).inv(),
        ensures
            Heap::alloc_post(*old(self), *final(self), r, ObjView::Number(value as int)),
    {
        self.put(Object::Number(value), Ghost(0))
    }

    /// Creates a new symbolic name.
    pub fn new_word(&mut self, value: String) -> (r: Result<Pointer, Error>)
        requires
            old(self).inv(),
        ensures
            Heap::alloc_post(*old(self), *final(self), r, ObjView::Word(value@)),
    {
        self.put(Object::Word(value), Ghost(0))
    }

    /// Creates a new annotation-only leaf.
    pub fn new_hint(&mut self, value: String) -> (r: Result<Pointer, Error>)
        requires
            old(self).inv(),
        ensures
            Heap::alloc_post(*old(self), *final(self), r, ObjView::Hint(value@)),
    {
        self.put(Object::Hint(value), Ghost(0))
    }

    /// Creates a new primitive instruction.
    pub fn new_opcode(&mut self, opcode: Opcode) -> (r: Result<Pointer, Error>)
        requires
            old(self).inv(),
        ensures
            Heap::alloc_post(*old(self), *final(self), r, ObjView::Code(opcode)),
    {
        self.put(Object::Code(opcode), Ghost(0))
    }

    /// What every allocating constructor guarantees: on success the heap is
    /// extended by one fresh, unmarked node holding the requested payload; on
    /// failure with `Space` the heap is full and unchanged; a constructor
    /// that was handed a stale pointer fails with `Null` and changes nothing.
    pub open spec fn alloc_post(
        pre: Heap,
        post: Heap,
        r: Result<Pointer, Error>,
        o: ObjView,
    ) -> bool {
        match r {
            Ok(p) => {
                &&& post.inv()
                &&& Heap::extends(post, pre)
                &&& !pre.occupied(p.idx())
                &&& post.valid(p)
                &&& post.obj(p) == o
                &&& p.stamp() == post.gen()
                &&& !post.marked(p)
                &&& forall|i: int| !pre.occupied(i) && i != p.idx() ==> !post.occupied(i)
                &&& forall|j: int| 0 <= j < p.idx() ==> pre.occupied(j)
            },
            Err(e) => {
                &&& post == pre
                &&& (e == Error::Space ==> forall|i: int| 0 <= i < post.cap() ==> post.occupied(i))
                &&& (e == Error::Space || e == Error::Null)
                &&& (match o {
                    ObjView::Block(b) => e == Error::Null ==> !pre.valid(b),
                    ObjView::Sequence(a, b) => e == Error::Null ==> !pre.valid(a) || !pre.valid(b),
                    _ => e == Error::Space,
                })
            },
        }
    }

    /// Creates a new quotation wrapping `body`. Fails with `Null` if `body`
    /// is stale.
    pub fn new_block(&mut self, body: Pointer) -> (r: Result<Pointer, Error>)
        requires
            old(self).inv(),
        ensures
            Heap::alloc_post(*old(self), *final(self), r, ObjView::Block(body)),
            r matches Ok(p) ==> final(self).leaves(p) == seq![Atom::Quo(old(self).leaves(body))],
            r matches Ok(p) ==> final(self).rank(p) == old(self).rank(body) + 1,
    {
        if self.get_ref(body).is_err() {
            return Err(Error::Null);
        }
        let rk: Ghost<nat> = Ghost(self.rank(body) + 1);
        let r = self.put(Object::Block(body), rk);
        proof {
            if let Ok(p) = r {
                lemma_extends_leaves(*old(self), *self, body);
            }
        }
        r
    }
}

impl Heap {
    /// Predicates the `Empty` object.
    pub fn is_id(&self, pointer: Pointer) -> (r: Result<bool, Error>)
        ensures
            match r {
                Ok(b) => self.valid(pointer) && (b <==> self.obj(pointer) is Id),
                Err(e) => e == Error::Null && !self.valid(pointer),
            },
    {
        match self.get_ref(pointer) {
            Ok(o) => match o {
                Object::Id => Ok(true),
                _ => Ok(false),
            },
            Err(e) => Err(e),
        }
    }

    /// Predicates numeric literals.
    pub fn is_number(&self, pointer: Pointer) -> (r: Result<bool, Error>)
        ensures
            match r {
                Ok(b) => self.valid(pointer) && (b <==> self.obj(pointer) is Number),
                Err(e) => e == Error::Null && !self.valid(pointer),
            },
    {
        match self.get_ref(pointer) {
            Ok(o) => match o {
                Object::Number(_) => Ok(true),
                _ => Ok(false),
            },
            Err(e) => Err(e),
        }
    }

    /// Predicates symbolic names.
    pub fn is_word(&self, pointer: Pointer) -> (r: Result<bool, Error>)
        ensures
            match r {
                Ok(b) => self.valid(pointer) && (b <==> self.obj(pointer) is Word),
                Err(e) => e == Error::Null && !self.valid(pointer),
            },
    {
        match self.get_ref(pointer) {
            Ok(o) => match o {
                Object::Word(_) => Ok(true),
                _ => Ok(false),
            },
            Err(e) => Err(e),
        }
    }

    /// Predicates annotation-only leaves.
    pub fn is_hint(&self, pointer: Pointer) -> (r: Result<bool, Error>)
        ensures
            match r {
                Ok(b) => self.valid(pointer) && (b <==> self.obj(pointer) is Hint),
                Err(e) => e == Error::Null && !self.valid(pointer),
            },
    {
        match self.get_ref(pointer) {
            Ok(o) => match o {
                Object::Hint(_) => Ok(true),
                _ => Ok(false),
            },
            Err(e) => Err(e),
        }
    }

    /// Predicates primitive instructions.
    pub fn is_opcode(&self, pointer: Pointer) -> (r: Result<bool, Error>)
        ensures
            match r {
                Ok(b) => self.valid(pointer) && (b <==> self.obj(pointer) is Code),
                Err(e) => e == Error::Null && !self.valid(pointer),
            },
    {
        match self.get_ref(pointer) {
            Ok(o) => match o {
                Object::Code(_) => Ok(true),
                _ => Ok(false),
            },
            Err(e) => Err(e),
        }
    }

    /// Predicates quotations.
    pub fn is_block(&self, pointer: Pointer) -> (r: Result<bool, Error>)
        ensures
            match r {
                Ok(b) => self.valid(pointer) && (b <==> self.obj(pointer) is Block),
                Err(e) => e == Error::Null && !self.valid(pointer),
            },
    {
        match self.get_ref(pointer) {
            Ok(o) => match o {
                Object::Block(_) => Ok(true),
                _ => Ok(false),
            },
            Err(e) => Err(e),
        }
    }

    /// Predicates concatenations.
    pub fn is_sequence(&self, pointer: Pointer) -> (r: Result<bool, Error>)
        ensures
            match r {
                Ok(b) => self.valid(pointer) && (b <==> self.obj(pointer) is Sequence),
                Err(e) => e == Error::Null && !self.valid(pointer),
            },
    {
        match self.get_ref(pointer) {
            Ok(o) => match o {
                Object::Sequence(_, _) => Ok(true),
                _ => Ok(false),
            },
            Err(e) => Err(e),
        }
    }

    /// Gets the value of a numeric literal.
    pub fn get_number(&self, pointer: Pointer) -> (r: Result<i64, Error>)
        ensures
            match r {
                Ok(n) => self.valid(pointer) && self.obj(pointer) == ObjView::Number(n as int),
                Err(e) => (e == Error::Null && !self.valid(pointer)) || (e == Error::Tag
                    && self.valid(pointer) && !(self.obj(pointer) is Number)),
            },
    {
        match self.get_ref(pointer) {
            Ok(o) => match o {
                Object::Number(n) => Ok(*n),
                _ => Err(Error::Tag),
            },
            Err(e) => Err(e),
        }
    }

    /// Gets the text of a symbolic name.
    pub fn get_word(&self, pointer: Pointer) -> (r: Result<String, Error>)
        ensures
            match r {
                Ok(w) => self.valid(pointer) && self.obj(pointer) == ObjView::Word(w@),
                Err(e) => (e == Error::Null && !self.valid(pointer)) || (e == Error::Tag
                    && self.valid(pointer) && !(self.obj(pointer) is Word)),
            },
    {
        match self.get_ref(pointer) {
            Ok(o) => match o {
                Object::Word(w) => Ok(w.clone()),
                _ => Err(Error::Tag),
            },
            Err(e) => Err(e),
        }
    }

    /// Gets the text of an annotation.
    pub fn get_hint(&self, pointer: Pointer) -> (r: Result<String, Error>)
        ensures
            match r {
                Ok(w) => self.valid(pointer) && self.obj(pointer) == ObjView::Hint(w@),
                Err(e) => (e == Error::Null && !self.valid(pointer)) || (e == Error::Tag
                    && self.valid(pointer) && !(self.obj(pointer) is Hint)),
            },
    {
        match self.get_ref(pointer) {
            Ok(o) => match o {
                Object::Hint(w) => Ok(w.clone()),
                _ => Err(Error::Tag),
            },
            Err(e) => Err(e),
        }
    }

    /// Gets the instruction a primitive node carries.
    pub fn get_opcode(&self, pointer: Pointer) -> (r: Result<Opcode, Error>)
        ensures
            match r {
                Ok(op) => self.valid(pointer) && self.obj(pointer) == ObjView::Code(op),
                Err(e) => (e == Error::Null && !self.valid(pointer)) || (e == Error::Tag
                    && self.valid(pointer) && !(self.obj(pointer) is Code)),
            },
    {
        match self.get_ref(pointer) {
            Ok(o) => match o {
                Object::Code(op) => Ok(*op),
                _ => Err(Error::Tag),
            },
            Err(e) => Err(e),
        }
    }

    /// Gets the body of a quotation.
    pub fn get_block_body(&self, pointer: Pointer) -> (r: Result<Pointer, Error>)
        ensures
            match r {
                Ok(b) => self.valid(pointer) && self.obj(pointer) == ObjView::Block(b),
                Err(e) => (e == Error::Null && !self.valid(pointer)) || (e == Error::Tag
                    && self.valid(pointer) && !(self.obj(pointer) is Block)),
            },
    {
        match self.get_ref(pointer) {
            Ok(o) => match o {
                Object::Block(b) => Ok(*b),
                _ => Err(Error::Tag),
            },
            Err(e) => Err(e),
        }
    }

    /// Gets the first element of a concatenation.
    pub fn get_sequence_head(&self, pointer: Pointer) -> (r: Result<Pointer, Error>)
        ensures
            match r {
                Ok(a) => self.valid(pointer) && (self.obj(pointer) matches ObjView::Sequence(x, _)
                    && x == a),
                Err(e) => (e == Error::Null && !self.valid(pointer)) || (e == Error::Tag
                    && self.valid(pointer) && !(self.obj(pointer) is Sequence)),
            },
    {
        match self.get_ref(pointer) {
            Ok(o) => match o {
                Object::Sequence(a, _) => Ok(*a),
                _ => Err(Error::Tag),
            },
            Err(e) => Err(e),
        }
    }

    /// Gets the second element of a concatenation.
    pub fn get_sequence_tail(&self, pointer: Pointer) -> (r: Result<Pointer, Error>)
        ensures
            match r {
                Ok(b) => self.valid(pointer) && (self.obj(pointer) matches ObjView::Sequence(_, y)
                    && y == b),
                Err(e) => (e == Error::Null && !self.valid(pointer)) || (e == Error::Tag
                    && self.valid(pointer) && !(self.obj(pointer) is Sequence)),
            },
    {
        match self.get_ref(pointer) {
            Ok(o) => match o {
                Object::Sequence(_, b) => Ok(*b),
                _ => Err(Error::Tag),
            },
            Err(e) => Err(e),
        }
    }

    /// Creates the sequential composition of two fragments, normalized on
    /// construction: composing with `Empty` on either side allocates nothing
    /// and returns the other fragment, and a concatenation on the left is
    /// re-associated to the right, so composition chains stay
    /// right-associated with no `Empty` links inside.
    pub fn new_sequence(&mut self, fst: Pointer, snd: Pointer) -> (r: Result<Pointer, Error>)
        requires
            old(self).inv(),
        ensures
            match r {
                Ok(p) => {
                    &&& final(self).inv()
                    &&& Heap::extends(*final(self), *old(self))
                    &&& old(self).valid(fst) && old(self).valid(snd)
                    &&& final(self).valid(p)
                    &&& final(self).leaves(p) == njoin(
                        old(self).leaves(fst),
                        old(self).leaves(snd),
                    )
                    &&& (old(self).obj(fst) is Id ==> p == snd && *final(self) == *old(self))
                    &&& (!(old(self).obj(fst) is Id) && old(self).obj(snd) is Id ==> p == fst
                        && *final(self) == *old(self))
                },
                Err(e) => {
                    &&& final(self).inv()
                    &&& Heap::extends(*final(self), *old(self))
                    &&& (e == Error::Null || e == Error::Space)
                    &&& (e == Error::Null <==> !old(self).valid(fst) || !old(self).valid(snd))
                    &&& (e == Error::Null ==> *final(self) == *old(self))
                    &&& (e == Error::Space ==> old(self).valid(fst) && old(self).valid(snd))
                    &&& (e == Error::Space ==> forall|i: int|
                        0 <= i < final(self).cap() ==> final(self).occupied(i))
                },
            },
            old(self).valid(fst) && old(self).valid(snd) && (old(self).obj(fst) is Id || old(
                self,
            ).obj(snd) is Id) ==> r is Ok,
        decreases old(self).rank(fst),
    {
        let fst_info: Option<(Pointer, Pointer)> = match self.get_ref(fst) {
            Ok(o) => match o {
                Object::Id => {
                    // still need `snd` checked before returning it
                    match self.get_ref(snd) {
                        Ok(_) => return Ok(snd),
                        Err(e) => return Err(e),
                    }
                },
                Object::Sequence(a, b) => Some((*a, *b)),
                _ => None,
            },
            Err(e) => return Err(e),
        };
        let snd_is_id: bool = match self.get_ref(snd) {
            Ok(o) => match o {
                Object::Id => true,
                _ => false,
            },
            Err(e) => return Err(e),
        };
        proof {
            lemma_leaves_clean(*self, fst);
            lemma_leaves_clean(*self, snd);
        }
        if snd_is_id {
            return Ok(fst);
        }
        if let Some((a, b)) = fst_info {
            proof {
                assert(self.slot_wf(fst.idx()));
                lemma_leaves_clean(*self, a);
                lemma_leaves_clean(*self, b);
            }
            let ghost h0 = *self;
            let rhs = match self.new_sequence(b, snd) {
                Ok(x) => x,
                Err(e) => {
                    proof {
                        assert(e == Error::Space);
                    }
                    return Err(e);
                },
            };
            let ghost h1 = *self;
            proof {
                lemma_extends_leaves(h0, h1, a);
                lemma_leaves_clean(h1, a);
            }
            let r2 = self.new_sequence(a, rhs);
            proof {
                if let Ok(p) = r2 {
                    lemma_njoin_reassociate(
                        h0.leaves(a),
                        h0.leaves(b),
                        h0.leaves(snd),
                    );
                }
            }
            return r2;
        }
        let rk: Ghost<nat> = Ghost(
            if self.rank(fst) >= self.rank(snd) {
                self.rank(fst) + 1
            } else {
                self.rank(snd) + 1
            },
        );
        let ghost pre = *self;
        let r = self.put(Object::Sequence(fst, snd), rk);
        proof {
            if let Ok(p) = r {
                lemma_extends_leaves(pre, *self, fst);
                lemma_extends_leaves(pre, *self, snd);
                assert(self.leaves(p) == self.leaves(fst) + self.leaves(snd));
                assert(pre.leaves(fst) != nil_leaves());
                assert(pre.leaves(snd) != nil_leaves());
            }
        }
        r
    }
}

/// For clean operand leaves with non-`Empty` left parts, the composition of a
/// two-part left operand re-associates to the right.
pub proof fn lemma_njoin_reassociate(la: Seq<Atom>, lb: Seq<Atom>, lc: Seq<Atom>)
    requires
        clean(la),
        clean(lb),
        clean(lc),
        la != nil_leaves(),
        lb != nil_leaves(),
    ensures
        njoin(la + lb, lc) == njoin(la, njoin(lb, lc)),
{
    assert(la.len() >= 1 && lb.len() >= 1);
    assert((la + lb).len() >= 2);
    assert(la + lb != nil_leaves()) by {
        assert((la + lb).len() != nil_leaves().len());
    }
    if lc == nil_leaves() {
        assert(njoin(la + lb, lc) == la + lb);
        assert(njoin(la, njoin(lb, lc)) == la + lb);
    } else {
        assert(lb + lc != nil_leaves()) by {
            assert((lb + lc).len() >= 2);
            assert((lb + lc).len() != nil_leaves().len());
        }
        assert((la + lb) + lc == la + (lb + lc)) by {
            assert((la + lb) + lc =~= la + (lb + lc));
        }
    }
}

/// Under the heap invariant, the leaves of every valid pointer are clean:
/// the single `Empty` leaf exactly for the `Empty` object, and otherwise a
/// nonempty sequence free of `Empty` leaves.
pub proof fn lemma_leaves_clean(h: Heap, p: Pointer)
    requires
        h.inv(),
        h.valid(p),
    ensures
        clean(h.leaves(p)),
        h.leaves(p) == nil_leaves() <==> h.obj(p) is Id,
        h.leaves(p).len() >= 1,
    decreases h.rank(p),
{
    assert(h.slot_wf(p.idx()));
    match h.obj(p) {
        ObjView::Sequence(a, b) => {
            lemma_leaves_clean(h, a);
            lemma_leaves_clean(h, b);
            let la = h.leaves(a);
            let lb = h.leaves(b);
            assert(h.leaves(p) == la + lb);
            assert(la != nil_leaves() && lb != nil_leaves());
            assert(forall|i: int| 0 <= i < la.len() ==> (la + lb)[i] == la[i]);
            assert(forall|i: int|
                la.len() <= i < (la + lb).len() ==> (la + lb)[i] == lb[i - la.len()]);
            assert((la + lb).len() >= 2);
            assert(h.leaves(p) != nil_leaves()) by {
                assert((la + lb).len() != nil_leaves().len());
            }
        },
        ObjView::Id => {
            assert(h.leaves(p) == nil_leaves());
        },
        _ => {
            assert(h.leaves(p).len() == 1);
            assert(h.leaves(p)[0] != Atom::Nil);
            assert(h.leaves(p) != nil_leaves()) by {
                if h.leaves(p) == nil_leaves() {
                    assert(h.leaves(p)[0] == Atom::Nil);
                }
            }
        },
    }
}

/// Heap extension is transitive.
pub proof fn lemma_extends_trans(h1: Heap, h2: Heap, h3: Heap)
    requires
        Heap::extends(h2, h1),
        Heap::extends(h3, h2),
    ensures
        Heap::extends(h3, h1),
{
    assert forall|i: int| h1.occupied(i) implies {
        &&& #[trigger] h3.occupied(i)
        &&& h3.slot_obj(i) == h1.slot_obj(i)
        &&& h3.slot_stamp(i) == h1.slot_stamp(i)
        &&& h3.slot_rank(i) == h1.slot_rank(i)
    } by {
        assert(h2.occupied(i));
        assert(h3.occupied(i));
        assert(h3.slot_obj(i) == h2.slot_obj(i));
        assert(h3.slot_stamp(i) == h2.slot_stamp(i));
        assert(h3.slot_rank(i) == h2.slot_rank(i));
    }
    assert forall|i: int|
        h1.occupied(i) implies #[trigger] h3.slot_marked(i) == h1.slot_marked(i) by {
        assert(h2.occupied(i));
        assert(h3.slot_marked(i) == h2.slot_marked(i));
    }
    assert forall|i: int|
        h3.occupied(i) && !h1.occupied(i) implies {
            &&& #[trigger] h3.slot_stamp(i) == h1.gen()
            &&& !h3.slot_marked(i)
        } by {
        if h2.occupied(i) {
        }
    }
}

/// A valid pointer's slot lies inside the heap's slot table: holding more
/// than `cap` distinct live pointers is impossible, and under `unmarked()`
/// no valid pointer is marked.
pub proof fn lemma_valid_in_cap(h: Heap, p: Pointer)
    requires
        h.valid(p),
    ensures
        0 <= p.idx() < h.cap(),
{
}

/// Unfolds the definition of `leaves` one level for a valid pointer under
/// the heap invariant.
pub proof fn lemma_leaves_unfold(h: Heap, p: Pointer)
    requires
        h.inv(),
        h.valid(p),
    ensures
        match h.obj(p) {
            ObjView::Id => h.leaves(p) == nil_leaves(),
            ObjView::Number(n) => h.leaves(p) == seq![Atom::Lit(n)],
            ObjView::Word(w) => h.leaves(p) == seq![Atom::Sym(w)],
            ObjView::Hint(w) => h.leaves(p) == seq![Atom::Ann(w)],
            ObjView::Code(op) => h.leaves(p) == seq![Atom::Op(op)],
            ObjView::Block(b) => h.leaves(p) == seq![Atom::Quo(h.leaves(b))],
            ObjView::Sequence(a, b) => h.leaves(p) == h.leaves(a) + h.leaves(b),
        },
{
    assert(h.slot_wf(p.idx()));
}

/// A heap extension leaves the leaves of every already-valid pointer
/// unchanged.
pub proof fn lemma_extends_leaves(h1: Heap, h2: Heap, p: Pointer)
    requires
        h1.inv(),
        Heap::extends(h2, h1),
        h1.valid(p),
    ensures
        h2.valid(p),
        h2.rank(p) == h1.rank(p),
        h2.obj(p) == h1.obj(p),
        h2.leaves(p) == h1.leaves(p),
    decreases h1.rank(p),
{
    assert(h1.slot_wf(p.idx()));
    match h1.obj(p) {
        ObjView::Block(b) => {
            lemma_extends_leaves(h1, h2, b);
        },
        ObjView::Sequence(a, b) => {
            lemma_extends_leaves(h1, h2, a);
            lemma_extends_leaves(h1, h2, b);
        },
        _ => {},
    }
}

spec fn count_true(m: Seq<bool>) -> int
    decreases m.len(),
{
    if m.len() == 0 {
        0
    } else {
        count_true(m.drop_last()) + if m.last() {
            1int
        } else {
            0int
        }
    }
}

proof fn lemma_count_true_bound(m: Seq<bool>)
    ensures
        0 <= count_true(m) <= m.len(),
    decreases m.len(),
{
    if m.len() > 0 {
        lemma_count_true_bound(m.drop_last());
    }
}

proof fn lemma_count_true_update(m: Seq<bool>, i: int)
    requires
        0 <= i < m.len(),
        !m[i],
    ensures
        count_true(m.update(i, true)) == count_true(m) + 1,
    decreases m.len(),
{
    let m2 = m.update(i, true);
    if i == m.len() - 1 {
        assert(m2.drop_last() =~= m.drop_last());
    } else {
        assert(m2.drop_last() =~= m.drop_last().update(i, true));
        lemma_count_true_update(m.drop_last(), i);
    }
}

/// Two heaps with the same slot table agree on validity, payloads, ranks,
/// leaves and reachability; the visited flags and the generation counter do
/// not enter into any of these.
proof fn lemma_same_nodes(h1: Heap, h2: Heap, p: Pointer)
    requires
        h1.nodes@ == h2.nodes@,
    ensures
        h1.valid(p) == h2.valid(p),
        h1.valid(p) ==> h1.obj(p) == h2.obj(p) && h1.rank(p) == h2.rank(p),
        h1.leaves(p) == h2.leaves(p),
        h1.reach(p) == h2.reach(p),
    decreases h1.rank(p),
{
    if h1.valid(p) {
        match h1.obj(p) {
            ObjView::Block(b) => {
                if h1.rank(b) < h1.rank(p) {
                    lemma_same_nodes(h1, h2, b);
                }
            },
            ObjView::Sequence(a, b) => {
                if h1.rank(a) < h1.rank(p) {
                    lemma_same_nodes(h1, h2, a);
                }
                if h1.rank(b) < h1.rank(p) {
                    lemma_same_nodes(h1, h2, b);
                }
            },
            _ => {},
        }
        assert(h1.reach(p) =~= h2.reach(p));
        assert(h1.leaves(p) =~= h2.leaves(p));
    } else {
        assert(h1.reach(p) =~= h2.reach(p));
    }
}

/// Every pointer reaches itself.
pub proof fn lemma_reach_self(h: Heap, p: Pointer)
    ensures
        h.reach(p).contains(p),
{
}

/// Under the heap invariant, reachability runs through children: the body of
/// a valid quotation and both children of a valid concatenation are reachable
/// from it, together with everything they reach.
pub proof fn lemma_reach_child(h: Heap, p: Pointer)
    requires
        h.inv(),
        h.valid(p),
    ensures
        h.obj(p) matches ObjView::Block(b) ==> h.reach(b).subset_of(h.reach(p)),
        h.obj(p) matches ObjView::Sequence(a, b) ==> h.reach(a).subset_of(h.reach(p))
            && h.reach(b).subset_of(h.reach(p)),
{
    assert(h.slot_wf(p.idx()));
}

/// Reachability is transitive: everything reachable from a reachable
/// pointer is reachable.
pub proof fn lemma_reach_trans(h: Heap, root: Pointer, q: Pointer)
    requires
        h.inv(),
        h.valid(root),
        h.reach(root).contains(q),
    ensures
        h.reach(q).subset_of(h.reach(root)),
    decreases h.rank(root),
{
    assert(h.slot_wf(root.idx()));
    if q == root {
    } else {
        match h.obj(root) {
            ObjView::Block(b) => {
                lemma_reach_trans(h, b, q);
            },
            ObjView::Sequence(a, b) => {
                if h.reach(a).contains(q) {
                    lemma_reach_trans(h, a, q);
                } else {
                    lemma_reach_trans(h, b, q);
                }
            },
            _ => {},
        }
    }
}

/// A set of valid marked nodes that is closed under children contains
/// everything reachable from any of its members.
pub proof fn lemma_reach_marked(h: Heap, p: Pointer)
    requires
        h.inv(),
        h.marks_ok(),
        h.valid(p),
        h.marked(p),
    ensures
        forall|q: Pointer| h.reach(p).contains(q) ==> #[trigger] h.valid(q),
        forall|q: Pointer| h.reach(p).contains(q) ==> #[trigger] h.marked(q),
    decreases h.rank(p),
{
    assert(h.slot_wf(p.idx()));
    assert(h.slot_marked(p.idx()));
    match h.obj(p) {
        ObjView::Block(b) => {
            assert(h.slot_marked(b.idx()));
            assert(h.valid(b) && h.marked(b));
            lemma_reach_marked(h, b);
        },
        ObjView::Sequence(a, b) => {
            assert(h.slot_marked(a.idx()) && h.slot_marked(b.idx()));
            assert(h.valid(a) && h.marked(a));
            assert(h.valid(b) && h.marked(b));
            lemma_reach_marked(h, a);
            lemma_reach_marked(h, b);
        },
        _ => {},
    }
    assert forall|q: Pointer|
        h.reach(p).contains(q) implies #[trigger] h.valid(q) && #[trigger] h.marked(q) by {
        if q != p {
            match h.obj(p) {
                ObjView::Block(b) => {
                    assert(h.reach(b).contains(q));
                },
                ObjView::Sequence(a, b) => {
                    assert(h.reach(a).contains(q) || h.reach(b).contains(q));
                },
                _ => {
                    assert(false);
                },
            }
        }
    }
}

/// The children of every marked node are marked or still waiting on the
/// worklist.
spec fn cover_of(h: Heap, p: Pointer, stack: Seq<Pointer>) -> bool {
    match h.obj(p) {
        ObjView::Block(b) => h.marked(b) || stack.contains(b),
        ObjView::Sequence(a, b) => (h.marked(a) || stack.contains(a)) && (h.marked(b)
            || stack.contains(b)),
        _ => true,
    }
}

spec fn marked_covered(h: Heap, stack: Seq<Pointer>) -> bool {
    forall|p: Pointer| h.valid(p) && #[trigger] h.marked(p) ==> cover_of(h, p, stack)
}

impl Heap {
    /// The slot tables of two heaps agree: same capacity and generation,
    /// and every slot carries the same occupant, stamp and rank. Marking
    /// changes nothing else.
    pub open spec fn same_nodes(h2: Heap, h1: Heap) -> bool {
        &&& h2.cap() == h1.cap()
        &&& h2.gen() == h1.gen()
        &&& forall|i: int| #[trigger] h2.occupied(i) == h1.occupied(i)
        &&& forall|i: int|
            h1.occupied(i) ==> #[trigger] h2.slot_obj(i) == h1.slot_obj(i) && h2.slot_stamp(i)
                == h1.slot_stamp(i) && h2.slot_rank(i) == h1.slot_rank(i)
    }

    /// Recursively visits the root and everything reachable from it, setting
    /// the visited flag, with an explicit worklist rather than native
    /// recursion. Callable once per external root before a sweep. Fails with
    /// `Null` on a stale root, changing nothing.
    pub fn mark(&mut self, root: Pointer) -> (r: Result<(), Error>)
        requires
            old(self).inv(),
            old(self).marks_ok(),
        ensures
            final(self).inv(),
            final(self).marks_ok(),
            Heap::same_nodes(*final(self), *old(self)),
            match r {
                Ok(()) => {
                    &&& old(self).valid(root)
                    &&& forall|p: Pointer|
                        old(self).valid(p) ==> (#[trigger] final(self).marked(p) <==> old(
                            self,
                        ).marked(p) || old(self).reach(root).contains(p))
                },
                Err(e) => {
                    &&& e == Error::Null
                    &&& !old(self).valid(root)
                    &&& *final(self) == *old(self)
                },
            },
    {
        if self.get_ref(root).is_err() {
            return Err(Error::Null);
        }
        let cap_now = self.nodes.len();
        let mut stack: Vec<Pointer> = Vec::new();
        stack.push(root);
        proof {
            lemma_reach_self(*self, root);
            assert(stack@[0] == root);
            assert(stack@.contains(root));
        }
        while stack.len() != 0
            invariant
                self.inv(),
                old(self).inv(),
                self.nodes@ == old(self).nodes@,
                self.generation == old(self).generation,
                self.nodes@.len() == cap_now,
                old(self).valid(root),
                old(self).marks_ok(),
                forall|k: int|
                    0 <= k < stack@.len() ==> old(self).valid(#[trigger] stack@[k]) && old(
                        self,
                    ).reach(root).contains(stack@[k]),
                forall|p: Pointer|
                    old(self).valid(p) && #[trigger] self.marked(p) ==> old(self).marked(p) || old(
                        self,
                    ).reach(root).contains(p),
                forall|p: Pointer|
                    old(self).valid(p) && old(self).marked(p) ==> #[trigger] self.marked(p),
                marked_covered(*self, stack@),
                self.marked(root) || stack@.contains(root),
            decreases self.cap() - count_true(self.marks@), stack@.len(),
        {
            proof {
                lemma_count_true_bound(self.marks@);
            }
            let ghost sprev = stack@;
            let q = match stack.pop() {
                Some(q) => q,
                None => {
                    proof {
                        assert(false);
                    }
                    root
                },
            };
            proof {
                assert(q == sprev.last() && stack@ == sprev.drop_last());
                assert(sprev.contains(q)) by {
                    assert(sprev[sprev.len() - 1] == q);
                }
                assert(old(self).valid(q));
                lemma_same_nodes(*self, *old(self), q);
                assert(self.valid(q));
            }
            let is_marked = self.marks[q.index];
            if !is_marked {
                let ghost pre = *self;
                self.marks[q.index] = true;
                proof {
                    assert(self.nodes@ == pre.nodes@);
                    assert(self.marks@ == pre.marks@.update(q.idx(), true));
                    lemma_count_true_update(pre.marks@, q.idx());
                    lemma_count_true_bound(self.marks@);
                    assert forall|i: int| self.occupied(i) implies #[trigger] self.slot_wf(i) by {
                        assert(pre.occupied(i));
                        assert(pre.slot_wf(i));
                    }
                    assert forall|i: int|
                        0 <= i < self.cap() && !self.occupied(i) implies !(
                    #[trigger] self.slot_marked(i)) by {
                        assert(i != q.idx());
                        assert(!pre.slot_marked(i));
                    }
                    assert forall|p: Pointer|
                        old(self).valid(p) && #[trigger] self.marked(p) implies old(self).marked(p)
                        || old(self).reach(root).contains(p) by {
                        if p.idx() != q.idx() {
                            assert(pre.marked(p));
                        } else {
                            assert(p.stamp() == old(self).slot_stamp(p.idx()));
                            assert(q.stamp() == old(self).slot_stamp(q.idx()));
                            assert(p.index == q.index && p.generation == q.generation);
                            assert(p == q);
                        }
                    }
                    assert forall|p: Pointer|
                        old(self).valid(p) && old(self).marked(p) implies #[trigger] self.marked(
                        p,
                    ) by {
                        if p.idx() != q.idx() {
                            assert(pre.marked(p));
                        }
                    }
                }
                let children: (Option<Pointer>, Option<Pointer>) = match self.get_ref(q) {
                    Ok(o) => match o {
                        Object::Block(b) => (Some(*b), None),
                        Object::Sequence(a, b) => (Some(*a), Some(*b)),
                        _ => (None, None),
                    },
                    Err(_) => (None, None),
                };
                proof {
                    lemma_reach_child(*old(self), q);
                    lemma_reach_trans(*old(self), root, q);
                    match old(self).obj(q) {
                        ObjView::Block(b) => {
                            assert(old(self).slot_wf(q.idx()));
                            lemma_reach_self(*old(self), b);
                        },
                        ObjView::Sequence(a, b) => {
                            assert(old(self).slot_wf(q.idx()));
                            lemma_reach_self(*old(self), a);
                            lemma_reach_self(*old(self), b);
                        },
                        _ => {},
                    }
                }
                let ghost stack0 = stack@;
                if let Some(c) = children.0 {
                    stack.push(c);
                }
                if let Some(c) = children.1 {
                    stack.push(c);
                }
                proof {
                    lemma_cover_after_visit(pre, *self, q, sprev, stack@);
                    assert(self.marked(root) || stack@.contains(root)) by {
                        if !self.marked(root) {
                            assert(root.idx() != q.idx());
                            assert(sprev.contains(root) || pre.marked(root));
                            if pre.marked(root) {
                                assert(self.marked(root));
                            } else {
                                let k = choose|k: int|
                                    0 <= k < sprev.len() && sprev[k] == root;
                                if k < sprev.len() - 1 {
                                    assert(stack0[k] == root);
                                    assert(stack@[k] == root);
                                } else {
                                    assert(root == q);
                                    assert(self.marked(q));
                                }
                            }
                        }
                    }
                }
            } else {
                proof {
                    lemma_cover_after_skip(*self, q, sprev, stack@);
                    assert(self.marked(root) || stack@.contains(root)) by {
                        if !self.marked(root) {
                            assert(sprev.contains(root));
                            let k = choose|k: int| 0 <= k < sprev.len() && sprev[k] == root;
                            if k < sprev.len() - 1 {
                                assert(stack@[k] == root);
                            } else {
                                assert(root == q);
                            }
                        }
                    }
                }
            }
        }
        proof {
            assert(stack@.len() == 0);
            assert(self.marked(root));
            lemma_covered_empty(*self, stack@);
            lemma_same_nodes(*self, *old(self), root);
            lemma_reach_marked(*self, root);
            assert forall|p: Pointer|
                old(self).valid(p) implies (#[trigger] self.marked(p) <==> old(self).marked(p)
                || old(self).reach(root).contains(p)) by {
                if old(self).reach(root).contains(p) {
                    assert(self.reach(root).contains(p));
                    assert(self.marked(p));
                }
            }
        }
        Ok(())
    }

    /// The current value of the generation counter.
    pub fn generation_counter(&self) -> (g: u64)
        ensures
            g == self.gen(),
    {
        self.generation
    }

    /// What a sweep guarantees about survivors: every marked slot keeps its
    /// occupant, stamp and rank.
    pub open spec fn swept_from(h2: Heap, h1: Heap) -> bool {
        &&& h2.cap() == h1.cap()
        &&& forall|i: int|
            h1.occupied(i) && h1.slot_marked(i) ==> {
                &&& #[trigger] h2.occupied(i)
                &&& h2.slot_obj(i) == h1.slot_obj(i)
                &&& h2.slot_stamp(i) == h1.slot_stamp(i)
                &&& h2.slot_rank(i) == h1.slot_rank(i)
            }
    }

    /// A single pass over all slots: every occupied, unvisited slot is freed;
    /// every visited slot survives with its flag cleared for the next cycle;
    /// the generation counter increments afterward.
    pub fn sweep(&mut self) -> (r: Result<(), Error>)
        requires
            old(self).inv(),
            old(self).marks_ok(),
            old(self).gen() + 1 <= u64::MAX,
        ensures
            r is Ok,
            final(self).inv(),
            final(self).marks_ok(),
            final(self).unmarked(),
            final(self).cap() == old(self).cap(),
            final(self).gen() == old(self).gen() + 1,
            Heap::swept_from(*final(self), *old(self)),
            forall|i: int|
                old(self).occupied(i) && old(self).slot_marked(i) ==> {
                    &&& #[trigger] final(self).occupied(i)
                    &&& final(self).slot_obj(i) == old(self).slot_obj(i)
                    &&& final(self).slot_stamp(i) == old(self).slot_stamp(i)
                    &&& final(self).slot_rank(i) == old(self).slot_rank(i)
                },
            forall|i: int|
                old(self).occupied(i) && !old(self).slot_marked(i) ==> !(
                #[trigger] final(self).occupied(i)),
            forall|i: int| !old(self).occupied(i) ==> !(#[trigger] final(self).occupied(i)),
    {
        let n = self.nodes.len();
        let mut i: usize = 0;
        while i < n
            invariant
                old(self).inv(),
                old(self).marks_ok(),
                self.generation == old(self).generation,
                self.nodes@.len() == n,
                self.marks@.len() == n,
                old(self).cap() == n,
                i <= n,
                forall|j: int|
                    i <= j < n ==> self.nodes@[j] == old(self).nodes@[j] && self.marks@[j] == old(
                        self,
                    ).marks@[j],
                forall|j: int| 0 <= j < i ==> !(#[trigger] self.slot_marked(j)),
                forall|j: int|
                    0 <= j < i ==> (#[trigger] self.occupied(j) <==> old(self).occupied(j) && old(
                        self,
                    ).slot_marked(j)),
                forall|j: int|
                    0 <= j < i && self.occupied(j) ==> self.nodes@[j] == old(self).nodes@[j],
            decreases n - i,
        {
            let ghost pre = *self;
            let is_marked = self.marks[i];
            if is_marked {
                self.marks[i] = false;
                proof {
                    assert(self.nodes@ == pre.nodes@);
                    assert(self.marks@ == pre.marks@.update(i as int, false));
                    assert(pre.occupied(i as int)) by {
                        assert(pre.slot_marked(i as int));
                        assert(old(self).slot_marked(i as int));
                        assert(old(self).occupied(i as int));
                    }
                }
            } else {
                let occupied = self.nodes[i].is_some();
                if occupied {
                    self.nodes[i] = None;
                    proof {
                        assert(self.marks@ == pre.marks@);
                        assert(self.nodes@ == pre.nodes@.update(i as int, None));
                    }
                }
            }
            proof {
                assert(!old(self).occupied(i as int) ==> !old(self).slot_marked(i as int));
                assert(!self.slot_marked(i as int));
                assert(self.occupied(i as int) <==> old(self).occupied(i as int) && old(
                    self,
                ).slot_marked(i as int));
                assert(self.occupied(i as int) ==> self.nodes@[i as int] == old(self).nodes@[
                    i as int]);
                assert forall|j: int| 0 <= j < i + 1 implies !(#[trigger] self.slot_marked(j)) by {
                    if j < i as int {
                        assert(!pre.slot_marked(j));
                    }
                }
                assert forall|j: int|
                    0 <= j < i + 1 implies (#[trigger] self.occupied(j) <==> old(self).occupied(j)
                    && old(self).slot_marked(j)) by {
                    if j < i as int {
                        assert(pre.occupied(j) <==> old(self).occupied(j) && old(self).slot_marked(
                            j,
                        ));
                        assert(self.nodes@[j] == pre.nodes@[j]);
                    }
                }
                assert forall|j: int|
                    0 <= j < i + 1 && self.occupied(j) implies self.nodes@[j] == old(self).nodes@[
                    j] by {
                    if j < i as int {
                        assert(pre.occupied(j) ==> pre.nodes@[j] == old(self).nodes@[j]);
                        assert(self.nodes@[j] == pre.nodes@[j]);
                    }
                }
            }
            i = i + 1;
        }
        let ghost swept = *self;
        self.generation = self.generation + 1;
        proof {
            assert(self.nodes@ == swept.nodes@ && self.marks@ == swept.marks@);
            assert forall|ii: int|
                0 <= ii < self.cap() implies !(#[trigger] self.slot_marked(ii)) by {
                assert(!swept.slot_marked(ii));
            }
            assert(self.marks_sized());
            assert forall|ii: int|
                old(self).occupied(ii) && !old(self).slot_marked(ii) implies !(
            #[trigger] self.occupied(ii)) by {
                assert(!swept.occupied(ii));
            }
            assert forall|ii: int|
                !old(self).occupied(ii) implies !(#[trigger] self.occupied(ii)) by {
                if 0 <= ii < self.nodes@.len() {
                    assert(!swept.occupied(ii));
                }
            }
            assert forall|ii: int| self.occupied(ii) implies #[trigger] self.slot_wf(ii) by {
                assert(swept.occupied(ii));
                assert(old(self).occupied(ii) && old(self).slot_marked(ii));
                assert(self.nodes@[ii] == old(self).nodes@[ii]);
                assert(old(self).slot_wf(ii));
                match old(self).slot_obj(ii) {
                    ObjView::Block(b) => {
                        assert(old(self).valid(b));
                        assert(old(self).slot_marked(b.idx()));
                        assert(swept.occupied(b.idx()));
                        assert(self.occupied(b.idx()));
                        assert(self.nodes@[b.idx()] == old(self).nodes@[b.idx()]);
                    },
                    ObjView::Sequence(a, b) => {
                        assert(old(self).valid(a) && old(self).valid(b));
                        assert(old(self).slot_marked(a.idx()));
                        assert(old(self).slot_marked(b.idx()));
                        assert(swept.occupied(a.idx()) && swept.occupied(b.idx()));
                        assert(self.occupied(a.idx()) && self.occupied(b.idx()));
                        assert(self.nodes@[a.idx()] == old(self).nodes@[a.idx()]);
                        assert(self.nodes@[b.idx()] == old(self).nodes@[b.idx()]);
                    },
                    _ => {},
                }
            }
            assert forall|i: int|
                old(self).occupied(i) && old(self).slot_marked(i) implies {
                    &&& #[trigger] self.occupied(i)
                    &&& self.slot_obj(i) == old(self).slot_obj(i)
                    &&& self.slot_stamp(i) == old(self).slot_stamp(i)
                    &&& self.slot_rank(i) == old(self).slot_rank(i)
                } by {
                assert(swept.occupied(i));
                assert(self.nodes@[i] == old(self).nodes@[i]);
            }
        }
        Ok(())
    }

    /// Marks `root`, then sweeps: deletes every object neither already marked
    /// nor reachable from `root`, keeps everything reachable, and advances
    /// the generation so that pointers into freed slots can never read again.
    pub fn flush(&mut self, root: Pointer) -> (r: Result<(), Error>)
        requires
            old(self).inv(),
            old(self).marks_ok(),
            old(self).gen() + 1 <= u64::MAX,
        ensures
            final(self).inv(),
            final(self).marks_ok(),
            match r {
                Ok(()) => {
                    &&& old(self).valid(root)
                    &&& final(self).unmarked()
                    &&& final(self).cap() == old(self).cap()
                    &&& final(self).gen() == old(self).gen() + 1
                    &&& forall|p: Pointer|
                        old(self).valid(p) ==> (#[trigger] final(self).valid(p) <==> old(
                            self,
                        ).marked(p) || old(self).reach(root).contains(p))
                    &&& forall|p: Pointer|
                        old(self).valid(p) && final(self).valid(p) ==> #[trigger] final(self).obj(p)
                            == old(self).obj(p) && final(self).rank(p) == old(self).rank(p)
                    &&& forall|p: Pointer|
                        !old(self).valid(p) && 0 <= p.idx() < old(self).cap() && p.stamp() <= old(
                            self,
                        ).gen() ==> !(#[trigger] final(self).valid(p))
                },
                Err(e) => {
                    &&& e == Error::Null
                    &&& !old(self).valid(root)
                    &&& *final(self) == *old(self)
                },
            },
    {
        match self.mark(root) {
            Ok(()) => {},
            Err(e) => {
                return Err(e);
            },
        }
        let ghost mid = *self;
        let r = self.sweep();
        proof {
            assert forall|p: Pointer|
                old(self).valid(p) implies (#[trigger] self.valid(p) <==> old(self).marked(p)
                || old(self).reach(root).contains(p)) by {
                assert(mid.occupied(p.idx()) == old(self).occupied(p.idx()));
                assert(mid.slot_obj(p.idx()) == old(self).slot_obj(p.idx()));
                assert(mid.slot_stamp(p.idx()) == old(self).slot_stamp(p.idx()));
                assert(mid.valid(p));
                if mid.marked(p) {
                    assert(mid.occupied(p.idx()) && mid.slot_marked(p.idx()));
                    assert(self.occupied(p.idx()));
                    assert(self.slot_stamp(p.idx()) == mid.slot_stamp(p.idx()));
                } else {
                    assert(!self.occupied(p.idx()));
                }
            }
            assert forall|p: Pointer|
                old(self).valid(p) && self.valid(p) implies #[trigger] self.obj(p) == old(
                self,
            ).obj(p) && self.rank(p) == old(self).rank(p) by {
                assert(mid.occupied(p.idx()) && mid.slot_marked(p.idx()));
                assert(mid.slot_obj(p.idx()) == old(self).slot_obj(p.idx()));
                assert(mid.slot_rank(p.idx()) == old(self).slot_rank(p.idx()));
                assert(self.slot_obj(p.idx()) == mid.slot_obj(p.idx()));
                assert(self.slot_rank(p.idx()) == mid.slot_rank(p.idx()));
            }
            assert forall|p: Pointer|
                !old(self).valid(p) && 0 <= p.idx() < old(self).cap() && p.stamp() <= old(
                    self,
                ).gen() implies !(#[trigger] self.valid(p)) by {
                if self.occupied(p.idx()) {
                    assert(mid.occupied(p.idx()) && mid.slot_marked(p.idx()));
                    assert(mid.occupied(p.idx()) == old(self).occupied(p.idx()));
                    assert(old(self).occupied(p.idx()));
                    assert(self.slot_stamp(p.idx()) == mid.slot_stamp(p.idx()));
                    assert(mid.slot_stamp(p.idx()) == old(self).slot_stamp(p.idx()));
                    assert(old(self).slot_stamp(p.idx()) != p.stamp());
                }
            }
        }
        r
    }
}

/// One visiting step of the worklist keeps the coverage invariant: the
/// freshly marked node's children are on the worklist, and everything that
/// was covered stays covered.
proof fn lemma_cover_after_visit(
    pre: Heap,
    post: Heap,
    q: Pointer,
    sprev: Seq<Pointer>,
    snew: Seq<Pointer>,
)
    requires
        pre.inv(),
        post.nodes@ == pre.nodes@,
        post.marks@ == pre.marks@.update(q.idx(), true),
        pre.valid(q),
        sprev.len() > 0,
        sprev.last() == q,
        marked_covered(pre, sprev),
        match pre.obj(q) {
            ObjView::Block(b) => snew == sprev.drop_last().push(b),
            ObjView::Sequence(a, b) => snew == sprev.drop_last().push(a).push(b),
            _ => snew == sprev.drop_last(),
        },
    ensures
        marked_covered(post, snew),
{
    assert(pre.slot_wf(q.idx()));
    assert forall|c: Pointer|
        pre.marked(c) || sprev.contains(c) implies post.marked(c) || #[trigger] snew.contains(
        c,
    ) by {
        if pre.marked(c) {
            assert(post.marked(c));
        } else {
            let k = choose|k: int| 0 <= k < sprev.len() && sprev[k] == c;
            if k == sprev.len() - 1 {
                assert(c == q);
                assert(post.marked(q));
            } else {
                assert(sprev.drop_last()[k] == c);
                assert(snew[k] == c);
                assert(snew.contains(c));
            }
        }
    }
    assert forall|p: Pointer|
        post.valid(p) && #[trigger] post.marked(p) implies cover_of(post, p, snew) by {
        assert(pre.valid(p));
        assert(pre.obj(p) == post.obj(p));
        if p.idx() != q.idx() {
            assert(pre.marked(p));
            assert(cover_of(pre, p, sprev));
            match pre.obj(p) {
                ObjView::Block(b) => {
                    assert(pre.marked(b) || sprev.contains(b));
                    assert(post.marked(b) || snew.contains(b));
                },
                ObjView::Sequence(a, b) => {
                    assert(pre.marked(a) || sprev.contains(a));
                    assert(pre.marked(b) || sprev.contains(b));
                    assert(post.marked(a) || snew.contains(a));
                    assert(post.marked(b) || snew.contains(b));
                },
                _ => {},
            }
        } else {
            assert(p.stamp() == post.slot_stamp(p.idx()));
            assert(q.stamp() == pre.slot_stamp(q.idx()));
            assert(p.index == q.index && p.generation == q.generation);
            assert(p == q);
            match pre.obj(q) {
                ObjView::Block(b) => {
                    assert(snew[snew.len() - 1] == b);
                    assert(snew.contains(b));
                },
                ObjView::Sequence(a, b) => {
                    assert(snew[snew.len() - 2] == a);
                    assert(snew[snew.len() - 1] == b);
                    assert(snew.contains(a) && snew.contains(b));
                },
                _ => {},
            }
        }
    }
}

/// Popping an already-marked node keeps the coverage invariant: whatever was
/// covered through it is covered through its mark.
proof fn lemma_cover_after_skip(h: Heap, q: Pointer, sprev: Seq<Pointer>, snew: Seq<Pointer>)
    requires
        sprev.len() > 0,
        sprev.last() == q,
        h.valid(q),
        h.marked(q),
        marked_covered(h, sprev),
        snew == sprev.drop_last(),
    ensures
        marked_covered(h, snew),
{
    assert forall|c: Pointer|
        h.marked(c) || sprev.contains(c) implies h.marked(c) || #[trigger] snew.contains(c) by {
        if !h.marked(c) {
            let k = choose|k: int| 0 <= k < sprev.len() && sprev[k] == c;
            if k == sprev.len() - 1 {
                assert(c == q);
                assert(h.marked(q));
            } else {
                assert(snew[k] == c);
                assert(snew.contains(c));
            }
        }
    }
    assert forall|p: Pointer|
        h.valid(p) && #[trigger] h.marked(p) implies cover_of(h, p, snew) by {
        assert(cover_of(h, p, sprev));
        match h.obj(p) {
            ObjView::Block(b) => {
                assert(h.marked(b) || sprev.contains(b));
                assert(h.marked(b) || snew.contains(b));
            },
            ObjView::Sequence(a, b) => {
                assert(h.marked(a) || sprev.contains(a));
                assert(h.marked(b) || sprev.contains(b));
                assert(h.marked(a) || snew.contains(a));
                assert(h.marked(b) || snew.contains(b));
            },
            _ => {},
        }
    }
}

/// A heap extension preserves the collector's resting state: closure of the
/// visited flags, and their absence.
pub proof fn lemma_extends_gc_state(h1: Heap, h2: Heap)
    requires
        h1.inv(),
        h2.inv(),
        Heap::extends(h2, h1),
        h1.marks_ok(),
    ensures
        h2.marks_ok(),
        h1.unmarked() ==> h2.unmarked(),
{
    assert forall|i: int|
        h2.occupied(i) && #[trigger] h2.slot_marked(i) implies match h2.slot_obj(i) {
        ObjView::Block(b) => h2.slot_marked(b.idx()),
        ObjView::Sequence(a, b) => h2.slot_marked(a.idx()) && h2.slot_marked(b.idx()),
        _ => true,
    } by {
        if !h1.occupied(i) {
            assert(h2.slot_stamp(i) == h1.gen());
            assert(!h2.slot_marked(i));
        } else {
            assert(h1.slot_marked(i));
            assert(h1.slot_wf(i));
            assert(h2.slot_obj(i) == h1.slot_obj(i));
            match h1.slot_obj(i) {
                ObjView::Block(b) => {
                    assert(h1.valid(b));
                    assert(h1.slot_marked(b.idx()));
                    assert(h2.slot_marked(b.idx()));
                },
                ObjView::Sequence(a, b) => {
                    assert(h1.valid(a) && h1.valid(b));
                    assert(h1.slot_marked(a.idx()) && h1.slot_marked(b.idx()));
                    assert(h2.slot_marked(a.idx()) && h2.slot_marked(b.idx()));
                },
                _ => {},
            }
        }
    }
    if h1.unmarked() {
        assert forall|i: int| 0 <= i < h2.cap() implies !(#[trigger] h2.slot_marked(i)) by {
            if h1.occupied(i) {
                assert(!h1.slot_marked(i));
            } else if h2.occupied(i) {
                assert(h2.slot_stamp(i) == h1.gen());
            } else {
            }
        }
    }
}

/// Two heaps with the same slot table give every valid pointer the same
/// leaves; marking changes neither validity nor leaves.
pub proof fn lemma_same_leaves(h1: Heap, h2: Heap, p: Pointer)
    requires
        h1.inv(),
        Heap::same_nodes(h2, h1),
        h1.valid(p),
    ensures
        h2.valid(p),
        h2.obj(p) == h1.obj(p),
        h2.rank(p) == h1.rank(p),
        h2.leaves(p) == h1.leaves(p),
    decreases h1.rank(p),
{
    assert(h1.slot_wf(p.idx()));
    assert(h2.occupied(p.idx()) == h1.occupied(p.idx()));
    assert(h2.slot_obj(p.idx()) == h1.slot_obj(p.idx()));
    match h1.obj(p) {
        ObjView::Block(b) => {
            lemma_same_leaves(h1, h2, b);
        },
        ObjView::Sequence(a, b) => {
            lemma_same_leaves(h1, h2, a);
            lemma_same_leaves(h1, h2, b);
        },
        _ => {},
    }
}

/// A marked term survives a sweep with its leaves intact: the visited flags
/// are closed under children, so everything it is built from survives too.
pub proof fn lemma_swept_leaves(h1: Heap, h2: Heap, p: Pointer)
    requires
        h1.inv(),
        h1.marks_ok(),
        Heap::swept_from(h2, h1),
        h1.valid(p),
        h1.marked(p),
    ensures
        h2.valid(p),
        h2.obj(p) == h1.obj(p),
        h2.rank(p) == h1.rank(p),
        h2.leaves(p) == h1.leaves(p),
    decreases h1.rank(p),
{
    assert(h1.slot_wf(p.idx()));
    assert(h1.slot_marked(p.idx()));
    match h1.obj(p) {
        ObjView::Block(b) => {
            assert(h1.slot_marked(b.idx()));
            lemma_swept_leaves(h1, h2, b);
        },
        ObjView::Sequence(a, b) => {
            assert(h1.slot_marked(a.idx()) && h1.slot_marked(b.idx()));
            lemma_swept_leaves(h1, h2, a);
            lemma_swept_leaves(h1, h2, b);
        },
        _ => {},
    }
}

/// With an empty worklist, coverage is exactly closure of the visited flags
/// under children.
proof fn lemma_covered_empty(h: Heap, stack: Seq<Pointer>)
    requires
        h.inv(),
        h.cap() <= usize::MAX,
        stack.len() == 0,
        marked_covered(h, stack),
    ensures
        h.marks_ok(),
{
    assert forall|i: int|
        h.occupied(i) && #[trigger] h.slot_marked(i) implies match h.slot_obj(i) {
        ObjView::Block(b) => h.slot_marked(b.idx()),
        ObjView::Sequence(a, b) => h.slot_marked(a.idx()) && h.slot_marked(b.idx()),
        _ => true,
    } by {
        let pp = Pointer { index: i as usize, generation: (h.slot_stamp(i) as u64) };
        assert(pp.idx() == i);
        assert(pp.stamp() == h.slot_stamp(i));
        assert(h.valid(pp));
        assert(h.marked(pp));
        assert(cover_of(h, pp, stack));
        assert(forall|c: Pointer| !stack.contains(c));
    }
}

} // verus!
