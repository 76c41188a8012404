//! The session layer: a heap together with a dictionary of named
//! definitions, evaluated one line at a time. A line `:name value` binds a
//! name to the reduction of `value`; a line `~name` deletes a binding; any
//! other line reduces and renders. After each line every binding is marked
//! and the heap is swept.

use vstd::prelude::*;

use crate::atom::Atom;
use crate::dict::Dict;
use crate::error::Error;
use crate::heap::{lemma_extends_leaves, lemma_swept_leaves, Heap, Pointer};
use crate::machine::{dict_leaves, reduce};
use crate::semantics::{flush_atoms, init_state, run_spec};
use crate::text::{render_leaves, spec_parse};

verus! {

/// The capture groups of the binding command `:name value`: the whole match,
/// the name, and the value source.
pub open spec fn insert_captures(s: Seq<char>) -> Option<Seq<Seq<char>>> {
    captures_of("^:([a-z0-9-]+)\\s+(.*)"@, s)
}

/// The capture groups of the deletion command `~name`: the whole match and
/// the name.
pub open spec fn delete_captures(s: Seq<char>) -> Option<Seq<Seq<char>>> {
    captures_of("^~([a-z0-9-]+)\\s*"@, s)
}

/// The capture groups of the leftmost match of a regular expression, a
/// function of the pattern and the text alone; `None` when the pattern does
/// not match the text or is not a valid pattern; a group that did not
/// participate in the match is empty.
pub uninterp spec fn captures_of(pattern: Seq<char>, text: Seq<char>) -> Option<Seq<Seq<char>>>;

/// Relies on regex::Regex::new and regex::Regex::captures: the capture
/// groups of the leftmost match, determined by the pattern and the text
/// alone.
#[verifier::external_body]
fn regex_captures(pattern: &str, text: &str) -> (r: Option<Vec<String>>)
    ensures
        match r {
            Some(groups) => captures_of(pattern@, text@) matches Some(g) && g == groups.deep_view()
                && groups.deep_view().len() >= 1,
            None => captures_of(pattern@, text@) is None,
        },
{
    let re = match regex::Regex::new(pattern) {
        Ok(re) => re,
        Err(_) => return None,
    };
    let caps = re.captures(text)?;
    let mut out: Vec<String> = Vec::new();
    for i in 0..caps.len() {
        out.push(match caps.get(i) {
            Some(m) => m.as_str().to_string(),
            None => String::new(),
        });
    }
    Some(out)
}

/// The length of the first line of a text: the characters before the first
/// newline.
pub open spec fn line_len(s: Seq<char>) -> nat
    decreases s.len(),
{
    if s.len() == 0 || s[0] == '\n' {
        0
    } else {
        1 + line_len(s.skip(1))
    }
}

/// A line never runs past the end of the text.
pub proof fn lemma_line_len_bound(s: Seq<char>)
    ensures
        line_len(s) <= s.len(),
    decreases s.len(),
{
    if s.len() > 0 && s[0] != '\n' {
        lemma_line_len_bound(s.skip(1));
    }
}

/// The lines of a text, split on newlines. A trailing newline closes the
/// last line rather than opening an empty one.
pub open spec fn spec_lines(s: Seq<char>) -> Seq<Seq<char>>
    decreases s.len(),
    via spec_lines_decreases
{
    if s.len() == 0 {
        seq![]
    } else if line_len(s) == s.len() {
        seq![s]
    } else {
        seq![s.take(line_len(s) as int)] + spec_lines(s.skip(line_len(s) as int + 1))
    }
}

#[via_fn]
proof fn spec_lines_decreases(s: Seq<char>) {
    lemma_line_len_bound(s);
}

/// What one line does to the dictionary when it succeeds: a binding command
/// inserts the reduction of its value, a deletion command removes, any other
/// line leaves the dictionary alone; `None` where evaluation cannot succeed.
pub open spec fn line_dict(d: Map<Seq<char>, Seq<Atom>>, line: Seq<char>, fuel: nat) -> Option<
    Map<Seq<char>, Seq<Atom>>,
> {
    match insert_captures(line) {
        Some(g) => {
            if g.len() == 3 && spec_parse(g[2]) is Some && run_spec(
                init_state(spec_parse(g[2])->Some_0),
                d,
                fuel,
            ) is Some {
                Some(
                    d.insert(
                        g[1],
                        flush_atoms(run_spec(init_state(spec_parse(g[2])->Some_0), d, fuel)->Some_0),
                    ),
                )
            } else {
                None
            }
        },
        None => match delete_captures(line) {
            Some(g) => {
                if g.len() == 2 {
                    Some(d.remove(g[1]))
                } else {
                    None
                }
            },
            None => {
                if spec_parse(line) is Some && run_spec(
                    init_state(spec_parse(line)->Some_0),
                    d,
                    fuel,
                ) is Some {
                    Some(d)
                } else {
                    None
                }
            },
        },
    }
}

/// The dictionary after evaluating a row of lines in order, when every line
/// succeeds.
pub open spec fn fold_bindings(
    d: Map<Seq<char>, Seq<Atom>>,
    lines: Seq<Seq<char>>,
    fuel: nat,
) -> Option<Map<Seq<char>, Seq<Atom>>>
    decreases lines.len(),
{
    if lines.len() == 0 {
        Some(d)
    } else {
        match line_dict(d, lines[0], fuel) {
            None => None,
            Some(d2) => fold_bindings(d2, lines.skip(1), fuel),
        }
    }
}

/// With all characters up to `k` inside the line and a newline (or the end)
/// at `k`, the line is exactly `k` characters long.
proof fn lemma_line_len_exact(s: Seq<char>, k: int)
    requires
        0 <= k <= s.len(),
        forall|m: int| 0 <= m < k ==> #[trigger] s[m] != '\n',
        k == s.len() || s[k] == '\n',
    ensures
        line_len(s) == k,
    decreases k,
{
    if k > 0 {
        assert(forall|m: int| 0 <= m < k - 1 ==> s.skip(1)[m] == s[m + 1]);
        lemma_line_len_exact(s.skip(1), k - 1);
    }
}

/// A process: a heap and a dictionary of named definitions.
pub struct Pod {
    heap: Heap,
    tab: Dict,
}

impl Pod {
    /// The bindings, as a map from names to the leaves of the bound terms.
    pub open spec fn dict(self) -> Map<Seq<char>, Seq<Atom>> {
        dict_leaves(self.heap_ref(), self.tab_ref())
    }

    /// The heap of this process.
    pub closed spec fn heap_ref(self) -> Heap {
        self.heap
    }

    /// The dictionary of this process.
    pub closed spec fn tab_ref(self) -> Dict {
        self.tab
    }

    /// The process is well-formed: the heap invariant holds, no transient
    /// marks are set, and every binding is a valid pointer.
    pub open spec fn wf(self) -> bool {
        &&& self.heap_ref().inv()
        &&& self.heap_ref().marks_ok()
        &&& self.heap_ref().unmarked()
        &&& self.tab_ref().sorted()
        &&& self.tab_ref().wf_in(self.heap_ref())
    }

    fn with_heap(heap: Heap) -> (pod: Pod)
        requires
            heap.inv(),
            heap.marks_ok(),
            heap.unmarked(),
        ensures
            pod.wf(),
            pod.dict() == Map::<Seq<char>, Seq<Atom>>::empty(),
            pod.heap_ref() == heap,
    {
        let pod = Pod { heap, tab: Dict::new() };
        proof {
            assert(pod.dict() =~= Map::<Seq<char>, Seq<Atom>>::empty());
        }
        pod
    }

    /// Builds a process by evaluating each line of `src` in an empty heap of
    /// the given capacity: the result's dictionary is the fold of the lines
    /// over an empty dictionary.
    pub fn from_string(src: &str, space_quota: usize, time_quota: u64) -> (r: Result<Pod, Error>)
        ensures
            r matches Ok(pod) ==> pod.wf() && fold_bindings(
                Map::<Seq<char>, Seq<Atom>>::empty(),
                spec_lines(src@),
                time_quota as nat,
            ) == Some(pod.dict()),
            src@.len() == 0 ==> r is Ok,
    {
        let heap = Heap::with_capacity(space_quota);
        let mut pod = Pod::with_heap(heap);
        let n = src.unicode_len();
        let mut i: usize = 0;
        proof {
            assert(src@.skip(0) =~= src@);
        }
        while i < n
            invariant
                pod.wf(),
                n == src@.len(),
                i <= n,
                fold_bindings(
                    Map::<Seq<char>, Seq<Atom>>::empty(),
                    spec_lines(src@),
                    time_quota as nat,
                ) == fold_bindings(pod.dict(), spec_lines(src@.skip(i as int)), time_quota as nat),
            decreases n - i,
        {
            let mut j: usize = i;
            while j < n && src.get_char(j) != '\n'
                invariant
                    i <= j <= n,
                    n == src@.len(),
                    forall|m: int| i <= m < j ==> #[trigger] src@[m] != '\n',
                decreases n - j,
            {
                j = j + 1;
            }
            let line = src.substring_char(i, j).to_owned();
            let ghost tail = src@.skip(i as int);
            proof {
                assert(forall|m: int| 0 <= m < j - i ==> tail[m] == src@[m + i]);
                assert(j == n || src@[j as int] == '\n');
                lemma_line_len_exact(tail, j - i);
                assert(tail.take(j - i) =~= src@.subrange(i as int, j as int));
                assert(line@ == tail.take(line_len(tail) as int));
            }
            if pod.heap.generation_counter() == u64::MAX {
                return Err(Error::Space);
            }
            let ghost d_pre = pod.dict();
            match pod.eval(line.as_str(), time_quota) {
                Ok(_) => {},
                Err(e) => {
                    return Err(e);
                },
            }
            proof {
                assert(line_dict(d_pre, line@, time_quota as nat) == Some(pod.dict())) by {
                    match insert_captures(line@) {
                        Some(g) => {},
                        None => {
                            match delete_captures(line@) {
                                Some(g) => {},
                                None => {},
                            }
                        },
                    }
                }
                if j < n {
                    assert(line_len(tail) < tail.len());
                    assert(spec_lines(tail) == seq![line@] + spec_lines(
                        tail.skip(j - i + 1),
                    ));
                    assert(tail.skip(j - i + 1) =~= src@.skip(j as int + 1));
                    assert((seq![line@] + spec_lines(src@.skip(j as int + 1)))[0] == line@);
                    assert((seq![line@] + spec_lines(src@.skip(j as int + 1))).skip(1)
                        =~= spec_lines(src@.skip(j as int + 1)));
                } else {
                    assert(line_len(tail) == tail.len());
                    assert(line@ =~= tail);
                    assert(spec_lines(tail) == seq![tail]);
                    assert((seq![tail])[0] == tail);
                    assert((seq![tail]).skip(1) =~= Seq::<Seq<char>>::empty());
                    assert(src@.skip(n as int).len() == 0);
                    assert(spec_lines(src@.skip(n as int)) =~= Seq::<Seq<char>>::empty());
                }
            }
            if j < n {
                i = j + 1;
            } else {
                i = n;
            }
        }
        proof {
            assert(src@.skip(i as int).len() == 0);
            assert(spec_lines(src@.skip(i as int)) =~= Seq::<Seq<char>>::empty());
        }
        Ok(pod)
    }

    /// Evaluates one line. `:name value` parses and reduces `value`, binds
    /// `name` to the result, and echoes the binding; `~name` deletes the
    /// binding and echoes the deletion; any other line parses, reduces and
    /// renders. Afterwards every binding is marked and the heap is swept.
    pub fn eval(&mut self, src: &str, time_quota: u64) -> (r: Result<String, Error>)
        requires
            old(self).wf(),
            old(self).heap_ref().gen() + 1 <= u64::MAX,
        ensures
            final(self).wf(),
            match r {
                Ok(out) => {
                    &&& (insert_captures(src@) matches Some(g) ==> (g.len() == 3 && (spec_parse(
                        g[2],
                    ) matches Some(atoms) && run_spec(
                        init_state(atoms),
                        old(self).dict(),
                        time_quota as nat,
                    ) matches Some(m) && out@ == seq![':'] + g[1] + seq![' '] + render_leaves(
                        flush_atoms(m),
                    ) && final(self).dict() == old(self).dict().insert(g[1], flush_atoms(m)))))
                    &&& (insert_captures(src@) is None ==> (delete_captures(
                        src@,
                    ) matches Some(g) ==> (g.len() == 2 && out@ == seq!['~'] + g[1]
                        && final(self).dict() == old(self).dict().remove(g[1]))))
                    &&& (insert_captures(src@) is None && delete_captures(src@) is None ==> (
                    spec_parse(src@) matches Some(atoms) && run_spec(
                        init_state(atoms),
                        old(self).dict(),
                        time_quota as nat,
                    ) matches Some(m) && out@ == render_leaves(flush_atoms(m))
                        && final(self).dict() == old(self).dict()))
                },
                Err(e) => {
                    &&& (e == Error::Syntax || e == Error::Bug || e == Error::Space)
                    &&& final(self).dict() == old(self).dict()
                    &&& (e == Error::Space ==> forall|i: int|
                        0 <= i < final(self).heap_ref().cap()
                            ==> final(self).heap_ref().occupied(i))
                    &&& (e == Error::Syntax ==> ({
                        &&& (insert_captures(src@) matches Some(g) ==> g.len() == 3 && spec_parse(
                            g[2],
                        ) is None)
                        &&& (insert_captures(src@) is None ==> delete_captures(src@) is None
                            && spec_parse(src@) is None)
                    }))
                    &&& (e == Error::Bug ==> ({
                        ||| (insert_captures(src@) matches Some(g) && g.len() != 3)
                        ||| (insert_captures(src@) matches Some(g) && g.len() == 3 && (spec_parse(
                            g[2],
                        ) matches Some(atoms) && run_spec(
                            init_state(atoms),
                            old(self).dict(),
                            time_quota as nat,
                        ) is None))
                        ||| (insert_captures(src@) is None && (delete_captures(
                            src@,
                        ) matches Some(g) && g.len() != 2))
                        ||| (insert_captures(src@) is None && delete_captures(src@) is None && (
                        spec_parse(src@) matches Some(atoms) && run_spec(
                            init_state(atoms),
                            old(self).dict(),
                            time_quota as nat,
                        ) is None))
                    }))
                },
            },
    {
        let mut dst = String::new();
        let ghost d0 = self.dict();
        if let Some(caps) = regex_captures("^:([a-z0-9-]+)\\s+(.*)", src) {
            if caps.len() != 3 {
                return Err(Error::Bug);
            }
            let key = caps[1].clone();
            let value_src = &caps[2];
            let ghost h0 = self.heap;
            let value = match self.heap.parse(value_src.as_str()) {
                Ok(p) => p,
                Err(e) => {
                    proof {
                        self.lemma_frame(*old(self), h0);
                    }
                    return Err(e);
                },
            };
            let ghost h1 = self.heap;
            proof {
                self.lemma_frame(*old(self), h0);
            }
            let ghost m = run_spec(
                init_state(h1.leaves(value)),
                d0,
                time_quota as nat,
            )->Some_0;
            let target = match reduce(value, &mut self.heap, &self.tab, time_quota) {
                Ok(p) => p,
                Err(e) => {
                    proof {
                        self.lemma_frame(*old(self), h0);
                        assert(e != Error::Null);
                    }
                    return Err(e);
                },
            };
            proof {
                self.lemma_frame(*old(self), h0);
            }
            self.tab.insert(key.clone(), target);
            dst.append(":");
            dst.append(key.as_str());
            dst.append(" ");
            match self.heap.quote(target, &mut dst) {
                Ok(()) => {},
                Err(_) => {
                    proof {
                        assert(false);
                    }
                    return Err(Error::Bug);
                },
            }
            proof {
                reveal_strlit(":");
                reveal_strlit(" ");
                assert(":"@ =~= seq![':']);
                assert(" "@ =~= seq![' ']);
                assert(dst@ =~= seq![':'] + key@ + seq![' '] + render_leaves(
                    self.heap.leaves(target),
                ));
                let hcur = self.heap;
                crate::heap::lemma_extends_trans(h0, h1, hcur);
                assert(hcur.leaves(target) == flush_atoms(m));
                assert forall|w: Seq<char>|
                    self.tab@.dom().contains(w) && w != key@ implies hcur.valid(
                    #[trigger] self.tab@[w],
                ) && hcur.leaves(self.tab@[w]) == d0[w] by {
                    assert(self.tab@[w] == old(self).tab_ref()@[w]);
                    lemma_extends_leaves(h0, hcur, self.tab@[w]);
                }
                assert(self.dict() =~= d0.insert(key@, flush_atoms(m)));
            }
            let out = self.collect(dst);
            proof {
                if let Ok(_) = out {
                    assert(self.dict() =~= d0.insert(key@, flush_atoms(m)));
                }
            }
            return out;
        }
        if let Some(caps) = regex_captures("^~([a-z0-9-]+)\\s*", src) {
            if caps.len() != 2 {
                return Err(Error::Bug);
            }
            let key = &caps[1];
            self.tab.remove(key.as_str());
            dst.append("~");
            dst.append(key.as_str());
            proof {
                reveal_strlit("~");
                assert("~"@ =~= seq!['~']);
                assert(dst@ =~= seq!['~'] + key@);
            }
            let out = self.collect(dst);
            proof {
                if let Ok(_) = out {
                    assert(self.dict() =~= d0.remove(key@));
                }
            }
            return out;
        }
        let ghost h0 = self.heap;
        let source = match self.heap.parse(src) {
            Ok(p) => p,
            Err(e) => {
                proof {
                    self.lemma_frame(*old(self), h0);
                }
                return Err(e);
            },
        };
        let ghost h1 = self.heap;
        proof {
            self.lemma_frame(*old(self), h0);
        }
        let target = match reduce(source, &mut self.heap, &self.tab, time_quota) {
            Ok(p) => p,
            Err(e) => {
                proof {
                    self.lemma_frame(*old(self), h0);
                    assert(e != Error::Null);
                }
                return Err(e);
            },
        };
        proof {
            self.lemma_frame(*old(self), h0);
        }
        match self.heap.quote(target, &mut dst) {
            Ok(()) => {},
            Err(_) => {
                proof {
                    assert(false);
                }
                return Err(Error::Bug);
            },
        }
        let out = self.collect(dst);
        proof {
            if let Ok(_) = out {
                assert(self.dict() =~= d0);
            }
        }
        out
    }

    /// The dictionary's leaves survive heap extension.
    proof fn lemma_frame(self, pre: Pod, h0: Heap)
        requires
            pre.wf(),
            h0 == pre.heap_ref(),
            self.tab_ref() == pre.tab_ref(),
            h0.inv(),
            Heap::extends(self.heap_ref(), h0),
        ensures
            self.tab_ref().wf_in(self.heap_ref()),
            self.dict() == pre.dict(),
            self.heap_ref().inv() ==> self.heap_ref().marks_ok() && self.heap_ref().unmarked(),
    {
        assert forall|w: Seq<char>|
            self.tab_ref()@.dom().contains(w) implies self.heap_ref().valid(
            #[trigger] self.tab_ref()@[w],
        ) && self.heap_ref().leaves(self.tab_ref()@[w]) == h0.leaves(self.tab_ref()@[w]) by {
            lemma_extends_leaves(h0, self.heap_ref(), self.tab_ref()@[w]);
        }
        assert(self.dict() =~= pre.dict());
        if self.heap_ref().inv() {
            crate::heap::lemma_extends_gc_state(h0, self.heap_ref());
        }
    }

    /// Marks every binding, sweeps, and hands the output back. The
    /// dictionary's leaves survive: every binding was marked.
    fn collect(&mut self, dst: String) -> (r: Result<String, Error>)
        requires
            old(self).heap_ref().inv(),
            old(self).heap_ref().marks_ok(),
            old(self).heap_ref().unmarked(),
            old(self).tab_ref().sorted(),
            old(self).tab_ref().wf_in(old(self).heap_ref()),
            old(self).heap_ref().gen() + 1 <= u64::MAX,
        ensures
            final(self).wf(),
            final(self).tab_ref()@ == old(self).tab_ref()@,
            final(self).dict() == old(self).dict(),
            r matches Ok(out) && out == dst,
    {
        let n = self.tab.len();
        let mut idx: usize = 0;
        while idx < n
            invariant
                self.heap.inv(),
                self.heap.marks_ok(),
                self.tab == old(self).tab,
                self.tab.sorted(),
                self.tab.wf_in(self.heap),
                n == self.tab.entry_seq().len(),
                idx <= n,
                Heap::same_nodes(self.heap, old(self).heap_ref()),
                self.heap.gen() + 1 <= u64::MAX,
                forall|j: int|
                    0 <= j < idx ==> self.heap.marked(#[trigger] self.tab.entry_seq()[j].1),
            decreases n - idx,
        {
            let root = self.tab.value_at(idx);
            proof {
                crate::dict::lemma_entry_bound(self.tab, idx as int);
            }
            let ghost hpre = self.heap;
            match self.heap.mark(root) {
                Ok(()) => {},
                Err(_) => {
                    proof {
                        assert(false);
                    }
                    return Err(Error::Bug);
                },
            }
            proof {
                crate::heap::lemma_reach_self(hpre, root);
                assert forall|j: int|
                    0 <= j < idx + 1 implies self.heap.marked(
                    #[trigger] self.tab.entry_seq()[j].1,
                ) by {
                    crate::dict::lemma_entry_bound(self.tab, j);
                    let p = self.tab.entry_seq()[j].1;
                    assert(hpre.valid(p));
                    if j < idx as int {
                        assert(hpre.marked(p));
                    } else {
                        assert(p == root);
                        assert(hpre.reach(root).contains(root));
                    }
                }
                assert forall|w: Seq<char>|
                    self.tab@.dom().contains(w) implies self.heap.valid(
                    #[trigger] self.tab@[w],
                ) by {
                    assert(hpre.valid(self.tab@[w]));
                    crate::heap::lemma_same_leaves(hpre, self.heap, self.tab@[w]);
                }
            }
            idx = idx + 1;
        }
        let ghost hmid = self.heap;
        proof {
            assert forall|w: Seq<char>|
                self.tab@.dom().contains(w) implies self.heap.marked(
                #[trigger] self.tab@[w],
            ) by {
                crate::dict::lemma_value_indexed(self.tab, w);
            }
        }
        match self.heap.sweep() {
            Ok(()) => {},
            Err(_) => {
                proof {
                    assert(false);
                }
                return Err(Error::Bug);
            },
        }
        proof {
            assert forall|w: Seq<char>|
                self.tab@.dom().contains(w) implies self.heap.valid(#[trigger] self.tab@[w])
                && self.heap.leaves(self.tab@[w]) == hmid.leaves(self.tab@[w]) by {
                lemma_swept_leaves(hmid, self.heap, self.tab@[w]);
            }
            assert forall|w: Seq<char>|
                self.tab@.dom().contains(w) implies hmid.leaves(#[trigger] self.tab@[w]) == old(
                self,
            ).heap_ref().leaves(self.tab@[w]) by {
                crate::heap::lemma_same_leaves(old(self).heap_ref(), hmid, self.tab@[w]);
            }
            assert(self.dict() =~= old(self).dict());
        }
        Ok(dst)
    }
}


/// The rendering of a row of bindings, one `:name value` line per binding.
pub open spec fn render_bindings(h: Heap, s: Seq<(Seq<char>, Pointer)>) -> Seq<char>
    decreases s.len(),
{
    if s.len() == 0 {
        Seq::empty()
    } else {
        render_bindings(h, s.drop_last()) + seq![':'] + s.last().0 + seq![' '] + render_leaves(
            h.leaves(s.last().1),
        ) + seq!['\n']
    }
}

impl Pod {
    /// Renders every binding as a `:name value` line, in name order.
    pub fn to_string(&self) -> (r: Result<String, Error>)
        requires
            self.wf(),
        ensures
            r matches Ok(out) && out@ == render_bindings(
                self.heap_ref(),
                self.tab_ref().entry_seq(),
            ),
    {
        let mut target = String::new();
        let n = self.tab.len();
        let mut i: usize = 0;
        proof {
            assert(self.tab.entry_seq().take(0) =~= Seq::<(Seq<char>, Pointer)>::empty());
        }
        while i < n
            invariant
                self.wf(),
                n == self.tab.entry_seq().len(),
                i <= n,
                target@ == render_bindings(self.heap_ref(), self.tab.entry_seq().take(i as int)),
            decreases n - i,
        {
            let key = self.tab.key_at(i).clone();
            let value = self.tab.value_at(i);
            proof {
                crate::dict::lemma_entry_bound(self.tab, i as int);
            }
            target.append(":");
            target.append(key.as_str());
            target.append(" ");
            match self.heap.quote(value, &mut target) {
                Ok(()) => {},
                Err(_) => {
                    proof {
                        assert(false);
                    }
                    return Err(Error::Bug);
                },
            }
            target.append("\n");
            proof {
                reveal_strlit(":");
                reveal_strlit(" ");
                reveal_strlit("\n");
                assert(":"@ =~= seq![':']);
                assert(" "@ =~= seq![' ']);
                assert("\n"@ =~= seq!['\n']);
                let taken = self.tab.entry_seq().take(i as int + 1);
                assert(taken.drop_last() =~= self.tab.entry_seq().take(i as int));
                assert(taken.last() == self.tab.entry_seq()[i as int]);
                assert(target@ =~= render_bindings(self.heap_ref(), taken));
            }
            i = i + 1;
        }
        proof {
            assert(self.tab.entry_seq().take(n as int) =~= self.tab.entry_seq());
        }
        Ok(target)
    }
}

} // verus!
