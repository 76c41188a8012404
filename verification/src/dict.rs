//! The binding dictionary: a table from names to heap pointers, owned by the
//! session layer and read during symbol dispatch. Kept sorted by name with no
//! duplicate keys.

use vstd::prelude::*;

use crate::heap::{Heap, Pointer};
use crate::strutil::{lex_le, str_eq, str_le};

verus! {

/// A name-to-pointer binding table. Entries are kept in strictly increasing
/// key order.
pub struct Dict {
    entries: Vec<(String, Pointer)>,
}

impl Dict {
    /// The table as a map from names to pointers.
    pub closed spec fn view(self) -> Map<Seq<char>, Pointer> {
        Self::map_of(self.entries@)
    }

    /// The entries in key order, for rendering.
    pub closed spec fn entry_seq(self) -> Seq<(Seq<char>, Pointer)> {
        self.entries@.map_values(|e: (String, Pointer)| (e.0@, e.1))
    }

    spec fn map_of(s: Seq<(String, Pointer)>) -> Map<Seq<char>, Pointer>
        decreases s.len(),
    {
        if s.len() == 0 {
            Map::empty()
        } else {
            Self::map_of(s.drop_last()).insert(s.last().0@, s.last().1)
        }
    }

    /// Entries are strictly sorted by key.
    pub closed spec fn sorted(self) -> bool {
        forall|i: int, j: int|
            0 <= i < j < self.entries@.len() ==> lex_le(
                #[trigger] self.entries@[i].0@,
                #[trigger] self.entries@[j].0@,
            ) && self.entries@[i].0@ != self.entries@[j].0@
    }

    /// Every bound pointer is valid in `h`.
    pub open spec fn wf_in(self, h: Heap) -> bool {
        forall|w: Seq<char>| self@.dom().contains(w) ==> h.valid(#[trigger] self@[w])
    }

    proof fn lemma_map_of_keys(s: Seq<(String, Pointer)>)
        ensures
            forall|w: Seq<char>|
                #[trigger] Self::map_of(s).dom().contains(w) <==> exists|i: int|
                    0 <= i < s.len() && #[trigger] s[i].0@ == w,
            forall|i: int|
                0 <= i < s.len() ==> Self::map_of(s).dom().contains(#[trigger] s[i].0@),
        decreases s.len(),
    {
        if s.len() > 0 {
            Self::lemma_map_of_keys(s.drop_last());
            assert forall|i: int|
                0 <= i < s.len() implies Self::map_of(s).dom().contains(#[trigger] s[i].0@) by {
                if i < s.len() - 1 {
                    assert(s.drop_last()[i] == s[i]);
                }
            }
            assert forall|w: Seq<char>|
                #[trigger] Self::map_of(s).dom().contains(w) implies exists|i: int|
                0 <= i < s.len() && #[trigger] s[i].0@ == w by {
                if w == s.last().0@ {
                    assert(s[s.len() - 1].0@ == w);
                } else {
                    assert(Self::map_of(s.drop_last()).dom().contains(w));
                    let i = choose|i: int|
                        0 <= i < s.drop_last().len() && #[trigger] s.drop_last()[i].0@ == w;
                    assert(s.drop_last()[i] == s[i]);
                    assert(s[i].0@ == w);
                }
            }
        }
    }

    proof fn lemma_map_of_distinct(s: Seq<(String, Pointer)>, k: int)
        requires
            0 <= k < s.len(),
            forall|i: int, j: int|
                0 <= i < j < s.len() ==> #[trigger] s[i].0@ != #[trigger] s[j].0@,
        ensures
            Self::map_of(s).dom().contains(s[k].0@),
            Self::map_of(s)[s[k].0@] == s[k].1,
        decreases s.len(),
    {
        Self::lemma_map_of_keys(s);
        if k < s.len() - 1 {
            assert(s.drop_last()[k] == s[k]);
            Self::lemma_map_of_distinct(s.drop_last(), k);
            assert(s[s.len() - 1].0@ != s[k].0@);
        }
    }

    proof fn lemma_entries_map(self, j: int)
        requires
            self.sorted(),
            0 <= j < self.entries@.len(),
        ensures
            self@.dom().contains(self.entry_seq()[j].0),
            self@[self.entry_seq()[j].0] == self.entry_seq()[j].1,
    {
        Self::lemma_map_of_distinct(self.entries@, j);
        assert(self.entry_seq()[j].0 == self.entries@[j].0@);
        assert(self.entry_seq()[j].1 == self.entries@[j].1);
    }

    proof fn lemma_lookup(self, w: Seq<char>)
        requires
            self.sorted(),
            self@.dom().contains(w),
        ensures
            exists|j: int|
                0 <= j < self.entry_seq().len() && #[trigger] self.entry_seq()[j].0 == w
                    && self.entry_seq()[j].1 == self@[w],
    {
        Self::lemma_map_of_keys(self.entries@);
        let j = choose|j: int| 0 <= j < self.entries@.len() && #[trigger] self.entries@[j].0@ == w;
        Self::lemma_map_of_distinct(self.entries@, j);
        assert(self.entry_seq()[j].0 == w && self.entry_seq()[j].1 == self@[w]);
    }

    /// Creates an empty table.
    pub fn new() -> (d: Dict)
        ensures
            d@ == Map::<Seq<char>, Pointer>::empty(),
            d.sorted(),
            d.entry_seq().len() == 0,
    {
        Dict { entries: Vec::new() }
    }

    /// Looks a name up.
    pub fn get(&self, key: &str) -> (r: Option<Pointer>)
        requires
            self.sorted(),
        ensures
            match r {
                Some(p) => self@.dom().contains(key@) && self@[key@] == p,
                None => !self@.dom().contains(key@),
            },
    {
        proof {
            Self::lemma_map_of_keys(self.entries@);
        }
        let n = self.entries.len();
        let mut i: usize = 0;
        while i < n
            invariant
                self.sorted(),
                i <= n,
                n == self.entries@.len(),
                forall|j: int| 0 <= j < i ==> #[trigger] self.entries@[j].0@ != key@,
            decreases n - i,
        {
            if str_eq(self.entries[i].0.as_str(), key) {
                proof {
                    Self::lemma_map_of_distinct(self.entries@, i as int);
                }
                return Some(self.entries[i].1);
            }
            i = i + 1;
        }
        proof {
            if self@.dom().contains(key@) {
                let j = choose|j: int|
                    0 <= j < self.entries@.len() && #[trigger] self.entries@[j].0@ == key@;
                assert(false);
            }
        }
        None
    }

    /// Binds a name, replacing any previous binding.
    pub fn insert(&mut self, key: String, value: Pointer)
        requires
            old(self).sorted(),
        ensures
            final(self)@ == old(self)@.insert(key@, value),
            final(self).sorted(),
            forall|w: Seq<char>|
                final(self)@.dom().contains(w) ==> w == key@ || old(self)@.dom().contains(w),
    {
        let ghost pre = *self;
        let n = self.entries.len();
        let mut i: usize = 0;
        while i < n
            invariant
                *self == pre,
                pre == *old(self),
                self.sorted(),
                i <= n,
                n == self.entries@.len(),
                forall|j: int| 0 <= j < i ==> #[trigger] self.entries@[j].0@ != key@,
            decreases n - i,
        {
            let same = str_eq(self.entries[i].0.as_str(), key.as_str());
            if same {
                self.entries[i] = (key, value);
                proof {
                    assert(forall|j: int|
                        0 <= j < pre.entries@.len() && j != i as int ==> self.entries@[j]
                            == pre.entries@[j]);
                    assert(self.entries@[i as int].0@ == key@);
                    lemma_insert_at(pre.entries@, self.entries@, i as int, key@, value);
                }
                return ;
            }
            i = i + 1;
        }
        let mut k: usize = 0;
        while k < n
            invariant
                *self == pre,
                pre == *old(self),
                self.sorted(),
                k <= n,
                n == self.entries@.len(),
                forall|j: int| 0 <= j < n ==> #[trigger] self.entries@[j].0@ != key@,
                forall|j: int| 0 <= j < k ==> lex_le(#[trigger] self.entries@[j].0@, key@),
            decreases n - k,
        {
            let before = str_le(key.as_str(), self.entries[k].0.as_str());
            if before {
                proof {
                    assert forall|j: int|
                        k <= j < n implies lex_le(key@, #[trigger] pre.entries@[j].0@)
                        && pre.entries@[j].0@ != key@ by {
                        if j > k {
                            lemma_lex_trans(key@, pre.entries@[k as int].0@, pre.entries@[j].0@);
                        }
                    }
                }
                self.entries.insert(k, (key, value));
                proof {
                    lemma_insert_new(pre.entries@, self.entries@, k as int, key@, value);
                }
                return ;
            }
            proof {
                lemma_lex_total(key@, self.entries@[k as int].0@);
            }
            k = k + 1;
        }
        self.entries.push((key, value));
        proof {
            lemma_insert_new(pre.entries@, self.entries@, n as int, key@, value);
        }
    }

    /// Removes a binding, if present.
    pub fn remove(&mut self, key: &str)
        requires
            old(self).sorted(),
        ensures
            final(self)@ == old(self)@.remove(key@),
            final(self).sorted(),
            forall|w: Seq<char>|
                final(self)@.dom().contains(w) ==> old(self)@.dom().contains(w),
    {
        let ghost pre = *self;
        let n = self.entries.len();
        let mut i: usize = 0;
        while i < n
            invariant
                *self == pre,
                pre == *old(self),
                self.sorted(),
                i <= n,
                n == self.entries@.len(),
                forall|j: int| 0 <= j < i ==> #[trigger] self.entries@[j].0@ != key@,
            decreases n - i,
        {
            if str_eq(self.entries[i].0.as_str(), key) {
                self.entries.remove(i);
                proof {
                    lemma_remove_at(pre.entries@, self.entries@, i as int, key@);
                }
                return ;
            }
            i = i + 1;
        }
        proof {
            Self::lemma_map_of_keys(self.entries@);
            if self@.dom().contains(key@) {
                let j = choose|j: int|
                    0 <= j < self.entries@.len() && #[trigger] self.entries@[j].0@ == key@;
                assert(false);
            }
            assert(self@ =~= self@.remove(key@));
        }
    }

    /// The number of bindings.
    pub fn len(&self) -> (n: usize)
        ensures
            n == self.entry_seq().len(),
    {
        self.entries.len()
    }

    /// The name of the binding at a position, in key order.
    pub fn key_at(&self, i: usize) -> (k: &String)
        requires
            i < self.entry_seq().len(),
        ensures
            k@ == self.entry_seq()[i as int].0,
    {
        &self.entries[i].0
    }

    /// The pointer of the binding at a position, in key order.
    pub fn value_at(&self, i: usize) -> (p: Pointer)
        requires
            i < self.entry_seq().len(),
        ensures
            p == self.entry_seq()[i as int].1,
    {
        self.entries[i].1
    }
}

/// Each entry's key is bound to its value in the table's map.
pub proof fn lemma_entry_bound(d: Dict, j: int)
    requires
        d.sorted(),
        0 <= j < d.entry_seq().len(),
    ensures
        d@.dom().contains(d.entry_seq()[j].0),
        d@[d.entry_seq()[j].0] == d.entry_seq()[j].1,
{
    d.lemma_entries_map(j);
}

/// Every bound value stands at some entry position.
pub proof fn lemma_value_indexed(d: Dict, w: Seq<char>)
    requires
        d.sorted(),
        d@.dom().contains(w),
    ensures
        exists|j: int|
            0 <= j < d.entry_seq().len() && #[trigger] d.entry_seq()[j].0 == w
                && d.entry_seq()[j].1 == d@[w],
{
    d.lemma_lookup(w);
}

/// Lexicographic order is transitive.
proof fn lemma_lex_trans(x: Seq<char>, y: Seq<char>, z: Seq<char>)
    requires
        lex_le(x, y),
        lex_le(y, z),
    ensures
        lex_le(x, z),
    decreases x.len(),
{
    if x.len() > 0 && y.len() > 0 && z.len() > 0 {
        if !((x[0] as u32) < (z[0] as u32)) && !((z[0] as u32) < (x[0] as u32)) {
            if (x[0] as u32) == (y[0] as u32) && (y[0] as u32) == (z[0] as u32) {
                lemma_lex_trans(x.skip(1), y.skip(1), z.skip(1));
            }
        }
    }
}

/// Lexicographic order is total.
proof fn lemma_lex_total(x: Seq<char>, y: Seq<char>)
    ensures
        lex_le(x, y) || lex_le(y, x),
    decreases x.len(),
{
    if x.len() > 0 && y.len() > 0 && !((x[0] as u32) < (y[0] as u32)) && !((y[0] as u32) < (
    x[0] as u32)) {
        lemma_lex_total(x.skip(1), y.skip(1));
    }
}

proof fn lemma_insert_at(
    pre: Seq<(String, Pointer)>,
    post: Seq<(String, Pointer)>,
    i: int,
    key: Seq<char>,
    value: Pointer,
)
    requires
        0 <= i < pre.len(),
        pre[i].0@ == key,
        post.len() == pre.len(),
        post[i].0@ == key,
        post[i].1 == value,
        forall|j: int| 0 <= j < pre.len() && j != i ==> post[j] == pre[j],
        forall|a: int, b: int|
            0 <= a < b < pre.len() ==> lex_le(#[trigger] pre[a].0@, #[trigger] pre[b].0@)
                && pre[a].0@ != pre[b].0@,
    ensures
        Dict::map_of(post) == Dict::map_of(pre).insert(key, value),
        forall|a: int, b: int|
            0 <= a < b < post.len() ==> lex_le(#[trigger] post[a].0@, #[trigger] post[b].0@)
                && post[a].0@ != post[b].0@,
{
    assert(forall|a: int, b: int|
        0 <= a < b < post.len() ==> post[a].0@ == pre[a].0@ && post[b].0@ == pre[b].0@);
    Dict::lemma_map_of_keys(pre);
    Dict::lemma_map_of_keys(post);
    let mp = Dict::map_of(post);
    let mi = Dict::map_of(pre).insert(key, value);
    assert forall|w: Seq<char>| mp.dom().contains(w) implies mi.dom().contains(w) by {
        let j = choose|j: int| 0 <= j < post.len() && #[trigger] post[j].0@ == w;
        if j != i {
            assert(pre[j].0@ == w);
        }
    }
    assert forall|w: Seq<char>| mi.dom().contains(w) implies mp.dom().contains(w) by {
        if w != key {
            let j = choose|j: int| 0 <= j < pre.len() && #[trigger] pre[j].0@ == w;
            assert(post[j].0@ == w);
        }
    }
    assert forall|w: Seq<char>| mp.dom().contains(w) implies mp[w] == mi[w] by {
        let j = choose|j: int| 0 <= j < post.len() && #[trigger] post[j].0@ == w;
        assert(forall|a: int, b: int|
            0 <= a < b < post.len() ==> #[trigger] post[a].0@ != #[trigger] post[b].0@);
        Dict::lemma_map_of_distinct(post, j);
        if j == i {
            assert(mp[w] == value);
        } else {
            Dict::lemma_map_of_distinct(pre, j);
            assert(pre[j].0@ != key);
        }
    }
    assert(mp =~= mi);
}

proof fn lemma_insert_new(
    pre: Seq<(String, Pointer)>,
    post: Seq<(String, Pointer)>,
    i: int,
    key: Seq<char>,
    value: Pointer,
)
    requires
        0 <= i <= pre.len(),
        post.len() == pre.len() + 1,
        post[i].0@ == key,
        post[i].1 == value,
        forall|j: int| 0 <= j < i ==> post[j] == pre[j],
        forall|j: int| i <= j < pre.len() ==> post[j + 1] == pre[j],
        forall|j: int| 0 <= j < i ==> lex_le(#[trigger] pre[j].0@, key) && pre[j].0@ != key,
        forall|j: int| i <= j < pre.len() ==> lex_le(key, #[trigger] pre[j].0@) && pre[j].0@ != key,
        forall|a: int, b: int|
            0 <= a < b < pre.len() ==> lex_le(#[trigger] pre[a].0@, #[trigger] pre[b].0@)
                && pre[a].0@ != pre[b].0@,
    ensures
        Dict::map_of(post) == Dict::map_of(pre).insert(key, value),
        forall|a: int, b: int|
            0 <= a < b < post.len() ==> lex_le(#[trigger] post[a].0@, #[trigger] post[b].0@)
                && post[a].0@ != post[b].0@,
{
    assert forall|a: int, b: int|
        0 <= a < b < post.len() implies lex_le(#[trigger] post[a].0@, #[trigger] post[b].0@)
        && post[a].0@ != post[b].0@ by {
        if a < i && b < i {
            assert(post[a] == pre[a] && post[b] == pre[b]);
        } else if a < i && b == i {
            assert(post[a] == pre[a]);
        } else if a < i && b > i {
            assert(post[a] == pre[a] && post[b] == pre[b - 1]);
        } else if a == i && b > i {
            assert(post[b] == pre[b - 1]);
        } else if a > i && b > i {
            assert(post[a] == pre[a - 1] && post[b] == pre[b - 1]);
        }
    }
    Dict::lemma_map_of_keys(pre);
    Dict::lemma_map_of_keys(post);
    let mp = Dict::map_of(post);
    let mi = Dict::map_of(pre).insert(key, value);
    assert forall|w: Seq<char>| mp.dom().contains(w) implies mi.dom().contains(w) by {
        let j = choose|j: int| 0 <= j < post.len() && #[trigger] post[j].0@ == w;
        if j < i {
            assert(pre[j].0@ == w);
        } else if j > i {
            assert(pre[j - 1].0@ == w);
        }
    }
    assert forall|w: Seq<char>| mi.dom().contains(w) implies mp.dom().contains(w) by {
        if w != key {
            let j = choose|j: int| 0 <= j < pre.len() && #[trigger] pre[j].0@ == w;
            if j < i {
                assert(post[j].0@ == w);
            } else {
                assert(post[j + 1].0@ == w);
            }
        }
    }
    assert forall|w: Seq<char>| mp.dom().contains(w) implies mp[w] == mi[w] by {
        let j = choose|j: int| 0 <= j < post.len() && #[trigger] post[j].0@ == w;
        Dict::lemma_map_of_distinct(post, j);
        if j == i {
            assert(mp[w] == value);
        } else if j < i {
            Dict::lemma_map_of_distinct(pre, j);
            assert(pre[j].0@ != key);
        } else {
            Dict::lemma_map_of_distinct(pre, j - 1);
            assert(pre[j - 1].0@ != key);
        }
    }
    assert(mp =~= mi);
}

proof fn lemma_remove_at(
    pre: Seq<(String, Pointer)>,
    post: Seq<(String, Pointer)>,
    i: int,
    key: Seq<char>,
)
    requires
        0 <= i < pre.len(),
        pre[i].0@ == key,
        post.len() == pre.len() - 1,
        forall|j: int| 0 <= j < i ==> post[j] == pre[j],
        forall|j: int| i <= j < post.len() ==> post[j] == pre[j + 1],
        forall|a: int, b: int|
            0 <= a < b < pre.len() ==> lex_le(#[trigger] pre[a].0@, #[trigger] pre[b].0@)
                && pre[a].0@ != pre[b].0@,
    ensures
        Dict::map_of(post) == Dict::map_of(pre).remove(key),
        forall|a: int, b: int|
            0 <= a < b < post.len() ==> lex_le(#[trigger] post[a].0@, #[trigger] post[b].0@)
                && post[a].0@ != post[b].0@,
{
    assert forall|a: int, b: int|
        0 <= a < b < post.len() implies lex_le(#[trigger] post[a].0@, #[trigger] post[b].0@)
        && post[a].0@ != post[b].0@ by {
        if a < i && b < i {
        } else if a < i {
            assert(post[b] == pre[b + 1]);
        } else {
            assert(post[a] == pre[a + 1] && post[b] == pre[b + 1]);
        }
    }
    Dict::lemma_map_of_keys(pre);
    Dict::lemma_map_of_keys(post);
    let mp = Dict::map_of(post);
    let mr = Dict::map_of(pre).remove(key);
    assert forall|w: Seq<char>| mp.dom().contains(w) implies mr.dom().contains(w) by {
        let j = choose|j: int| 0 <= j < post.len() && #[trigger] post[j].0@ == w;
        if j < i {
            assert(pre[j].0@ == w);
            assert(pre[j].0@ != key);
        } else {
            assert(pre[j + 1].0@ == w);
            assert(pre[j + 1].0@ != key);
        }
    }
    assert forall|w: Seq<char>| mr.dom().contains(w) implies mp.dom().contains(w) by {
        let j = choose|j: int| 0 <= j < pre.len() && #[trigger] pre[j].0@ == w;
        assert(j != i);
        if j < i {
            assert(post[j].0@ == w);
        } else {
            assert(post[j - 1].0@ == w);
        }
    }
    assert forall|w: Seq<char>| mp.dom().contains(w) implies mp[w] == mr[w] by {
        let j = choose|j: int| 0 <= j < post.len() && #[trigger] post[j].0@ == w;
        Dict::lemma_map_of_distinct(post, j);
        if j < i {
            Dict::lemma_map_of_distinct(pre, j);
        } else {
            Dict::lemma_map_of_distinct(pre, j + 1);
        }
    }
    assert(mp =~= mr);
}

} // verus!
