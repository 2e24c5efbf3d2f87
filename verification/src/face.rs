//! Faces: finite sets of vertex labels, kept as strictly increasing vectors.

use crate::dict::{hm_get, LabelMap};
use vstd::prelude::*;

verus! {

/// The entries of `s` grow strictly from left to right.
pub open spec fn strictly_increasing(s: Seq<u32>) -> bool {
    forall|i: int, j: int| 0 <= i < j < s.len() ==> s[i] < s[j]
}

/// A strictly increasing sequence holds no value twice.
pub proof fn lemma_increasing_no_duplicates(s: Seq<u32>)
    requires
        strictly_increasing(s),
    ensures
        s.no_duplicates(),
        s.to_set().finite(),
        s.to_set().len() == s.len(),
{
    assert(s.no_duplicates()) by {
        assert forall|i: int, j: int| 0 <= i < s.len() && 0 <= j < s.len() && i != j implies s[i]
            != s[j] by {
            if i < j {
                assert(s[i] < s[j]);
            } else {
                assert(s[j] < s[i]);
            }
        }
    }
    s.unique_seq_to_set();
    vstd::seq_lib::seq_to_set_is_finite(s);
}

/// Two strictly increasing sequences with the same members are the same
/// sequence.
pub proof fn lemma_increasing_unique(a: Seq<u32>, b: Seq<u32>)
    requires
        strictly_increasing(a),
        strictly_increasing(b),
        a.to_set() == b.to_set(),
    ensures
        a == b,
    decreases a.len(),
{
    lemma_increasing_no_duplicates(a);
    lemma_increasing_no_duplicates(b);
    assert(a.len() == b.len());
    if a.len() > 0 {
        let n = a.len() - 1;
        // the last entries are the two maxima of one set
        assert(a.to_set().contains(a[n]));
        assert(b.contains(a[n]));
        assert(b.to_set().contains(b[n]));
        assert(a.contains(b[n]));
        let ia = choose|i: int| 0 <= i < a.len() && a[i] == b[n];
        let ib = choose|i: int| 0 <= i < b.len() && b[i] == a[n];
        assert(a[ia] <= a[n]) by {
            if ia < n {
                assert(a[ia] < a[n]);
            }
        }
        assert(b[ib] <= b[n]) by {
            if ib < n {
                assert(b[ib] < b[n]);
            }
        }
        assert(a[n] == b[n]);
        let a0 = a.drop_last();
        let b0 = b.drop_last();
        assert(strictly_increasing(a0));
        assert(strictly_increasing(b0));
        assert(a0.to_set() =~= b0.to_set()) by {
            assert forall|x: u32| a0.to_set().contains(x) == b0.to_set().contains(x) by {
                if a0.contains(x) {
                    let i = choose|i: int| 0 <= i < a0.len() && a0[i] == x;
                    assert(a[i] == x);
                    assert(a[i] < a[n]);
                    assert(a.to_set().contains(x));
                    assert(b.contains(x));
                    let j = choose|j: int| 0 <= j < b.len() && b[j] == x;
                    assert(j != n);
                    assert(b0[j] == x);
                }
                if b0.contains(x) {
                    let i = choose|i: int| 0 <= i < b0.len() && b0[i] == x;
                    assert(b[i] == x);
                    assert(b[i] < b[n]);
                    assert(b.to_set().contains(x));
                    assert(a.contains(x));
                    let j = choose|j: int| 0 <= j < a.len() && a[j] == x;
                    assert(j != n);
                    assert(a0[j] == x);
                }
            }
        }
        lemma_increasing_unique(a0, b0);
        assert(a =~= a0.push(a[n]));
        assert(b =~= b0.push(b[n]));
    } else {
        assert(a =~= b);
    }
}

/// A strictly increasing sequence of numbers below `m` has at most `m`
/// entries.
pub proof fn lemma_increasing_bounded(s: Seq<u32>, m: int)
    requires
        0 <= m,
        strictly_increasing(s),
        forall|i: int| 0 <= i < s.len() ==> s[i] < m,
    ensures
        s.len() <= m,
    decreases s.len(),
{
    if s.len() > 0 {
        let t = s.drop_last();
        assert(s[s.len() - 1] < m);
        assert forall|i: int| 0 <= i < t.len() implies t[i] < m - 1 by {
            assert(s[i] < s[s.len() - 1]);
        }
        assert(strictly_increasing(t));
        lemma_increasing_bounded(t, m - 1);
    }
}

/// Putting `v` at its place into a strictly increasing sequence keeps the
/// order and adds `v` to the members.
pub proof fn lemma_insert_at(s: Seq<u32>, i: int, v: u32)
    requires
        strictly_increasing(s),
        0 <= i <= s.len(),
        forall|k: int| 0 <= k < i ==> s[k] < v,
        forall|k: int| i <= k < s.len() ==> v < s[k],
    ensures
        strictly_increasing(s.insert(i, v)),
        s.insert(i, v).to_set() == s.to_set().insert(v),
{
    let t = s.insert(i, v);
    assert forall|a: int, b: int| 0 <= a < b < t.len() implies t[a] < t[b] by {
        if a < i {
            assert(t[a] == s[a]);
        } else if a > i {
            assert(t[a] == s[a - 1]);
        }
        if b < i {
            assert(t[b] == s[b]);
        } else if b > i {
            assert(t[b] == s[b - 1]);
        }
    }
    assert forall|x: u32| t.to_set().contains(x) == s.to_set().insert(v).contains(x) by {
        if t.contains(x) {
            let k = choose|k: int| 0 <= k < t.len() && t[k] == x;
            if k < i {
                assert(s[k] == x);
            } else if k > i {
                assert(s[k - 1] == x);
            }
        }
        if s.contains(x) {
            let k = choose|k: int| 0 <= k < s.len() && s[k] == x;
            if k < i {
                assert(t[k] == x);
            } else {
                assert(t[k + 1] == x);
            }
        }
        if x == v {
            assert(t[i] == x);
        }
    }
    assert(t.to_set() =~= s.to_set().insert(v));
}

/// Taking the entry at `i` out of a strictly increasing sequence keeps the
/// order and takes that entry out of the members.
pub proof fn lemma_remove_at(s: Seq<u32>, i: int)
    requires
        strictly_increasing(s),
        0 <= i < s.len(),
    ensures
        strictly_increasing(s.remove(i)),
        s.remove(i).to_set() == s.to_set().remove(s[i]),
{
    let t = s.remove(i);
    assert forall|a: int, b: int| 0 <= a < b < t.len() implies t[a] < t[b] by {
        let a1 = if a < i { a } else { a + 1 };
        let b1 = if b < i { b } else { b + 1 };
        assert(t[a] == s[a1]);
        assert(t[b] == s[b1]);
    }
    assert forall|x: u32| t.to_set().contains(x) == s.to_set().remove(s[i]).contains(x) by {
        if t.contains(x) {
            let k = choose|k: int| 0 <= k < t.len() && t[k] == x;
            let k1 = if k < i { k } else { k + 1 };
            assert(s[k1] == x);
            if k1 < i {
                assert(s[k1] < s[i]);
            } else {
                assert(s[i] < s[k1]);
            }
        }
        if s.contains(x) && x != s[i] {
            let k = choose|k: int| 0 <= k < s.len() && s[k] == x;
            if k < i {
                assert(t[k] == x);
            } else {
                assert(t[k - 1] == x);
            }
        }
    }
    assert(t.to_set() =~= s.to_set().remove(s[i]));
}

/// A face of a simplicial complex: a finite set of vertex labels.
///
/// The labels are held in increasing order, so that two faces with the same
/// vertices are the same value, whatever the order in which they were built.
#[derive(Debug, Hash)]
pub struct Face {
    vertices: Vec<u32>,
}

impl View for Face {
    type V = Seq<u32>;

    /// The vertices in increasing order.
    closed spec fn view(&self) -> Seq<u32> {
        self.vertices@
    }
}

impl Clone for Face {
    fn clone(&self) -> (r: Self)
        ensures
            r@ == self@,
    {
        let r = Face { vertices: self.vertices.clone() };
        assert(r.vertices@ =~= self.vertices@);
        r
    }
}

impl Default for Face {
    fn default() -> (r: Self)
        ensures
            r.wf(),
            r@ == Seq::<u32>::empty(),
    {
        Face { vertices: Vec::new() }
    }
}

impl Face {
    /// The invariant of a face: its vertices are listed in strictly
    /// increasing order.
    pub open spec fn wf(&self) -> bool {
        strictly_increasing(self@)
    }

    /// The vertices as a set.
    pub open spec fn set(&self) -> Set<u32> {
        self@.to_set()
    }

    /// The face without vertices.
    pub fn new() -> (r: Self)
        ensures
            r.wf(),
            r@ == Seq::<u32>::empty(),
    {
        Face { vertices: Vec::new() }
    }

    /// The face whose vertices are listed in `vertices`, in increasing order.
    pub fn from_sorted(vertices: Vec<u32>) -> (r: Self)
        requires
            strictly_increasing(vertices@),
        ensures
            r.wf(),
            r@ == vertices@,
    {
        Face { vertices }
    }

    /// The first index whose vertex is not below `v`.
    fn lower_bound(&self, v: u32) -> (i: usize)
        requires
            self.wf(),
        ensures
            i <= self@.len(),
            forall|k: int| 0 <= k < i ==> self@[k] < v,
            forall|k: int| i <= k < self@.len() ==> v <= self@[k],
    {
        let mut lo: usize = 0;
        let mut hi: usize = self.vertices.len();
        while lo < hi
            invariant
                self.wf(),
                lo <= hi <= self.vertices@.len(),
                forall|k: int| 0 <= k < lo ==> self.vertices@[k] < v,
                forall|k: int| hi <= k < self.vertices@.len() ==> v <= self.vertices@[k],
            decreases hi - lo,
        {
            let mid: usize = lo + (hi - lo) / 2;
            if self.vertices[mid] < v {
                lo = mid + 1;
            } else {
                hi = mid;
            }
        }
        lo
    }

    /// The number of vertices.
    pub fn len(&self) -> (n: usize)
        ensures
            n == self@.len(),
    {
        self.vertices.len()
    }

    /// Whether the face has no vertex.
    pub fn is_empty(&self) -> (r: bool)
        ensures
            r == (self@.len() == 0),
    {
        self.vertices.len() == 0
    }

    /// Whether `item` is a vertex of the face.
    pub fn contains(&self, item: u32) -> (r: bool)
        requires
            self.wf(),
        ensures
            r == self@.contains(item),
    {
        let i = self.lower_bound(item);
        if i < self.vertices.len() && self.vertices[i] == item {
            true
        } else {
            proof {
                if self@.contains(item) {
                    let k = choose|k: int| 0 <= k < self@.len() && self@[k] == item;
                    if k > i {
                        assert(self@[i as int] < self@[k]);
                    }
                }
            }
            false
        }
    }

    /// Adds `item` to the face. Returns whether it was new.
    pub fn insert(&mut self, item: u32) -> (r: bool)
        requires
            old(self).wf(),
        ensures
            final(self).wf(),
            final(self).set() == old(self).set().insert(item),
            r == !old(self)@.contains(item),
    {
        let i = self.lower_bound(item);
        if i < self.vertices.len() && self.vertices[i] == item {
            proof {
                assert(self@.to_set().contains(item));
                assert(self@.to_set().insert(item) =~= self@.to_set());
            }
            false
        } else {
            proof {
                if self@.contains(item) {
                    let k = choose|k: int| 0 <= k < self@.len() && self@[k] == item;
                    if k > i {
                        assert(self@[i as int] < self@[k]);
                    }
                }
                assert forall|k: int| i <= k < self@.len() implies item < self@[k] by {
                    if k > i {
                        assert(self@[i as int] < self@[k]);
                    }
                }
                lemma_insert_at(self@, i as int, item);
            }
            self.vertices.insert(i, item);
            true
        }
    }

    /// Takes `item` out of the face. Returns whether it was there.
    pub fn remove(&mut self, item: u32) -> (r: bool)
        requires
            old(self).wf(),
        ensures
            final(self).wf(),
            final(self).set() == old(self).set().remove(item),
            r == old(self)@.contains(item),
    {
        let i = self.lower_bound(item);
        if i < self.vertices.len() && self.vertices[i] == item {
            proof {
                lemma_remove_at(self@, i as int);
            }
            self.vertices.remove(i);
            true
        } else {
            proof {
                if self@.contains(item) {
                    let k = choose|k: int| 0 <= k < self@.len() && self@[k] == item;
                    if k > i {
                        assert(self@[i as int] < self@[k]);
                    }
                }
                assert(self@.to_set().remove(item) =~= self@.to_set());
            }
            false
        }
    }

    /// The vertices in increasing order.
    pub fn to_vec(&self) -> (v: Vec<u32>)
        ensures
            v@ == self@,
    {
        let v = self.vertices.clone();
        assert(v@ =~= self.vertices@);
        v
    }

    /// The canonical tuple of the face: its vertices in increasing order.
    /// Faces with the same vertices have the same tuple.
    pub fn tuple(&self) -> (v: Vec<u32>)
        ensures
            v@ == self@,
    {
        self.to_vec()
    }

    /// An iterator over the vertices in increasing order.
    pub fn iter(&self) -> (it: std::slice::Iter<'_, u32>)
        ensures
            vstd::std_specs::slice::into_iter_elts(it) == self@,
    {
        let it = self.vertices.iter();
        proof {
            broadcast use vstd::std_specs::slice::axiom_spec_slice_iter;

            assert(vstd::std_specs::slice::into_iter_elts(it) =~= self.vertices@);
        }
        it
    }

    /// The face of the vertices that stand in `items` from the place `lo`
    /// up to the place `hi`.
    fn from_range(items: &Vec<u32>, lo: usize, hi: usize) -> (r: Self)
        requires
            lo <= hi <= items@.len(),
        ensures
            r.wf(),
            r.set() == items@.subrange(lo as int, hi as int).to_set(),
        decreases hi - lo,
    {
        if hi - lo == 0 {
            let r = Face::new();
            assert(r.set() =~= items@.subrange(lo as int, hi as int).to_set());
            r
        } else if hi - lo == 1 {
            let r = Face::singleton(items[lo]);
            assert(r@ =~= items@.subrange(lo as int, hi as int));
            r
        } else {
            let mid = lo + (hi - lo) / 2;
            let left = Face::from_range(items, lo, mid);
            let right = Face::from_range(items, mid, hi);
            proof {
                let a = items@.subrange(lo as int, mid as int);
                let b = items@.subrange(mid as int, hi as int);
                assert(items@.subrange(lo as int, hi as int) =~= a + b);
                vstd::seq_lib::seq_to_set_distributes_over_add(a, b);
            }
            left.union(&right)
        }
    }

    /// The face with the vertices that `items` lists, in any order and with
    /// repetitions.
    pub fn from_vec(items: Vec<u32>) -> (r: Self)
        ensures
            r.wf(),
            r.set() == items@.to_set(),
    {
        let r = Face::from_range(&items, 0, items.len());
        assert(items@.subrange(0, items@.len() as int) =~= items@);
        r
    }

    /// The face whose only vertex is `v`.
    pub fn singleton(v: u32) -> (r: Self)
        ensures
            r.wf(),
            r@ == seq![v],
    {
        let mut vertices: Vec<u32> = Vec::new();
        vertices.push(v);
        let r = Face { vertices };
        assert(r@ =~= seq![v]);
        r
    }

    /// Returns capacity that is not needed; the face stays as it is.
    pub fn shrink_to_fit(&mut self)
        ensures
            final(self)@ == old(self)@,
    {
        vec_shrink_to_fit(&mut self.vertices);
    }

    /// Whether the two faces share no vertex.
    pub fn is_disjoint(&self, other: &Face) -> (r: bool)
        requires
            self.wf(),
            other.wf(),
        ensures
            r == self.set().disjoint(other.set()),
    {
        let mut i: usize = 0;
        while i < self.vertices.len()
            invariant
                self.wf(),
                other.wf(),
                i <= self@.len(),
                forall|m: int| 0 <= m < i ==> !other@.contains(#[trigger] self@[m]),
            decreases self@.len() - i,
        {
            if other.contains(self.vertices[i]) {
                proof {
                    let x = self@[i as int];
                    assert(self@.contains(x));
                    assert(self.set().contains(x) && other.set().contains(x));
                }
                return false;
            }
            i += 1;
        }
        proof {
            assert forall|x: u32| !(self.set().contains(x) && other.set().contains(x)) by {
                if self@.contains(x) {
                    let m = choose|m: int| 0 <= m < self@.len() && self@[m] == x;
                    assert(!other@.contains(self@[m]));
                }
            }
        }
        true
    }

    /// Whether every vertex of this face is a vertex of `other`.
    pub fn leq(&self, other: &Self) -> (r: bool)
        requires
            self.wf(),
            other.wf(),
        ensures
            r == self.set().subset_of(other.set()),
    {
        if self.vertices.len() > other.vertices.len() {
            proof {
                lemma_increasing_no_duplicates(self@);
                lemma_increasing_no_duplicates(other@);
                if self.set().subset_of(other.set()) {
                    vstd::set_lib::lemma_len_subset(self.set(), other.set());
                }
            }
            return false;
        }
        let mut i: usize = 0;
        while i < self.vertices.len()
            invariant
                self.wf(),
                other.wf(),
                i <= self@.len(),
                forall|m: int| 0 <= m < i ==> other@.contains(#[trigger] self@[m]),
            decreases self@.len() - i,
        {
            if !other.contains(self.vertices[i]) {
                proof {
                    let x = self@[i as int];
                    assert(self@.contains(x));
                    assert(self.set().contains(x) && !other.set().contains(x));
                }
                return false;
            }
            i += 1;
        }
        proof {
            assert forall|x: u32| self.set().contains(x) implies other.set().contains(x) by {
                let m = choose|m: int| 0 <= m < self@.len() && self@[m] == x;
                assert(other@.contains(self@[m]));
            }
        }
        true
    }

    /// The vertices that both faces have.
    pub fn intersection(&self, other: &Self) -> (r: Self)
        requires
            self.wf(),
            other.wf(),
        ensures
            r.wf(),
            r.set() == self.set().intersect(other.set()),
    {
        let mut out: Vec<u32> = Vec::new();
        let mut i: usize = 0;
        assert(out@.to_set() =~= self@.take(0).to_set().intersect(other.set()));
        while i < self.vertices.len()
            invariant
                self.wf(),
                other.wf(),
                i <= self@.len(),
                strictly_increasing(out@),
                forall|k: int, m: int| 0 <= k < out@.len() && i <= m < self@.len() ==> out@[k] < self@[m],
                out@.to_set() == self@.take(i as int).to_set().intersect(other.set()),
            decreases self@.len() - i,
        {
            let x = self.vertices[i];
            proof {
                assert(self@.take(i + 1) =~= self@.take(i as int).push(x));
                self@.take(i as int).lemma_push_to_set_commute(x);
            }
            if other.contains(x) {
                proof {
                    out@.lemma_push_to_set_commute(x);
                    assert(out@.push(x).to_set() =~= self@.take(i + 1).to_set().intersect(
                        other.set(),
                    ));
                }
                out.push(x);
            } else {
                assert(out@.to_set() =~= self@.take(i + 1).to_set().intersect(other.set()));
            }
            i += 1;
        }
        assert(self@.take(i as int) =~= self@);
        Face { vertices: out }
    }

    /// The common vertices of the two faces, or `None` where they share none.
    pub fn maybe_intersection(&self, other: &Self) -> (r: Option<Self>)
        requires
            self.wf(),
            other.wf(),
        ensures
            r is None <==> self.set().disjoint(other.set()),
            r matches Some(f) ==> f.wf() && f.set() == self.set().intersect(other.set()),
    {
        let res = self.intersection(other);
        proof {
            lemma_increasing_no_duplicates(res@);
            if res@.len() == 0 {
                assert(res.set() =~= Set::<u32>::empty());
                assert forall|x: u32| !(self.set().contains(x) && other.set().contains(x)) by {
                    assert(!res.set().contains(x));
                }
            } else {
                assert(res.set().contains(res@[0]));
            }
        }
        if res.is_empty() {
            None
        } else {
            Some(res)
        }
    }

    /// The vertices that either face has.
    pub fn union(&self, other: &Self) -> (r: Self)
        requires
            self.wf(),
            other.wf(),
        ensures
            r.wf(),
            r.set() == self.set().union(other.set()),
    {
        let n = self.vertices.len();
        let m = other.vertices.len();
        let mut out: Vec<u32> = Vec::new();
        let mut i: usize = 0;
        let mut j: usize = 0;
        assert(out@.to_set() =~= self@.take(0).to_set().union(other@.take(0).to_set()));
        while i < n || j < m
            invariant
                self.wf(),
                other.wf(),
                n == self@.len(),
                m == other@.len(),
                i <= n,
                j <= m,
                strictly_increasing(out@),
                forall|k: int, t: int| 0 <= k < out@.len() && i <= t < n ==> out@[k] < self@[t],
                forall|k: int, t: int| 0 <= k < out@.len() && j <= t < m ==> out@[k] < other@[t],
                out@.to_set() == self@.take(i as int).to_set().union(other@.take(j as int).to_set()),
            decreases (n - i) + (m - j),
        {
            let take_left = i < n && (j >= m || self.vertices[i] <= other.vertices[j]);
            let take_right = j < m && (i >= n || other.vertices[j] <= self.vertices[i]);
            let x = if take_left {
                self.vertices[i]
            } else {
                other.vertices[j]
            };
            proof {
                if take_left {
                    assert(self@.take(i + 1) =~= self@.take(i as int).push(x));
                    self@.take(i as int).lemma_push_to_set_commute(x);
                }
                if take_right {
                    assert(other@.take(j + 1) =~= other@.take(j as int).push(x));
                    other@.take(j as int).lemma_push_to_set_commute(x);
                }
                out@.lemma_push_to_set_commute(x);
                let i1 = if take_left { i + 1 } else { i as int };
                let j1 = if take_right { j + 1 } else { j as int };
                assert(out@.push(x).to_set() =~= self@.take(i1).to_set().union(
                    other@.take(j1).to_set(),
                ));
                assert forall|k: int, t: int|
                    0 <= k < out@.push(x).len() && i1 <= t < n implies out@.push(x)[k]
                    < self@[t] by {
                    if k == out@.len() {
                        if take_left {
                            assert(self@[i as int] < self@[t]);
                        } else {
                            assert(self@[i as int] <= self@[t]) by {
                                if i < t {
                                    assert(self@[i as int] < self@[t]);
                                }
                            }
                        }
                    }
                }
                assert forall|k: int, t: int|
                    0 <= k < out@.push(x).len() && j1 <= t < m implies out@.push(x)[k]
                    < other@[t] by {
                    if k == out@.len() {
                        if take_right {
                            assert(other@[j as int] < other@[t]);
                        } else {
                            assert(other@[j as int] <= other@[t]) by {
                                if j < t {
                                    assert(other@[j as int] < other@[t]);
                                }
                            }
                        }
                    }
                }
            }
            out.push(x);
            if take_left {
                i += 1;
            }
            if take_right {
                j += 1;
            }
        }
        assert(self@.take(i as int) =~= self@);
        assert(other@.take(j as int) =~= other@);
        Face { vertices: out }
    }

    /// The vertices of this face that `other` lacks.
    pub fn difference(&self, other: &Self) -> (r: Self)
        requires
            self.wf(),
            other.wf(),
        ensures
            r.wf(),
            r.set() == self.set().difference(other.set()),
    {
        let mut out: Vec<u32> = Vec::new();
        let mut i: usize = 0;
        assert(out@.to_set() =~= self@.take(0).to_set().difference(other.set()));
        while i < self.vertices.len()
            invariant
                self.wf(),
                other.wf(),
                i <= self@.len(),
                strictly_increasing(out@),
                forall|k: int, m: int| 0 <= k < out@.len() && i <= m < self@.len() ==> out@[k] < self@[m],
                out@.to_set() == self@.take(i as int).to_set().difference(other.set()),
            decreases self@.len() - i,
        {
            let x = self.vertices[i];
            proof {
                assert(self@.take(i + 1) =~= self@.take(i as int).push(x));
                self@.take(i as int).lemma_push_to_set_commute(x);
            }
            if !other.contains(x) {
                proof {
                    out@.lemma_push_to_set_commute(x);
                    assert(out@.push(x).to_set() =~= self@.take(i + 1).to_set().difference(
                        other.set(),
                    ));
                }
                out.push(x);
            } else {
                assert(out@.to_set() =~= self@.take(i + 1).to_set().difference(other.set()));
            }
            i += 1;
        }
        assert(self@.take(i as int) =~= self@);
        Face { vertices: out }
    }

    /// Keeps the vertices that `other` has, or those that it lacks, and
    /// drops the others, without taking new room.
    fn retain_by(&mut self, other: &Self, common: bool)
        requires
            old(self).wf(),
            other.wf(),
        ensures
            final(self).wf(),
            final(self).set() == (if common {
                old(self).set().intersect(other.set())
            } else {
                old(self).set().difference(other.set())
            }),
    {
        let ghost given = self@;
        let ghost goal = |part: Set<u32>|
            if common {
                part.intersect(other.set())
            } else {
                part.difference(other.set())
            };
        let n = self.vertices.len();
        let mut w: usize = 0;
        let mut i: usize = 0;
        assert(self.vertices@.take(0).to_set() =~= goal(given.take(0).to_set()));
        while i < n
            invariant
                other.wf(),
                strictly_increasing(given),
                n == given.len(),
                self.vertices@.len() == n,
                w <= i <= n,
                goal == |part: Set<u32>|
                    if common {
                        part.intersect(other.set())
                    } else {
                        part.difference(other.set())
                    },
                forall|k: int| i <= k < n ==> self.vertices@[k] == given[k],
                strictly_increasing(self.vertices@.take(w as int)),
                forall|k: int, t: int|
                    0 <= k < w && i <= t < n ==> #[trigger] self.vertices@[k] < #[trigger] given[t],
                self.vertices@.take(w as int).to_set() == goal(given.take(i as int).to_set()),
            decreases n - i,
        {
            let x = self.vertices[i];
            let ghost before = self.vertices@;
            let keep = other.contains(x) == common;
            proof {
                assert(given.take(i + 1) =~= given.take(i as int).push(x));
                given.take(i as int).lemma_push_to_set_commute(x);
            }
            if keep {
                self.vertices.set(w, x);
                proof {
                    let after = self.vertices@;
                    assert(after.take(w + 1) =~= before.take(w as int).push(x));
                    before.take(w as int).lemma_push_to_set_commute(x);
                    assert(after.take(w + 1).to_set() =~= goal(given.take(i + 1).to_set()));
                    let front = after.take(w + 1);
                    assert forall|a: int, b: int| 0 <= a < b < front.len() implies #[trigger] front[a]
                        < #[trigger] front[b] by {
                        if b < w {
                            assert(before.take(w as int)[a] < before.take(w as int)[b]);
                        } else {
                            assert(before[a] < given[i as int]);
                        }
                    }
                    assert forall|k: int, t: int| 0 <= k < w + 1 && i + 1 <= t < n implies #[trigger] after[k]
                        < #[trigger] given[t] by {
                        if k < w {
                            assert(before[k] < given[t]);
                        } else {
                            assert(given[i as int] < given[t]);
                        }
                    }
                }
                w += 1;
            } else {
                assert(before.take(w as int).to_set() =~= goal(given.take(i + 1).to_set()));
            }
            i += 1;
        }
        proof {
            assert(given.take(n as int) =~= given);
            assert(self.vertices@.subrange(0, w as int) =~= self.vertices@.take(w as int));
        }
        self.vertices.truncate(w);
    }

    /// Keeps the vertices that `other` has too: the intersection, in place.
    pub fn intersect_with(&mut self, other: &Self)
        requires
            old(self).wf(),
            other.wf(),
        ensures
            final(self).wf(),
            final(self).set() == old(self).set().intersect(other.set()),
    {
        self.retain_by(other, true);
    }

    /// Drops the vertices that `other` has: the difference, in place.
    pub fn subtract(&mut self, other: &Self)
        requires
            old(self).wf(),
            other.wf(),
        ensures
            final(self).wf(),
            final(self).set() == old(self).set().difference(other.set()),
    {
        self.retain_by(other, false);
    }

    /// Takes in the vertices of `other`: the union, in place.
    pub fn unite_with(&mut self, other: &Self)
        requires
            old(self).wf(),
            other.wf(),
        ensures
            final(self).wf(),
            final(self).set() == old(self).set().union(other.set()),
    {
        let both = self.union(other);
        *self = both;
    }

    /// Replaces every vertex by the label that `dict` gives it.
    pub fn replace_verts_from_map(&mut self, dict: &LabelMap)
        requires
            old(self).wf(),
            forall|v: u32| old(self)@.contains(v) ==> dict@.contains_key(v),
        ensures
            final(self).wf(),
            final(self).set() == old(self)@.map_values(|v: u32| dict@[v]).to_set(),
    {
        let ghost f = |v: u32| dict@[v];
        let mut out = Face::new();
        let mut i: usize = 0;
        assert(out.set() =~= self@.take(0).map_values(f).to_set());
        while i < self.vertices.len()
            invariant
                self.wf(),
                i <= self@.len(),
                out.wf(),
                f == |v: u32| dict@[v],
                forall|v: u32| self@.contains(v) ==> dict@.contains_key(v),
                out.set() == self@.take(i as int).map_values(f).to_set(),
            decreases self@.len() - i,
        {
            let x = self.vertices[i];
            assert(self@.contains(x));
            let y = hm_get(dict, x).unwrap();
            proof {
                assert(y == f(x));
                assert(self@.take(i + 1).map_values(f) =~= self@.take(i as int).map_values(f).push(
                    y,
                ));
                self@.take(i as int).map_values(f).lemma_push_to_set_commute(y);
            }
            out.insert(y);
            i += 1;
        }
        assert(self@.take(i as int) =~= self@);
        *self = out;
    }

    /// The face without the vertex `v`.
    pub fn vertex_removed(&self, v: u32) -> (r: Self)
        requires
            self.wf(),
        ensures
            r.wf(),
            r.set() == self.set().remove(v),
    {
        let mut res = self.clone();
        res.remove(v);
        res
    }

    /// The face with the vertex `v` added.
    pub fn vertex_inserted(&self, v: u32) -> (r: Self)
        requires
            self.wf(),
        ensures
            r.wf(),
            r.set() == self.set().insert(v),
    {
        let mut res = self.clone();
        res.insert(v);
        res
    }

    /// Whether every vertex of this face is a vertex of `other`, found by
    /// looking through `other` for each one. Unlike [`Self::leq`] this asks
    /// nothing of the two faces.
    pub fn within(&self, other: &Self) -> (r: bool)
        ensures
            r == self.set().subset_of(other.set()),
    {
        let mut i: usize = 0;
        while i < self.vertices.len()
            invariant
                i <= self@.len(),
                forall|m: int| 0 <= m < i ==> other@.contains(#[trigger] self@[m]),
            decreases self@.len() - i,
        {
            let x = self.vertices[i];
            let mut j: usize = 0;
            let mut found = false;
            while j < other.vertices.len() && !found
                invariant
                    j <= other@.len(),
                    found ==> other@.contains(x),
                    !found ==> forall|m: int| 0 <= m < j ==> other@[m] != x,
                decreases other@.len() - j + (if found { 0int } else { 1int }),
            {
                if other.vertices[j] == x {
                    found = true;
                } else {
                    j += 1;
                }
            }
            if !found {
                proof {
                    assert(self@.contains(x));
                    assert(!other@.contains(x));
                    assert(self.set().contains(x) && !other.set().contains(x));
                }
                return false;
            }
            i += 1;
        }
        proof {
            assert forall|x: u32| self.set().contains(x) implies other.set().contains(x) by {
                let m = choose|m: int| 0 <= m < self@.len() && self@[m] == x;
                assert(other@.contains(self@[m]));
            }
        }
        true
    }

    /// The vertex at place `i` of the increasing order.
    pub fn get(&self, i: usize) -> (v: u32)
        requires
            i < self@.len(),
        ensures
            v == self@[i as int],
    {
        self.vertices[i]
    }
}

/// `Vec::shrink_to_fit` of the standard library: it gives back capacity that
/// is not in use and leaves the elements and their order as they are.
#[verifier::external_body]
pub(crate) fn vec_shrink_to_fit<T>(v: &mut Vec<T>)
    ensures
        final(v)@ == old(v)@,
{
    v.shrink_to_fit();
}

impl PartialEq for Face {
    fn eq(&self, other: &Self) -> (r: bool) {
        if self.vertices.len() != other.vertices.len() {
            return false;
        }
        let mut i: usize = 0;
        while i < self.vertices.len()
            invariant
                self@.len() == other@.len(),
                i <= self@.len(),
                forall|m: int| 0 <= m < i ==> self@[m] == other@[m],
            decreases self@.len() - i,
        {
            if self.vertices[i] != other.vertices[i] {
                return false;
            }
            i += 1;
        }
        assert(self@ =~= other@);
        true
    }
}

impl Eq for Face {

}

impl vstd::std_specs::cmp::PartialEqSpecImpl for Face {
    open spec fn obeys_eq_spec() -> bool {
        true
    }

    open spec fn eq_spec(&self, other: &Face) -> bool {
        self@ == other@
    }
}

/// Faces with the same vertices are the same face: they have the same tuple,
/// so they compare equal and hash alike, in whatever order the vertices were
/// given.
pub proof fn lemma_face_determined_by_set(f: Face, g: Face)
    requires
        f.wf(),
        g.wf(),
        f.set() == g.set(),
    ensures
        f@ == g@,
{
    lemma_increasing_unique(f@, g@);
}

/// A face built from the vertices of the face `f` in another order is `f`:
/// the two have the same tuple, which is what equality compares and what
/// the hash is taken of.
pub proof fn lemma_face_from_permutation(f: Face, items: Seq<u32>, g: Face)
    requires
        f.wf(),
        g.wf(),
        items.to_multiset() == f@.to_multiset(),
        g.set() == items.to_set(),
    ensures
        g@ == f@,
{
    broadcast use vstd::seq_lib::group_to_multiset_ensures;

    assert forall|v: u32| items.to_set().contains(v) == f@.to_set().contains(v) by {
        assert(items.contains(v) <==> items.to_multiset().count(v) > 0);
        assert(f@.contains(v) <==> f@.to_multiset().count(v) > 0);
    }
    assert(items.to_set() =~= f@.to_set());
    lemma_increasing_unique(g@, f@);
}

} // verus!
