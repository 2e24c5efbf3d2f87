//! Renaming the vertices of a complex by the labels `0, 1, 2, ...`.

use crate::complex::SimplicialComplex;
use crate::face::{
    lemma_increasing_bounded, lemma_increasing_no_duplicates, lemma_increasing_unique,
    lemma_insert_at, strictly_increasing, Face,
};
use crate::complex::lemma_complex_is_canonical;
use crate::family::{
    complex_of, face_views, faces_wf, is_face, label_limit, lemma_complex_of,
    lemma_vertices_finite, subface, vertices,
};
use crate::nerve::{below, lemma_below};
use crate::dict::{hm_insert, new_hm, LabelMap};
use vstd::prelude::*;

verus! {

/// The face with the given vertices: the labels in increasing order.
pub open spec fn face_of(labels: Set<u32>) -> Seq<u32> {
    choose|s: Seq<u32>| strictly_increasing(s) && s.to_set() == labels
}

/// The place of a label in an increasing sequence that lacks it.
proof fn lemma_label_place(s: Seq<u32>, x: u32) -> (p: int)
    requires
        strictly_increasing(s),
        !s.contains(x),
    ensures
        0 <= p <= s.len(),
        forall|k: int| 0 <= k < p ==> s[k] < x,
        forall|k: int| p <= k < s.len() ==> x < s[k],
    decreases s.len(),
{
    if s.len() == 0 {
        0
    } else {
        let n = s.len() - 1;
        assert(s.contains(s[n]));
        if s[n] < x {
            assert forall|k: int| 0 <= k < s.len() implies s[k] < x by {
                if k < n {
                    assert(s[k] < s[n]);
                }
            }
            s.len() as int
        } else {
            let s0 = s.drop_last();
            assert(strictly_increasing(s0));
            assert(!s0.contains(x)) by {
                if s0.contains(x) {
                    let i = choose|i: int| 0 <= i < s0.len() && s0[i] == x;
                    assert(s[i] == x);
                }
            }
            let p = lemma_label_place(s0, x);
            assert forall|k: int| 0 <= k < p implies s[k] < x by {
                assert(s0[k] == s[k]);
            }
            assert forall|k: int| p <= k < s.len() implies x < s[k] by {
                if k < n {
                    assert(s0[k] == s[k]);
                }
            }
            p
        }
    }
}

/// Every finite set of labels can be listed in increasing order.
pub proof fn lemma_face_exists(labels: Set<u32>)
    requires
        labels.finite(),
    ensures
        exists|s: Seq<u32>| strictly_increasing(s) && s.to_set() == labels,
    decreases labels.len(),
{
    if labels.len() == 0 {
        let s = Seq::<u32>::empty();
        labels.lemma_len0_is_empty();
        assert(s.to_set() =~= labels);
        assert(strictly_increasing(s) && s.to_set() == labels);
    } else {
        let x = labels.choose();
        let rest = labels.remove(x);
        lemma_face_exists(rest);
        let s0 = choose|s: Seq<u32>| strictly_increasing(s) && s.to_set() == rest;
        assert(!s0.contains(x)) by {
            assert(!rest.contains(x));
        }
        let p = lemma_label_place(s0, x);
        lemma_insert_at(s0, p, x);
        let s = s0.insert(p, x);
        assert(rest.insert(x) =~= labels);
        assert(strictly_increasing(s) && s.to_set() == labels);
    }
}

/// The face of a finite set of labels lists exactly those labels.
pub proof fn lemma_face_of(labels: Set<u32>)
    requires
        labels.finite(),
    ensures
        strictly_increasing(face_of(labels)),
        face_of(labels).to_set() == labels,
        face_of(labels).len() == labels.len(),
{
    lemma_face_exists(labels);
    lemma_increasing_no_duplicates(face_of(labels));
}

/// An increasing sequence is the face of its own labels.
pub proof fn lemma_face_of_seq(s: Seq<u32>)
    requires
        strictly_increasing(s),
    ensures
        face_of(s.to_set()) == s,
{
    let t = face_of(s.to_set());
    assert(strictly_increasing(s) && s.to_set() == s.to_set());
    lemma_increasing_unique(t, s);
}

/// The number of labels in `among` that are smaller than `v`.
pub open spec fn rank_below(among: Set<u32>, v: u32) -> u32 {
    among.filter(|w: u32| w < v).len() as u32
}

/// The number of labels in `among` that are greater than `v`.
pub open spec fn rank_above(among: Set<u32>, v: u32) -> u32 {
    among.filter(|w: u32| w > v).len() as u32
}

/// The face that `f` becomes where every vertex `v` is renamed to `m(v)`.
pub open spec fn image(f: Seq<u32>, m: spec_fn(u32) -> u32) -> Seq<u32> {
    face_of(f.map_values(m).to_set())
}

/// The complex that `x` becomes where every vertex `v` is renamed to `m(v)`.
pub open spec fn renamed(x: Seq<Seq<u32>>, m: spec_fn(u32) -> u32) -> Seq<Seq<u32>> {
    complex_of(x.map_values(|f: Seq<u32>| image(f, m)).to_set())
}

/// The renaming that gives every vertex the number of vertices below it.
pub open spec fn ascending(x: Seq<Seq<u32>>) -> spec_fn(u32) -> u32 {
    |v: u32| rank_below(vertices(x), v)
}

/// The renaming that gives every vertex the number of vertices above it.
pub open spec fn descending(x: Seq<Seq<u32>>) -> spec_fn(u32) -> u32 {
    |v: u32| rank_above(vertices(x), v)
}

/// The complex with its vertices renamed to `0, 1, ...` in the order of
/// their labels.
pub open spec fn relabeled(x: Seq<Seq<u32>>) -> Seq<Seq<u32>> {
    renamed(x, ascending(x))
}

/// The complex with its vertices renamed to `0, 1, ...` against the order
/// of their labels: the greatest label becomes 0.
pub open spec fn relabeled_reverse(x: Seq<Seq<u32>>) -> Seq<Seq<u32>> {
    renamed(x, descending(x))
}

/// What a map holds at a label.
pub open spec fn lookup(d: Map<u32, u32>) -> spec_fn(u32) -> u32 {
    |v: u32| d[v]
}

/// In an increasing sequence the entry at place `i` has `i` entries below
/// it and the others above it.
pub proof fn lemma_ranks(vs: Seq<u32>, i: int)
    requires
        strictly_increasing(vs),
        0 <= i < vs.len(),
    ensures
        vs.len() <= label_limit(),
        rank_below(vs.to_set(), vs[i]) == i,
        rank_above(vs.to_set(), vs[i]) == vs.len() - 1 - i,
{
    lemma_increasing_bounded(vs, label_limit());
    let lo = vs.take(i);
    let hi = vs.skip(i + 1);
    assert(strictly_increasing(lo));
    assert(strictly_increasing(hi));
    lemma_increasing_no_duplicates(lo);
    lemma_increasing_no_duplicates(hi);
    let below = vs.to_set().filter(|w: u32| w < vs[i]);
    let above = vs.to_set().filter(|w: u32| w > vs[i]);
    assert forall|w: u32| below.contains(w) == lo.to_set().contains(w) by {
        if vs.contains(w) && w < vs[i] {
            let k = choose|k: int| 0 <= k < vs.len() && vs[k] == w;
            if k >= i {
                if k > i {
                    assert(vs[i] < vs[k]);
                }
            } else {
                assert(lo[k] == w);
            }
        }
        if lo.contains(w) {
            let k = choose|k: int| 0 <= k < lo.len() && lo[k] == w;
            assert(vs[k] == w);
            assert(vs[k] < vs[i]);
        }
    }
    assert(below =~= lo.to_set());
    assert forall|w: u32| above.contains(w) == hi.to_set().contains(w) by {
        if vs.contains(w) && w > vs[i] {
            let k = choose|k: int| 0 <= k < vs.len() && vs[k] == w;
            if k <= i {
                if k < i {
                    assert(vs[k] < vs[i]);
                }
            } else {
                assert(hi[k - i - 1] == w);
            }
        }
        if hi.contains(w) {
            let k = choose|k: int| 0 <= k < hi.len() && hi[k] == w;
            assert(vs[k + i + 1] == w);
            assert(vs[i] < vs[k + i + 1]);
        }
    }
    assert(above =~= hi.to_set());
}

/// Renamings that agree on the vertices of a family rename it alike.
pub proof fn lemma_renamed_agree(x: Seq<Seq<u32>>, m1: spec_fn(u32) -> u32, m2: spec_fn(u32) -> u32)
    requires
        forall|v: u32| vertices(x).contains(v) ==> m1(v) == m2(v),
    ensures
        renamed(x, m1) == renamed(x, m2),
{
    let a = x.map_values(|f: Seq<u32>| image(f, m1));
    let b = x.map_values(|f: Seq<u32>| image(f, m2));
    assert forall|i: int| 0 <= i < x.len() implies a[i] == b[i] by {
        assert forall|k: int| 0 <= k < x[i].len() implies m1(#[trigger] x[i][k]) == m2(x[i][k]) by {
            assert(x[i].contains(x[i][k]));
            assert(vertices(x).contains(x[i][k]));
        }
        assert(x[i].map_values(m1) =~= x[i].map_values(m2));
    }
    assert(a =~= b);
}

/// Renaming in the order of the labels gives different vertices different
/// names: the renamed complex is a copy of the complex.
pub proof fn lemma_ascending_injective(x: Seq<Seq<u32>>, v: u32, w: u32)
    requires
        vertices(x).contains(v),
        vertices(x).contains(w),
        v != w,
    ensures
        ascending(x)(v) != ascending(x)(w),
{
    lemma_vertices_finite(x);
    lemma_face_of(vertices(x));
    let vs = face_of(vertices(x));
    assert(vs.to_set().contains(v) && vs.to_set().contains(w));
    let i = choose|i: int| 0 <= i < vs.len() && vs[i] == v;
    let j = choose|j: int| 0 <= j < vs.len() && vs[j] == w;
    lemma_ranks(vs, i);
    lemma_ranks(vs, j);
}

/// Renaming against the order of the labels gives different vertices
/// different names as well.
pub proof fn lemma_descending_injective(x: Seq<Seq<u32>>, v: u32, w: u32)
    requires
        vertices(x).contains(v),
        vertices(x).contains(w),
        v != w,
    ensures
        descending(x)(v) != descending(x)(w),
{
    lemma_vertices_finite(x);
    lemma_face_of(vertices(x));
    let vs = face_of(vertices(x));
    assert(vs.to_set().contains(v) && vs.to_set().contains(w));
    let i = choose|i: int| 0 <= i < vs.len() && vs[i] == v;
    let j = choose|j: int| 0 <= j < vs.len() && vs[j] == w;
    lemma_ranks(vs, i);
    lemma_ranks(vs, j);
}

/// A renaming that maps the vertices of a family onto the labels below
/// their number gives a complex with just those labels as vertices.
pub proof fn lemma_renamed_vertices(x: Seq<Seq<u32>>, m: spec_fn(u32) -> u32)
    requires
        faces_wf(x),
        x.len() > 0,
        forall|v: u32| vertices(x).contains(v) ==> m(v) < vertices(x).len(),
        forall|u: u32| #[trigger]
            below(vertices(x).len() as int).contains(u) ==> exists|v: u32|
                vertices(x).contains(v) && m(v) == u,
    ensures
        crate::family::is_complex(renamed(x, m)),
        vertices(x).finite(),
        vertices(renamed(x, m)) == below(vertices(x).len() as int),
{
    let fam = x.map_values(|f: Seq<u32>| image(f, m));
    let w = fam.to_set();
    let y = renamed(x, m);
    let n = vertices(x).len();
    lemma_vertices_finite(x);
    vstd::seq_lib::seq_to_set_is_finite(fam);
    assert forall|i: int| 0 <= i < x.len() implies strictly_increasing(#[trigger] fam[i]) && fam[i].to_set()
        == x[i].map_values(m).to_set() by {
        vstd::seq_lib::seq_to_set_is_finite(x[i].map_values(m));
        lemma_face_of(x[i].map_values(m).to_set());
    }
    assert forall|g: Seq<u32>| w.contains(g) implies strictly_increasing(g) by {
        let i = choose|i: int| 0 <= i < fam.len() && fam[i] == g;
    }
    lemma_complex_of(w);
    assert(w.contains(fam[0]));
    assert forall|u: u32| vertices(y).contains(u) == below(n as int).contains(u) by {
        if vertices(y).contains(u) {
            let k = choose|k: int| 0 <= k < y.len() && (#[trigger] y[k]).contains(u);
            assert(y.to_set().contains(y[k]));
            assert(w.contains(y[k]));
            let i = choose|i: int| 0 <= i < fam.len() && fam[i] == y[k];
            assert(fam[i].to_set().contains(u));
            let a = choose|a: int| 0 <= a < x[i].map_values(m).len() && x[i].map_values(m)[a] == u;
            assert(x[i].contains(x[i][a]));
            assert(vertices(x).contains(x[i][a]));
        }
        if u < n {
            assert(below(n as int).contains(u));
            let v = choose|v: u32| vertices(x).contains(v) && m(v) == u;
            let i = choose|i: int| 0 <= i < x.len() && (#[trigger] x[i]).contains(v);
            let a = choose|a: int| 0 <= a < x[i].len() && x[i][a] == v;
            assert(x[i].map_values(m)[a] == u);
            assert(x[i].map_values(m).to_set().contains(u));
            assert(fam[i].contains(u));
            assert(w.contains(fam[i]));
            assert(is_face(y, fam[i]));
            let k = choose|k: int| 0 <= k < y.len() && subface(fam[i], #[trigger] y[k]);
            assert(fam[i].to_set().contains(u));
            assert(y[k].to_set().contains(u));
            assert(y[k].contains(u));
        }
    }
    assert(vertices(y) =~= below(n as int));
}

/// The vertices of a complex renamed in the order of their labels are the
/// labels below the number of vertices.
pub proof fn lemma_relabeled_vertices(x: Seq<Seq<u32>>)
    requires
        faces_wf(x),
        x.len() > 0,
    ensures
        crate::family::is_complex(relabeled(x)),
        vertices(x).finite(),
        vertices(relabeled(x)) == below(vertices(x).len() as int),
        vertices(relabeled(x)).len() == vertices(x).len(),
{
    lemma_vertices_finite(x);
    lemma_face_of(vertices(x));
    crate::nerve::lemma_height_le_vertices(x);
    let vs = face_of(vertices(x));
    let m = ascending(x);
    assert forall|v: u32| vertices(x).contains(v) implies m(v) < vertices(x).len() by {
        assert(vs.to_set().contains(v));
        let i = choose|i: int| 0 <= i < vs.len() && vs[i] == v;
        lemma_ranks(vs, i);
    }
    assert forall|u: u32| #[trigger] below(vertices(x).len() as int).contains(u) implies exists|
        v: u32,
    | vertices(x).contains(v) && m(v) == u by {
        lemma_ranks(vs, u as int);
        assert(vs.to_set().contains(vs[u as int]));
        assert(vertices(x).contains(vs[u as int]) && m(vs[u as int]) == u);
    }
    lemma_renamed_vertices(x, m);
    lemma_below(vertices(x).len());
}

/// The vertices of a complex renamed against the order of their labels are
/// the labels below the number of vertices too.
pub proof fn lemma_relabeled_reverse_vertices(x: Seq<Seq<u32>>)
    requires
        faces_wf(x),
        x.len() > 0,
    ensures
        crate::family::is_complex(relabeled_reverse(x)),
        vertices(x).finite(),
        vertices(relabeled_reverse(x)) == below(vertices(x).len() as int),
        vertices(relabeled_reverse(x)).len() == vertices(x).len(),
{
    lemma_vertices_finite(x);
    lemma_face_of(vertices(x));
    crate::nerve::lemma_height_le_vertices(x);
    let vs = face_of(vertices(x));
    let n = vs.len();
    let m = descending(x);
    assert forall|v: u32| vertices(x).contains(v) implies m(v) < vertices(x).len() by {
        assert(vs.to_set().contains(v));
        let i = choose|i: int| 0 <= i < vs.len() && vs[i] == v;
        lemma_ranks(vs, i);
    }
    assert forall|u: u32| #[trigger] below(vertices(x).len() as int).contains(u) implies exists|
        v: u32,
    | vertices(x).contains(v) && m(v) == u by {
        lemma_ranks(vs, n - 1 - u);
        assert(vs.to_set().contains(vs[n - 1 - u]));
        assert(vertices(x).contains(vs[n - 1 - u]) && m(vs[n - 1 - u]) == u);
    }
    lemma_renamed_vertices(x, m);
    lemma_below(vertices(x).len());
}

/// Renaming the vertices in the order of their labels a second time changes
/// nothing.
pub proof fn lemma_relabel_idempotent(x: Seq<Seq<u32>>)
    requires
        faces_wf(x),
        x.len() > 0,
    ensures
        relabeled(relabeled(x)) == relabeled(x),
{
    let y = relabeled(x);
    lemma_relabeled_vertices(x);
    let n = vertices(x).len();
    let id = |v: u32| v;
    assert forall|u: u32| vertices(y).contains(u) implies ascending(y)(u) == id(u) by {
        lemma_below(u as nat);
        assert(below(n as int).filter(|t: u32| t < u) =~= below(u as int));
    }
    lemma_renamed_agree(y, ascending(y), id);
    let same = y.map_values(|f: Seq<u32>| image(f, id));
    assert forall|i: int| 0 <= i < y.len() implies same[i] == y[i] by {
        assert(y[i].map_values(id) =~= y[i]);
        lemma_face_of_seq(y[i]);
    }
    assert(same =~= y);
    lemma_complex_is_canonical(y);
}

/// The faces of `list` with every vertex renamed by `dict`.
pub fn rename_faces(list: &Vec<Face>, dict: &LabelMap) -> (r: Vec<Face>)
    requires
        faces_wf(face_views(list@)),
        forall|v: u32| vertices(face_views(list@)).contains(v) ==> dict@.contains_key(v),
    ensures
        faces_wf(face_views(r@)),
        face_views(r@) == face_views(list@).map_values(|f: Seq<u32>| image(f, lookup(dict@))),
{
    let ghost x = face_views(list@);
    let mut out: Vec<Face> = Vec::new();
    let mut i: usize = 0;
    while i < list.len()
        invariant
            x == face_views(list@),
            faces_wf(x),
            forall|v: u32| vertices(x).contains(v) ==> dict@.contains_key(v),
            i <= list@.len(),
            out@.len() == i,
            forall|k: int| 0 <= k < i ==> (#[trigger] out@[k]).wf() && out@[k]@ == image(
                x[k],
                lookup(dict@),
            ),
        decreases list@.len() - i,
    {
        assert(x[i as int] == list@[i as int]@);
        let mut f = list[i].clone();
        proof {
            assert forall|v: u32| f@.contains(v) implies dict@.contains_key(v) by {
                assert(x[i as int].contains(v));
                assert(vertices(x).contains(v));
            }
        }
        f.replace_verts_from_map(dict);
        proof {
            let given = x[i as int];
            assert(given.map_values(|v: u32| dict@[v]) =~= given.map_values(lookup(dict@)));
            vstd::seq_lib::seq_to_set_is_finite(given.map_values(lookup(dict@)));
            lemma_face_of(given.map_values(lookup(dict@)).to_set());
            lemma_increasing_unique(f@, image(given, lookup(dict@)));
        }
        out.push(f);
        i += 1;
    }
    proof {
        assert(face_views(out@) =~= x.map_values(|f: Seq<u32>| image(f, lookup(dict@))));
    }
    out
}

impl SimplicialComplex {
    /// Renames the vertices to `0, 1, ...` in the order of their labels.
    pub fn relabel_vertices(&mut self)
        requires
            old(self).valid(),
        ensures
            final(self).wf(),
            final(self)@ == relabeled(old(self)@),
            final(self)@.len() <= old(self)@.len() || final(self)@ == seq![Seq::<u32>::empty()],
            old(self)@.len() > 0 ==> vertices(final(self)@) == below(
                vertices(old(self)@).len() as int,
            ),
    {
        let ghost x = self@;
        proof {
            if x.len() > 0 {
                lemma_relabeled_vertices(x);
            }
        }
        let vs = self.vertex_set();
        let n = vs.len();
        let mut dict = new_hm(n);
        let mut i: usize = 0;
        proof {
            lemma_increasing_bounded(vs@, label_limit());
        }
        while i < n
            invariant
                n == vs@.len(),
                n <= label_limit(),
                vs.wf(),
                i <= n,
                forall|k: int| 0 <= k < i ==> dict@.contains_key(#[trigger] vs@[k]) && dict@[vs@[k]]
                    == k,
            decreases n - i,
        {
            let v = vs.get(i);
            proof {
                assert forall|k: int| 0 <= k < i implies vs@[k] != v by {
                    assert(vs@[k] < vs@[i as int]);
                }
            }
            hm_insert(&mut dict, v, i as u32);
            i += 1;
        }
        proof {
            assert forall|v: u32| vertices(x).contains(v) implies dict@.contains_key(v) && lookup(
                dict@,
            )(v) == ascending(x)(v) by {
                assert(vs@.to_set().contains(v));
                let k = choose|k: int| 0 <= k < vs@.len() && vs@[k] == v;
                lemma_ranks(vs@, k);
                assert(dict@.contains_key(vs@[k]));
            }
            lemma_renamed_agree(x, lookup(dict@), ascending(x));
        }
        let renamed = rename_faces(self.facets(), &dict);
        *self = SimplicialComplex::from_check_unique(renamed);
    }

    /// Renames the vertices to `0, 1, ...` against the order of their
    /// labels: the greatest label becomes 0.
    pub fn relabel_vertices_reverse(&mut self)
        requires
            old(self).valid(),
        ensures
            final(self).wf(),
            final(self)@ == relabeled_reverse(old(self)@),
            final(self)@.len() <= old(self)@.len() || final(self)@ == seq![Seq::<u32>::empty()],
            old(self)@.len() > 0 ==> vertices(final(self)@) == below(
                vertices(old(self)@).len() as int,
            ),
    {
        let ghost x = self@;
        proof {
            if x.len() > 0 {
                lemma_relabeled_reverse_vertices(x);
            }
        }
        let vs = self.vertex_set();
        let n = vs.len();
        let mut dict = new_hm(n);
        let mut i: usize = 0;
        proof {
            lemma_increasing_bounded(vs@, label_limit());
        }
        while i < n
            invariant
                n == vs@.len(),
                n <= label_limit(),
                vs.wf(),
                i <= n,
                forall|k: int| 0 <= k < i ==> dict@.contains_key(#[trigger] vs@[k]) && dict@[vs@[k]]
                    == n - 1 - k,
            decreases n - i,
        {
            let v = vs.get(i);
            proof {
                assert forall|k: int| 0 <= k < i implies vs@[k] != v by {
                    assert(vs@[k] < vs@[i as int]);
                }
            }
            hm_insert(&mut dict, v, (n - 1 - i) as u32);
            i += 1;
        }
        proof {
            assert forall|v: u32| vertices(x).contains(v) implies dict@.contains_key(v) && lookup(
                dict@,
            )(v) == descending(x)(v) by {
                assert(vs@.to_set().contains(v));
                let k = choose|k: int| 0 <= k < vs@.len() && vs@[k] == v;
                lemma_ranks(vs@, k);
                assert(dict@.contains_key(vs@[k]));
            }
            lemma_renamed_agree(x, lookup(dict@), descending(x));
        }
        let renamed = rename_faces(self.facets(), &dict);
        *self = SimplicialComplex::from_check_unique(renamed);
    }
}

} // verus!
