//! The Čech nerve of a complex, and the reduction by iterated nerves.

use crate::complex::SimplicialComplex;
use crate::face::{lemma_increasing_bounded, lemma_increasing_no_duplicates, strictly_increasing, Face};
use crate::family::{
    complex_of, face_views, faces_wf, facet_set, is_complex, is_face, label_limit,
    lemma_complex_of, lemma_vertices_finite, maximal_in, spans, subface, vertices,
};
use crate::order::{lemma_ordered_no_duplicates, precedes};
use vstd::prelude::*;

verus! {

/// The places below `m` of the faces that hold the vertex `v`, in
/// increasing order.
pub open spec fn star_upto(s: Seq<Seq<u32>>, v: u32, m: int) -> Seq<u32>
    decreases m,
{
    if m <= 0 {
        Seq::empty()
    } else {
        let rest = star_upto(s, v, m - 1);
        if s[m - 1].contains(v) {
            rest.push((m - 1) as u32)
        } else {
            rest
        }
    }
}

/// The places of the facets that hold the vertex `v`: the face of the nerve
/// that belongs to `v`.
pub open spec fn star(s: Seq<Seq<u32>>, v: u32) -> Seq<u32> {
    star_upto(s, v, s.len() as int)
}

/// The faces of the nerve that belong to the vertices of the complex.
pub open spec fn nerve_faces(s: Seq<Seq<u32>>) -> Set<Seq<u32>> {
    Set::new(|f: Seq<u32>| exists|v: u32| vertices(s).contains(v) && f == #[trigger] star(s, v))
}

/// The Čech nerve: its vertices are the places of the facets of `s`, and
/// its facets are the maximal ones among the faces that belong to the
/// vertices of `s`. The nerve of the empty complex is the empty complex.
pub open spec fn nerve(s: Seq<Seq<u32>>) -> Seq<Seq<u32>> {
    complex_of(nerve_faces(s))
}

/// The nerve taken `k` times.
pub open spec fn nerve_iter(s: Seq<Seq<u32>>, k: nat) -> Seq<Seq<u32>>
    decreases k,
{
    if k == 0 {
        s
    } else {
        nerve(nerve_iter(s, (k - 1) as nat))
    }
}

/// The size of the first facet.
pub open spec fn height(s: Seq<Seq<u32>>) -> nat {
    if s.len() > 0 {
        s[0].len()
    } else {
        0
    }
}

/// Whether one more nerve is taken after `k` of them: the next nerve is
/// lower than the current complex, or it has fewer facets than the current
/// one has vertices (after an even number of nerves), or fewer vertices than
/// the current one has facets (after an odd number).
pub open spec fn progress(s: Seq<Seq<u32>>, k: nat) -> bool {
    let cur = nerve_iter(s, k);
    let nxt = nerve_iter(s, k + 1);
    height(nxt) < height(cur) || if k % 2 == 0 {
        nxt.len() < vertices(cur).len()
    } else {
        vertices(nxt).len() < cur.len()
    }
}

/// `n` is a facet list of the nerve of `x`.
pub open spec fn is_nerve_of(n: Seq<Seq<u32>>, x: Seq<Seq<u32>>) -> bool {
    &&& is_complex(n)
    &&& n.to_set() == facet_set(nerve_faces(x))
    &&& spans(n, nerve_faces(x))
}

/// What the star of a vertex holds.
pub proof fn lemma_star_upto(s: Seq<Seq<u32>>, v: u32, m: int)
    requires
        0 <= m <= s.len(),
        m <= label_limit(),
    ensures
        strictly_increasing(star_upto(s, v, m)),
        star_upto(s, v, m).len() <= m,
        forall|k: u32| #[trigger]
            star_upto(s, v, m).contains(k) <==> (k < m && s[k as int].contains(v)),
    decreases m,
{
    let t = star_upto(s, v, m);
    if m > 0 {
        lemma_star_upto(s, v, m - 1);
        let r = star_upto(s, v, m - 1);
        let x = (m - 1) as u32;
        if s[m - 1].contains(v) {
            assert(t == r.push(x));
            assert forall|a: int, b: int| 0 <= a < b < t.len() implies t[a] < t[b] by {
                if b == r.len() {
                    assert(r.contains(r[a]));
                } else {
                    assert(r[a] < r[b]);
                }
            }
            assert forall|k: u32| #[trigger] t.contains(k) <==> (k < m && s[k as int].contains(v)) by {
                vstd::seq_lib::lemma_seq_contains_after_push(r, x, k);
                if k != x {
                    assert(r.contains(k) <==> (k < m - 1 && s[k as int].contains(v)));
                }
            }
        } else {
            assert forall|k: u32| #[trigger] t.contains(k) <==> (k < m && s[k as int].contains(v)) by {
                assert(r.contains(k) <==> (k < m - 1 && s[k as int].contains(v)));
            }
        }
    }
}

/// A facet of a nerve that is not empty belongs to a vertex.
pub proof fn lemma_nerve_facet_is_star(n: Seq<Seq<u32>>, x: Seq<Seq<u32>>, k: int)
    requires
        is_nerve_of(n, x),
        0 <= k < n.len(),
        n[k].len() > 0,
    ensures
        exists|v: u32| vertices(x).contains(v) && n[k] == #[trigger] star(x, v),
{
    assert(n.to_set().contains(n[k]));
    if nerve_faces(x) =~= Set::<Seq<u32>>::empty() {
        assert(n[k] == Seq::<u32>::empty());
    } else {
        assert(maximal_in(n[k], nerve_faces(x)));
        assert(nerve_faces(x).contains(n[k]));
    }
}

/// The places of the facets of `x` are the only vertices that its nerve can
/// have.
pub proof fn lemma_nerve_vertex_is_place(n: Seq<Seq<u32>>, x: Seq<Seq<u32>>, w: u32)
    requires
        is_nerve_of(n, x),
        x.len() <= label_limit(),
        vertices(n).contains(w),
    ensures
        w < x.len(),
{
    let k = choose|k: int| 0 <= k < n.len() && (#[trigger] n[k]).contains(w);
    lemma_nerve_facet_is_star(n, x, k);
    let v = choose|v: u32| vertices(x).contains(v) && n[k] == #[trigger] star(x, v);
    lemma_star_upto(x, v, x.len() as int);
}

/// The nerve of a complex with a vertex has a vertex.
pub proof fn lemma_nerve_has_vertex(n: Seq<Seq<u32>>, x: Seq<Seq<u32>>, v: u32) -> (w: u32)
    requires
        is_nerve_of(n, x),
        x.len() <= label_limit(),
        vertices(x).contains(v),
    ensures
        vertices(n).contains(w),
{
    let i = choose|i: int| 0 <= i < x.len() && (#[trigger] x[i]).contains(v);
    lemma_star_upto(x, v, x.len() as int);
    let w = i as u32;
    assert(star(x, v).contains(w));
    assert(nerve_faces(x).contains(star(x, v)));
    assert(is_face(n, star(x, v)));
    let k = choose|k: int| 0 <= k < n.len() && subface(star(x, v), #[trigger] n[k]);
    assert(star(x, v).to_set().contains(w));
    assert(n[k].to_set().contains(w));
    assert(n[k].contains(w));
    w
}

/// A nerve has at most as many facets as the complex has vertices.
pub proof fn lemma_nerve_facets_bound(n: Seq<Seq<u32>>, x: Seq<Seq<u32>>, v0: u32)
    requires
        is_nerve_of(n, x),
        vertices(x).finite(),
        vertices(x).contains(v0),
    ensures
        n.len() <= vertices(x).len(),
{
    let f = |face: Seq<u32>| choose|v: u32| vertices(x).contains(v) && face == #[trigger] star(x, v);
    let w = n.map_values(f);
    assert(nerve_faces(x).contains(star(x, v0)));
    assert(!(nerve_faces(x) =~= Set::<Seq<u32>>::empty()));
    assert forall|i: int| 0 <= i < n.len() implies vertices(x).contains(#[trigger] w[i]) && n[i]
        == star(x, w[i]) by {
        assert(n.to_set().contains(n[i]));
        assert(maximal_in(n[i], nerve_faces(x)));
        assert(nerve_faces(x).contains(n[i]));
    }
    lemma_ordered_no_duplicates(n);
    assert(w.no_duplicates()) by {
        assert forall|i: int, j: int| 0 <= i < w.len() && 0 <= j < w.len() && i != j implies w[i]
            != w[j] by {
            if w[i] == w[j] {
                assert(n[i] == star(x, w[i]));
                assert(n[j] == star(x, w[j]));
            }
        }
    }
    w.unique_seq_to_set();
    assert(w.to_set().subset_of(vertices(x))) by {
        assert forall|u: u32| w.to_set().contains(u) implies vertices(x).contains(u) by {
            let i = choose|i: int| 0 <= i < w.len() && w[i] == u;
            assert(vertices(x).contains(w[i]));
        }
    }
    vstd::set_lib::lemma_len_subset(w.to_set(), vertices(x));
}

/// A nerve has at most as many vertices as the complex has facets.
pub proof fn lemma_nerve_vertices_bound(n: Seq<Seq<u32>>, x: Seq<Seq<u32>>, vn: Seq<u32>)
    requires
        is_nerve_of(n, x),
        x.len() <= label_limit(),
        strictly_increasing(vn),
        vn.to_set() == vertices(n),
    ensures
        vn.len() <= x.len(),
{
    assert forall|i: int| 0 <= i < vn.len() implies vn[i] < x.len() by {
        assert(vn.to_set().contains(vn[i]));
        lemma_nerve_vertex_is_place(n, x, vn[i]);
    }
    lemma_increasing_bounded(vn, x.len() as int);
}

/// The nerve of the nerve is not higher than the complex.
pub proof fn lemma_double_nerve_height(x: Seq<Seq<u32>>, n: Seq<Seq<u32>>, m: Seq<Seq<u32>>)
    requires
        is_complex(x),
        x.len() <= label_limit(),
        is_nerve_of(n, x),
        n.len() <= label_limit(),
        is_nerve_of(m, n),
    ensures
        height(m) <= height(x),
{
    if m[0].len() > 0 {
        lemma_nerve_facet_is_star(m, n, 0);
        let j = choose|j: u32| vertices(n).contains(j) && m[0] == #[trigger] star(n, j);
        lemma_nerve_vertex_is_place(n, x, j);
        let t = star(n, j);
        lemma_star_upto(n, j, n.len() as int);
        let f = |k: u32|
            choose|v: u32| vertices(x).contains(v) && n[k as int] == #[trigger] star(x, v);
        let w = t.map_values(f);
        assert forall|i: int| 0 <= i < t.len() implies n[t[i] as int] == star(x, #[trigger] w[i])
            && x[j as int].contains(w[i]) by {
            let k = t[i];
            assert(t.contains(k));
            assert(k < n.len() && n[k as int].contains(j));
            lemma_nerve_facet_is_star(n, x, k as int);
            let v = f(k);
            assert(n[k as int] == star(x, v));
            lemma_star_upto(x, v, x.len() as int);
            assert(star(x, v).contains(j));
        }
        lemma_ordered_no_duplicates(n);
        assert(w.no_duplicates()) by {
            assert forall|a: int, b: int| 0 <= a < w.len() && 0 <= b < w.len() && a != b implies w[a]
                != w[b] by {
                if w[a] == w[b] {
                    assert(n[t[a] as int] == star(x, w[a]));
                    assert(n[t[b] as int] == star(x, w[b]));
                    assert(t.contains(t[a]) && t.contains(t[b]));
                    if a < b {
                        assert(t[a] < t[b]);
                    } else {
                        assert(t[b] < t[a]);
                    }
                }
            }
        }
        w.unique_seq_to_set();
        assert(w.to_set().subset_of(x[j as int].to_set())) by {
            assert forall|u: u32| w.to_set().contains(u) implies x[j as int].to_set().contains(
                u,
            ) by {
                let i = choose|i: int| 0 <= i < w.len() && w[i] == u;
                assert(x[j as int].contains(w[i]));
            }
        }
        lemma_increasing_no_duplicates(x[j as int]);
        vstd::set_lib::lemma_len_subset(w.to_set(), x[j as int].to_set());
        if j > 0 {
            assert(precedes(x[0], x[j as int]));
        }
    }
}

/// The labels below `m`.
pub open spec fn below(m: int) -> Set<u32> {
    Set::new(|w: u32| w < m)
}

/// There are `m` labels below `m`.
pub proof fn lemma_below(m: nat)
    requires
        m <= label_limit(),
    ensures
        below(m as int).finite(),
        below(m as int).len() == m,
    decreases m,
{
    if m == 0 {
        assert(below(0) =~= Set::<u32>::empty());
    } else {
        lemma_below((m - 1) as nat);
        let w = (m - 1) as u32;
        assert(below(m as int) =~= below(m - 1).insert(w));
        assert(!below(m - 1).contains(w));
    }
}

/// The number of vertices and of facets together: the size by which the
/// contractibility test measures its work.
pub open spec fn size(s: Seq<Seq<u32>>) -> nat {
    vertices(s).len() + s.len()
}

/// The first facet has at most as many vertices as the whole family.
pub proof fn lemma_height_le_vertices(s: Seq<Seq<u32>>)
    requires
        faces_wf(s),
    ensures
        vertices(s).finite(),
        height(s) <= vertices(s).len(),
        vertices(s).len() <= label_limit(),
{
    lemma_vertices_finite(s);
    lemma_below(label_limit() as nat);
    assert(vertices(s).subset_of(below(label_limit())));
    vstd::set_lib::lemma_len_subset(vertices(s), below(label_limit()));
    if s.len() > 0 {
        lemma_increasing_no_duplicates(s[0]);
        assert(s[0].to_set().subset_of(vertices(s)));
        vstd::set_lib::lemma_len_subset(s[0].to_set(), vertices(s));
    }
}

/// The nerve of a family of faces is a complex. It has at most as many
/// vertices as the family has members and, where the family has a vertex, at
/// most as many facets as the family has vertices; none of its facets is
/// larger than the number of members of the family.
pub proof fn lemma_nerve(x: Seq<Seq<u32>>)
    requires
        faces_wf(x),
        x.len() <= label_limit(),
    ensures
        is_nerve_of(nerve(x), x),
        faces_wf(nerve(x)),
        nerve(x).len() <= label_limit(),
        vertices(x).finite(),
        vertices(nerve(x)).finite(),
        vertices(nerve(x)).len() <= x.len(),
        vertices(x).len() > 0 ==> nerve(x).len() <= vertices(x).len(),
        vertices(x).len() == 0 ==> nerve(x) == seq![Seq::<u32>::empty()],
        height(nerve(x)) <= x.len(),
{
    let n = nerve(x);
    let star_map = |v: u32| star(x, v);
    lemma_vertices_finite(x);
    vertices(x).lemma_map_finite(star_map);
    assert(nerve_faces(x) =~= vertices(x).map(star_map));
    assert forall|f: Seq<u32>| nerve_faces(x).contains(f) implies strictly_increasing(f) by {
        let v = choose|v: u32| vertices(x).contains(v) && f == #[trigger] star(x, v);
        lemma_star_upto(x, v, x.len() as int);
    }
    lemma_complex_of(nerve_faces(x));
    lemma_height_le_vertices(x);
    lemma_height_le_vertices(n);
    vstd::set_lib::lemma_map_size_bound(vertices(x), nerve_faces(x), star_map);
    // the vertices of the nerve are places of members of the family
    lemma_below(x.len());
    assert(vertices(n).subset_of(below(x.len() as int))) by {
        assert forall|w: u32| vertices(n).contains(w) implies below(x.len() as int).contains(w) by {
            lemma_nerve_vertex_is_place(n, x, w);
        }
    }
    vstd::set_lib::lemma_len_subset(vertices(n), below(x.len() as int));
    if vertices(x).len() > 0 {
        let v0 = vertices(x).choose();
        lemma_nerve_facets_bound(n, x, v0);
    } else {
        vertices(x).lemma_len0_is_empty();
        assert(nerve_faces(x) =~= Set::<Seq<u32>>::empty());
        crate::complex::lemma_single_face(Seq::<u32>::empty());
    }
    if n[0].len() > 0 {
        lemma_nerve_facet_is_star(n, x, 0);
        let v = choose|v: u32| vertices(x).contains(v) && n[0] == #[trigger] star(x, v);
        lemma_star_upto(x, v, x.len() as int);
    }
}

/// The face of the nerve that belongs to the vertex `v`.
pub fn star_of(list: &Vec<Face>, v: u32) -> (r: Face)
    requires
        faces_wf(face_views(list@)),
        list@.len() <= label_limit(),
    ensures
        r.wf(),
        r@ == star(face_views(list@), v),
{
    let ghost s = face_views(list@);
    let mut out: Vec<u32> = Vec::new();
    let mut i: usize = 0;
    while i < list.len()
        invariant
            s == face_views(list@),
            faces_wf(s),
            s.len() <= label_limit(),
            i <= list@.len(),
            out@ == star_upto(s, v, i as int),
        decreases list@.len() - i,
    {
        assert(s[i as int] == list@[i as int]@);
        if list[i].contains(v) {
            out.push(i as u32);
        }
        i += 1;
    }
    proof {
        lemma_star_upto(s, v, s.len() as int);
    }
    Face::from_sorted(out)
}

impl SimplicialComplex {
    /// The Čech nerve of the complex.
    pub fn nerve(&self) -> (r: Self)
        requires
            self.valid(),
            self.fits(),
        ensures
            r.wf(),
            r.fits(),
            r@ == nerve(self@),
            is_nerve_of(r@, self@),
    {
        let vs = self.vertex_set();
        let facets = self.facets();
        let ghost x = self@;
        let mut cand: Vec<Face> = Vec::new();
        let mut j: usize = 0;
        let n = vs.len();
        proof {
            lemma_increasing_bounded(vs@, label_limit());
        }
        while j < n
            invariant
                x == face_views(facets@),
                faces_wf(x),
                x.len() <= label_limit(),
                n == vs@.len(),
                j <= n,
                cand@.len() == j,
                faces_wf(face_views(cand@)),
                forall|k: int| 0 <= k < j ==> (#[trigger] cand@[k])@ == star(x, vs@[k]),
            decreases n - j,
        {
            let f = star_of(facets, vs.get(j));
            proof {
                let c2 = face_views(cand@.push(f));
                assert forall|k: int| 0 <= k < c2.len() implies strictly_increasing(
                    #[trigger] c2[k],
                ) by {
                    if k < j {
                        assert(c2[k] == face_views(cand@)[k]);
                    }
                }
            }
            cand.push(f);
            j += 1;
        }
        proof {
            let c = face_views(cand@);
            assert forall|f: Seq<u32>| c.to_set().contains(f) == nerve_faces(x).contains(f) by {
                if c.contains(f) {
                    let k = choose|k: int| 0 <= k < c.len() && c[k] == f;
                    assert(cand@[k]@ == star(x, vs@[k]));
                    assert(vs@.to_set().contains(vs@[k]));
                }
                if nerve_faces(x).contains(f) {
                    let v = choose|v: u32| vertices(x).contains(v) && f == #[trigger] star(x, v);
                    assert(vs@.contains(v));
                    let k = choose|k: int| 0 <= k < vs@.len() && vs@[k] == v;
                    assert(cand@[k]@ == star(x, vs@[k]));
                    assert(c[k] == f);
                }
            }
            assert(c.to_set() =~= nerve_faces(x));
            lemma_nerve(x);
        }
        SimplicialComplex::from_check_unique(cand)
    }

    /// Takes nerves as long as that lowers the complex or makes it smaller,
    /// and returns how many were taken.
    ///
    /// After `k` nerves one more is taken exactly if [`progress`] holds at
    /// `k`; the complex that is left is the nerve taken as often as the
    /// returned number says.
    pub fn nerve_reduce(&mut self) -> (n: u64)
        requires
            old(self).wf(),
            old(self).fits(),
        ensures
            final(self).wf(),
            final(self).fits(),
            final(self)@ == nerve_iter(old(self)@, n as nat),
            !progress(old(self)@, n as nat),
            forall|k: nat| k < n ==> progress(old(self)@, k),
    {
        let ghost x0 = self@;
        let vs = self.vertex_set();
        let mut base: usize = vs.len();
        proof {
            lemma_increasing_no_duplicates(vs@);
        }
        if base == 0 {
            proof {
                assert(nerve_iter(x0, 0) == x0);
                if x0[0].len() > 0 {
                    assert(x0[0].contains(x0[0][0]));
                    assert(vertices(x0).contains(x0[0][0]));
                }
            }
            return 0;
        }
        let ghost mut gv = vs@;
        let mut nerve = self.nerve();
        let mut n: u64 = 0;
        proof {
            lemma_increasing_bounded(gv, label_limit());
            lemma_height_bound(self@);
            lemma_height_bound(nerve@);
            assert(nerve_iter(x0, 0) == x0);
            assert(nerve_iter(x0, 1) == self::nerve(nerve_iter(x0, 0)));
        }
        loop
            invariant
                self.wf(),
                nerve.wf(),
                self.fits(),
                nerve.fits(),
                n % 2 == 0 ==> self@ == nerve_iter(x0, n as nat) && nerve@ == nerve_iter(
                    x0,
                    (n + 1) as nat,
                ) && is_nerve_of(nerve@, self@),
                n % 2 != 0 ==> nerve@ == nerve_iter(x0, n as nat) && self@ == nerve_iter(
                    x0,
                    (n + 1) as nat,
                ) && is_nerve_of(self@, nerve@),
                strictly_increasing(gv),
                gv.to_set() == vertices(self@),
                gv.len() == base,
                base > 0,
                forall|k: nat| k < n ==> progress(x0, k),
                n + potential_at(n as nat, self@, nerve@, base as int) <= 0x7_0000_0000,
            ensures
                !progress(x0, n as nat),
            decreases potential_at(n as nat, self@, nerve@, base as int),
        {
            let h_self = self.height();
            let h_nerve = nerve.height();
            let f_nerve = nerve.len();
            let even = n % 2 == 0;
            let fire = if even {
                h_nerve < h_self || f_nerve < base
            } else {
                h_nerve > h_self || f_nerve > base
            };
            proof {
                lemma_increasing_no_duplicates(gv);
                assert(fire == progress(x0, n as nat));
            }
            if !fire {
                break ;
            }
            if even {
                let next = nerve.nerve();
                proof {
                    assert(gv.contains(gv[0]));
                    assert(vertices(self@).contains(gv[0]));
                    lemma_nerve_facets_bound(nerve@, self@, gv[0]);
                    lemma_double_nerve_height(self@, nerve@, next@);
                    let w1 = lemma_nerve_has_vertex(nerve@, self@, gv[0]);
                    let w2 = lemma_nerve_has_vertex(next@, nerve@, w1);
                    assert(nerve_iter(x0, (n + 2) as nat) == self::nerve(nerve_iter(x0, (n + 1) as nat)));
                    lemma_height_bound(next@);
                }
                *self = next;
                let vs2 = self.vertex_set();
                base = vs2.len();
                proof {
                    gv = vs2@;
                    let w = choose|w: u32| vertices(self@).contains(w);
                    assert(gv.contains(w));
                }
            } else {
                let next = self.nerve();
                proof {
                    lemma_nerve_vertices_bound(self@, nerve@, gv);
                    lemma_double_nerve_height(nerve@, self@, next@);
                    assert(nerve_iter(x0, (n + 2) as nat) == self::nerve(nerve_iter(x0, (n + 1) as nat)));
                    lemma_height_bound(next@);
                }
                nerve = next;
            }
            n += 1;
        }
        if n % 2 != 0 {
            *self = nerve;
        }
        n
    }
}

/// The measure that falls with every nerve that the reduction takes, after
/// `k` nerves, from the complex in hand, the list beside it and the number
/// of vertices of the complex in hand.
pub open spec fn potential_at(k: nat, me: Seq<Seq<u32>>, other: Seq<Seq<u32>>, base: int) -> int {
    if k % 2 == 0 {
        potential(base, me, other)
    } else {
        potential(other.len() as int, other, me)
    }
}

/// Twice the sum of a count and two heights, and one more where the second
/// list is lower than the first.
pub open spec fn potential(count: int, cur: Seq<Seq<u32>>, nxt: Seq<Seq<u32>>) -> int {
    2 * (count + height(cur) + height(nxt)) + if height(nxt) < height(cur) {
        1int
    } else {
        0int
    }
}

/// No face has more vertices than there are labels.
pub proof fn lemma_height_bound(s: Seq<Seq<u32>>)
    requires
        faces_wf(s),
    ensures
        height(s) <= label_limit(),
{
    if s.len() > 0 {
        lemma_increasing_bounded(s[0], label_limit());
    }
}

} // verus!
