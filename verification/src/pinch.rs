//! Edge pinching: contracting an edge to one of its ends where the links
//! show that this keeps the homotopy type.

use crate::complex::{clone_faces, lemma_complex_is_canonical, SimplicialComplex};
use crate::interrupt::is_set;
use crate::face::{
    lemma_increasing_no_duplicates, lemma_increasing_unique, strictly_increasing, Face,
};
use crate::family::{
    complex_of, face_views, faces_wf, is_complex, label_limit, lemma_complex_of_vertices,
    lemma_vertices_finite, subface, vertex_set_of, vertices,
};
use crate::nerve::height;
use crate::oracle::{accretion, places_from};
use crate::relabel::{
    face_of, lemma_face_of, lemma_face_of_seq, lemma_relabeled_reverse_vertices, relabeled_reverse,
};
use crate::subcomplex::pair_meets;
use std::sync::atomic::AtomicBool;
use std::sync::Arc;
use vstd::prelude::*;

verus! {

/// The vertices of `a` that `b` lacks, in increasing order.
pub open spec fn diff(a: Seq<u32>, b: Seq<u32>) -> Seq<u32> {
    a.filter(|v: u32| !b.contains(v))
}

/// The difference of two faces is the face of the vertices of the first
/// that the second lacks.
pub proof fn lemma_diff(a: Seq<u32>, b: Seq<u32>)
    requires
        strictly_increasing(a),
    ensures
        strictly_increasing(diff(a, b)),
        diff(a, b).to_set() == a.to_set().difference(b.to_set()),
        forall|i: int| 0 <= i < diff(a, b).len() ==> a.contains(#[trigger] diff(a, b)[i]),
    decreases a.len(),
{
    reveal(Seq::filter);
    if a.len() == 0 {
        assert(diff(a, b).to_set() =~= a.to_set().difference(b.to_set()));
    } else {
        let a0 = a.drop_last();
        let x = a.last();
        assert(strictly_increasing(a0));
        lemma_diff(a0, b);
        let m0 = diff(a0, b);
        let m = diff(a, b);
        assert forall|i: int| 0 <= i < m0.len() implies #[trigger] m0[i] < x by {
            assert(a0.contains(m0[i]));
            let k = choose|k: int| 0 <= k < a0.len() && a0[k] == m0[i];
            assert(a[k] < a[a.len() - 1]);
        }
        assert(a =~= a0.push(x));
        a0.lemma_push_to_set_commute(x);
        if !b.contains(x) {
            assert(m == m0.push(x));
            m0.lemma_push_to_set_commute(x);
            assert(m.to_set() =~= a.to_set().difference(b.to_set()));
            assert forall|i: int| 0 <= i < m.len() implies a.contains(#[trigger] m[i]) by {
                if i < m0.len() {
                    assert(a0.contains(m0[i]));
                    let k = choose|k: int| 0 <= k < a0.len() && a0[k] == m0[i];
                    assert(a[k] == m[i]);
                } else {
                    assert(a[a.len() - 1] == m[i]);
                }
            }
        } else {
            assert(m == m0);
            assert(m.to_set() =~= a.to_set().difference(b.to_set()));
            assert forall|i: int| 0 <= i < m.len() implies a.contains(#[trigger] m[i]) by {
                assert(a0.contains(m0[i]));
                let k = choose|k: int| 0 <= k < a0.len() && a0[k] == m0[i];
                assert(a[k] == m[i]);
            }
        }
    }
}

/// What is left of the members of `s` that hold the face `f` once `f` is
/// taken out of them.
pub open spec fn link_faces(s: Seq<Seq<u32>>, f: Seq<u32>) -> Set<Seq<u32>> {
    Set::new(
        |h: Seq<u32>| exists|i: int| 0 <= i < s.len() && subface(f, #[trigger] s[i]) && h == diff(s[i], f),
    )
}

/// The link of the face `f` in the complex that `s` spans. Where no member
/// holds `f` it is the empty complex.
pub open spec fn link(s: Seq<Seq<u32>>, f: Seq<u32>) -> Seq<Seq<u32>> {
    complex_of(link_faces(s, f))
}

/// The face of the two ends of an edge.
pub open spec fn edge_face(u: u32, v: u32) -> Seq<u32> {
    face_of(set![u, v])
}

/// Whether the edge from `u` to `v` may be pinched: whether the link of the
/// edge is seen to be a deformation retract of the complex in which the
/// links of its two ends meet. Links too large for the test count as not
/// safe.
pub open spec fn pinch_safe(x: Seq<Seq<u32>>, u: u32, v: u32) -> bool {
    let of_edge = link(x, edge_face(u, v));
    let of_old = link(x, seq![u]);
    let of_new = link(x, seq![v]);
    let both = complex_of(pair_meets(of_old, of_new));
    if of_edge.len() + both.len() > label_limit() {
        false
    } else if height(of_edge) == 0 {
        height(both) == 0
    } else {
        accretion(of_edge, both, places_from(both, 0)).1.len() == 0
    }
}

/// The face `f` with the vertex `u` replaced by `v`.
pub open spec fn replaced_face(f: Seq<u32>, u: u32, v: u32) -> Seq<u32> {
    if f.contains(u) {
        face_of(f.to_set().remove(u).insert(v))
    } else {
        f
    }
}

/// The family with the vertex `u` replaced by `v` in every member.
pub open spec fn replaced(x: Seq<Seq<u32>>, u: u32, v: u32) -> Seq<Seq<u32>> {
    x.map_values(|f: Seq<u32>| replaced_face(f, u, v))
}

/// The vertices below `u` that share a member of the family with `u`.
pub open spec fn lower_neighbors(x: Seq<Seq<u32>>, u: u32) -> Set<u32> {
    Set::new(
        |w: u32|
            w < u && exists|i: int| 0 <= i < x.len() && (#[trigger] x[i]).contains(u) && x[i].contains(w),
    )
}

/// The edge table: for every vertex, from the greatest label down, the
/// vertices below it that it shares an edge with, greatest first.
pub open spec fn edge_table(x: Seq<Seq<u32>>) -> Seq<(u32, Seq<u32>)> {
    let vs = face_of(vertices(x));
    Seq::new(
        vs.len(),
        |k: int|
            (vs[vs.len() - 1 - k], face_of(lower_neighbors(x, vs[vs.len() - 1 - k])).reverse()),
    )
}

/// The link of the face `f` in the complex that `list` spans.
pub fn link_of(list: &Vec<Face>, f: &Face) -> (r: SimplicialComplex)
    requires
        faces_wf(face_views(list@)),
        f.wf(),
    ensures
        r.wf(),
        r@ == link(face_views(list@), f@),
        r@.len() <= list@.len() || r@ == seq![Seq::<u32>::empty()],
{
    let ghost s = face_views(list@);
    let mut cands: Vec<Face> = Vec::new();
    let mut i: usize = 0;
    assert(face_views(cands@).to_set() =~= link_faces(s.take(0), f@));
    while i < list.len()
        invariant
            s == face_views(list@),
            faces_wf(s),
            f.wf(),
            i <= list@.len(),
            cands@.len() <= i,
            faces_wf(face_views(cands@)),
            face_views(cands@).to_set() == link_faces(s.take(i as int), f@),
        decreases list@.len() - i,
    {
        assert(s[i as int] == list@[i as int]@);
        let ghost before = face_views(cands@);
        let inside = f.leq(&list[i]);
        proof {
            let a = link_faces(s.take(i as int), f@);
            let b = link_faces(s.take(i + 1), f@);
            let g = diff(s[i as int], f@);
            assert forall|h: Seq<u32>| a.contains(h) implies b.contains(h) by {
                let k = choose|k: int|
                    0 <= k < s.take(i as int).len() && subface(f@, #[trigger] s.take(i as int)[k])
                        && h == diff(s.take(i as int)[k], f@);
                assert(s.take(i + 1)[k] == s.take(i as int)[k]);
            }
            assert forall|h: Seq<u32>| b.contains(h) implies a.contains(h) || (inside && h == g) by {
                let k = choose|k: int|
                    0 <= k < s.take(i + 1).len() && subface(f@, #[trigger] s.take(i + 1)[k]) && h
                        == diff(s.take(i + 1)[k], f@);
                if k < i {
                    assert(s.take(i as int)[k] == s.take(i + 1)[k]);
                }
            }
            if inside {
                assert(s.take(i + 1)[i as int] == s[i as int]);
                assert(b.contains(g));
                assert(b =~= a.insert(g));
            } else {
                assert(b =~= a);
            }
        }
        if inside {
            let rest = list[i].difference(f);
            proof {
                lemma_diff(s[i as int], f@);
                lemma_increasing_unique(rest@, diff(s[i as int], f@));
                before.lemma_push_to_set_commute(rest@);
                assert(face_views(cands@.push(rest)) =~= before.push(rest@));
            }
            cands.push(rest);
        }
        i += 1;
    }
    assert(s.take(i as int) =~= s);
    SimplicialComplex::from_check_unique(cands)
}

/// Whether the edge from `old` to `new` may be pinched.
pub fn pinch_check(list: &Vec<Face>, old: u32, new: u32) -> (r: bool)
    requires
        faces_wf(face_views(list@)),
    ensures
        r == pinch_safe(face_views(list@), old, new),
{
    let mut ends: Vec<u32> = Vec::new();
    ends.push(old);
    ends.push(new);
    let edge = Face::from_vec(ends);
    proof {
        assert(ends@.to_set() =~= set![old, new]) by {
            assert(ends@[0] == old && ends@[1] == new);
            assert forall|w: u32| ends@.to_set().contains(w) == set![old, new].contains(w) by {
                if ends@.contains(w) {
                    let k = choose|k: int| 0 <= k < ends@.len() && ends@[k] == w;
                }
            }
        }
        lemma_face_of_seq(edge@);
    }
    let of_edge = link_of(list, &edge);
    let of_old = link_of(list, &Face::singleton(old));
    let of_new = link_of(list, &Face::singleton(new));
    let both = of_old.intersection_with_complex(&of_new);
    let a: u64 = of_edge.len() as u64;
    let b: u64 = both.len() as u64;
    if a > 0x1_0000_0000u64 || b > 0x1_0000_0000u64 - a {
        return false;
    }
    of_edge.is_deformation_retract(&both)
}

/// The family with the vertex `old` replaced by `new` in every member.
pub fn replace_vertex(list: &Vec<Face>, old: u32, new: u32) -> (r: Vec<Face>)
    requires
        faces_wf(face_views(list@)),
    ensures
        faces_wf(face_views(r@)),
        face_views(r@) == replaced(face_views(list@), old, new),
{
    let ghost x = face_views(list@);
    let mut out: Vec<Face> = Vec::new();
    let mut i: usize = 0;
    while i < list.len()
        invariant
            x == face_views(list@),
            faces_wf(x),
            i <= list@.len(),
            out@.len() == i,
            forall|k: int| 0 <= k < i ==> (#[trigger] out@[k]).wf() && out@[k]@ == replaced_face(
                x[k],
                old,
                new,
            ),
        decreases list@.len() - i,
    {
        assert(x[i as int] == list@[i as int]@);
        let mut f = list[i].clone();
        if f.remove(old) {
            f.insert(new);
            proof {
                lemma_face_of_seq(f@);
            }
        } else {
            proof {
                assert(x[i as int].to_set().remove(old) =~= x[i as int].to_set());
                lemma_increasing_unique(f@, x[i as int]);
            }
        }
        out.push(f);
        i += 1;
    }
    assert(face_views(out@) =~= replaced(x, old, new));
    out
}

/// The vertices below `u` that share a member of `list` with `u`, greatest
/// first.
pub fn neighbors_below(list: &Vec<Face>, u: u32) -> (r: Vec<u32>)
    requires
        faces_wf(face_views(list@)),
    ensures
        r@ == face_of(lower_neighbors(face_views(list@), u)).reverse(),
{
    let ghost x = face_views(list@);
    let mut acc = Face::new();
    let mut i: usize = 0;
    assert(acc.set() =~= lower_neighbors(x.take(0), u));
    while i < list.len()
        invariant
            x == face_views(list@),
            faces_wf(x),
            i <= list@.len(),
            acc.wf(),
            acc.set() == lower_neighbors(x.take(i as int), u),
        decreases list@.len() - i,
    {
        let face = &list[i];
        assert(x[i as int] == face@);
        let ghost before = lower_neighbors(x.take(i as int), u);
        let ghost after = lower_neighbors(x.take(i + 1), u);
        proof {
            assert forall|w: u32| before.contains(w) implies after.contains(w) by {
                let k = choose|k: int|
                    0 <= k < x.take(i as int).len() && (#[trigger] x.take(i as int)[k]).contains(u)
                        && x.take(i as int)[k].contains(w);
                assert(x.take(i + 1)[k] == x.take(i as int)[k]);
            }
            assert forall|w: u32| after.contains(w) implies before.contains(w) || (w < u
                && face@.contains(u) && face@.contains(w)) by {
                let k = choose|k: int|
                    0 <= k < x.take(i + 1).len() && (#[trigger] x.take(i + 1)[k]).contains(u)
                        && x.take(i + 1)[k].contains(w);
                if k < i {
                    assert(x.take(i as int)[k] == x.take(i + 1)[k]);
                }
            }
            assert(x.take(i + 1)[i as int] == face@);
        }
        if face.contains(u) {
            let n = face.len();
            let mut j: usize = 0;
            while j < n
                invariant
                    n == face@.len(),
                    face.wf(),
                    face@.contains(u),
                    j <= n,
                    acc.wf(),
                    before.subset_of(acc.set()),
                    acc.set().subset_of(after),
                    forall|m: int| 0 <= m < j && face@[m] < u ==> acc.set().contains(#[trigger] face@[m]),
                    forall|w: u32| w < u && face@.contains(w) ==> after.contains(w),
                decreases n - j,
            {
                let w = face.get(j);
                if w < u {
                    assert(face@.contains(w));
                    acc.insert(w);
                }
                j += 1;
            }
            proof {
                assert forall|w: u32| after.contains(w) implies acc.set().contains(w) by {
                    if !before.contains(w) {
                        let m = choose|m: int| 0 <= m < face@.len() && face@[m] == w;
                        assert(acc.set().contains(face@[m]));
                    }
                }
                assert(acc.set() =~= after);
            }
        } else {
            assert(before =~= after);
        }
        i += 1;
    }
    assert(x.take(i as int) =~= x);
    proof {
        lemma_face_of_seq(acc@);
    }
    let up = acc.to_vec();
    let mut down: Vec<u32> = Vec::new();
    let mut k: usize = up.len();
    while k > 0
        invariant
            k <= up@.len(),
            down@.len() == up@.len() - k,
            forall|m: int| 0 <= m < down@.len() ==> down@[m] == up@[up@.len() - 1 - m],
        decreases k,
    {
        k -= 1;
        down.push(up[k]);
    }
    assert(down@ =~= up@.reverse());
    down
}

/// The edge table of the complex that `list` spans.
pub fn edge_table_of(list: &Vec<Face>) -> (r: Vec<(u32, Vec<u32>)>)
    requires
        faces_wf(face_views(list@)),
    ensures
        r@.len() == edge_table(face_views(list@)).len(),
        forall|k: int|
            0 <= k < r@.len() ==> (#[trigger] r@[k]).0 == edge_table(face_views(list@))[k].0
                && r@[k].1@ == edge_table(face_views(list@))[k].1,
{
    let ghost x = face_views(list@);
    let vs = vertex_set_of(list);
    proof {
        lemma_face_of_seq(vs@);
    }
    let n = vs.len();
    let mut table: Vec<(u32, Vec<u32>)> = Vec::new();
    let mut k: usize = 0;
    while k < n
        invariant
            x == face_views(list@),
            faces_wf(x),
            n == vs@.len(),
            vs@ == face_of(vertices(x)),
            k <= n,
            table@.len() == k,
            forall|m: int|
                0 <= m < k ==> (#[trigger] table@[m]).0 == edge_table(x)[m].0 && table@[m].1@
                    == edge_table(x)[m].1,
        decreases n - k,
    {
        let u = vs.get(n - 1 - k);
        let adj = neighbors_below(list, u);
        table.push((u, adj));
        k += 1;
    }
    table
}

/// The candidate checks that are still allowed after one more: one fewer,
/// or any number where none is counted.
pub open spec fn less_fuel(fuel: Option<nat>) -> Option<nat> {
    match fuel {
        Some(n) => Some((n - 1) as nat),
        None => None,
    }
}

/// The allowance `fuel` with `d` more checks.
pub open spec fn more_fuel(fuel: Option<nat>, d: nat) -> Option<nat> {
    match fuel {
        Some(n) => Some(n + d),
        None => None,
    }
}

/// One sweep over the edge table, from the neighbor at place `j` of the
/// entry at place `k` on, with at most `fuel` candidate checks.
///
/// For every vertex of the table its neighbors are tried in their order.
/// The first one with which the edge may be pinched replaces the vertex in
/// every member of the family, and the sweep goes on to the next vertex.
/// The result is the family after the sweep, whether an edge was pinched
/// (`acc` says whether one was before), and whether the sweep stopped for
/// want of fuel before a candidate.
pub open spec fn run(
    x: Seq<Seq<u32>>,
    table: Seq<(u32, Seq<u32>)>,
    k: int,
    j: int,
    fuel: Option<nat>,
    acc: bool,
) -> (Seq<Seq<u32>>, bool, bool)
    decreases table.len() - k, (if 0 <= k < table.len() {
            table[k].1.len() - j
        } else {
            0
        }),
{
    if k < 0 || j < 0 || k >= table.len() {
        (x, acc, false)
    } else if j >= table[k].1.len() {
        run(x, table, k + 1, 0, fuel, acc)
    } else if fuel == Some(0nat) {
        (x, acc, true)
    } else if pinch_safe(x, table[k].0, table[k].1[j]) {
        run(replaced(x, table[k].0, table[k].1[j]), table, k + 1, 0, less_fuel(fuel), true)
    } else {
        run(x, table, k, j + 1, less_fuel(fuel), acc)
    }
}

/// The edge table from the entry at place `k` on fits the family `x`: its
/// vertices are vertices of `x` in falling order, and the neighbors of each
/// are vertices of `x` below it.
pub open spec fn table_fits(table: Seq<(u32, Seq<u32>)>, k: int, x: Seq<Seq<u32>>) -> bool {
    &&& forall|a: int| k <= a < table.len() ==> vertices(x).contains(#[trigger] table[a].0)
    &&& forall|a: int, b: int| k <= a < b < table.len() ==> (#[trigger] table[b]).0 < (#[trigger] table[a]).0
    &&& forall|a: int, m: int|
        k <= a < table.len() && 0 <= m < table[a].1.len() ==> vertices(x).contains(
            #[trigger] table[a].1[m],
        ) && table[a].1[m] < table[a].0
}

/// The edge table of a family fits the family.
pub proof fn lemma_edge_table_fits(x: Seq<Seq<u32>>)
    requires
        faces_wf(x),
    ensures
        table_fits(edge_table(x), 0, x),
{
    let table = edge_table(x);
    lemma_vertices_finite(x);
    lemma_face_of(vertices(x));
    let vs = face_of(vertices(x));
    let n = vs.len();
    assert forall|a: int| 0 <= a < table.len() implies vertices(x).contains(#[trigger] table[a].0) by {
        assert(vs.to_set().contains(vs[n - 1 - a]));
    }
    assert forall|a: int, b: int| 0 <= a < b < table.len() implies (#[trigger] table[b]).0 < (
    #[trigger] table[a]).0 by {
        assert(vs[n - 1 - b] < vs[n - 1 - a]);
    }
    assert forall|a: int, m: int|
        0 <= a < table.len() && 0 <= m < table[a].1.len() implies vertices(x).contains(
        #[trigger] table[a].1[m],
    ) && table[a].1[m] < table[a].0 by {
        let u = vs[n - 1 - a];
        let near = lower_neighbors(x, u);
        assert(near.subset_of(vertices(x)));
        vstd::set_lib::lemma_len_subset(near, vertices(x));
        lemma_face_of(near);
        let list = face_of(near);
        let w = table[a].1[m];
        assert(w == list[list.len() - 1 - m]);
        assert(list.to_set().contains(list[list.len() - 1 - m]));
        assert(near.contains(w));
    }
}

/// Replacing one vertex by another one takes the first out of the vertices
/// and leaves the others.
pub proof fn lemma_replaced_vertices(x: Seq<Seq<u32>>, u: u32, v: u32)
    requires
        faces_wf(x),
        vertices(x).contains(u),
        vertices(x).contains(v),
        u != v,
    ensures
        faces_wf(replaced(x, u, v)),
        vertices(replaced(x, u, v)) == vertices(x).remove(u),
{
    let y = replaced(x, u, v);
    assert forall|i: int| 0 <= i < x.len() implies strictly_increasing(#[trigger] y[i]) && y[i].to_set()
        == (if x[i].contains(u) {
        x[i].to_set().remove(u).insert(v)
    } else {
        x[i].to_set()
    }) by {
        if x[i].contains(u) {
            vstd::seq_lib::seq_to_set_is_finite(x[i]);
            lemma_face_of(x[i].to_set().remove(u).insert(v));
        }
    }
    assert forall|w: u32| vertices(y).contains(w) == vertices(x).remove(u).contains(w) by {
        if vertices(y).contains(w) {
            let i = choose|i: int| 0 <= i < y.len() && (#[trigger] y[i]).contains(w);
            assert(y[i].to_set().contains(w));
            if x[i].contains(u) {
                if w != v {
                    assert(x[i].to_set().contains(w));
                    assert(x[i].contains(w));
                }
            } else {
                assert(x[i].contains(w));
            }
        }
        if vertices(x).contains(w) && w != u {
            let i = choose|i: int| 0 <= i < x.len() && (#[trigger] x[i]).contains(w);
            assert(x[i].to_set().contains(w));
            assert(y[i].to_set().contains(w));
            assert(y[i].contains(w));
        }
    }
    assert(vertices(y) =~= vertices(x).remove(u));
}

/// A sweep takes vertices away and adds none; unless it pinches no edge,
/// it takes one away at least.
pub proof fn lemma_run_vertices(
    x: Seq<Seq<u32>>,
    table: Seq<(u32, Seq<u32>)>,
    k: int,
    j: int,
    fuel: Option<nat>,
    acc: bool,
)
    requires
        faces_wf(x),
        0 <= k,
        0 <= j,
        table_fits(table, k, x),
    ensures
        faces_wf(run(x, table, k, j, fuel, acc).0),
        vertices(run(x, table, k, j, fuel, acc).0).subset_of(vertices(x)),
        run(x, table, k, j, fuel, acc).1 ==> acc || vertices(run(x, table, k, j, fuel, acc).0).len()
            < vertices(x).len(),
        run(x, table, k, j, fuel, acc).0.len() == x.len(),
    decreases table.len() - k, (if 0 <= k < table.len() {
            table[k].1.len() - j
        } else {
            0
        }),
{
    lemma_vertices_finite(x);
    if k >= table.len() {
    } else if j >= table[k].1.len() {
        lemma_run_vertices(x, table, k + 1, 0, fuel, acc);
    } else if fuel == Some(0nat) {
    } else if pinch_safe(x, table[k].0, table[k].1[j]) {
        let u = table[k].0;
        let v = table[k].1[j];
        let y = replaced(x, u, v);
        lemma_replaced_vertices(x, u, v);
        assert(table_fits(table, k + 1, y)) by {
            assert forall|a: int| k + 1 <= a < table.len() implies vertices(y).contains(
                #[trigger] table[a].0,
            ) by {
                assert(table[a].0 < table[k].0);
            }
            assert forall|a: int, m: int|
                k + 1 <= a < table.len() && 0 <= m < table[a].1.len() implies vertices(y).contains(
                #[trigger] table[a].1[m],
            ) && table[a].1[m] < table[a].0 by {
                assert(table[a].0 < table[k].0);
            }
        }
        lemma_run_vertices(y, table, k + 1, 0, less_fuel(fuel), true);
        lemma_vertices_finite(y);
        let z = run(y, table, k + 1, 0, less_fuel(fuel), true).0;
        vstd::set_lib::lemma_len_subset(vertices(z), vertices(y));
    } else {
        lemma_run_vertices(x, table, k, j + 1, less_fuel(fuel), acc);
    }
}

/// A sweep of pinching does not add vertices, and where it pinches an edge
/// the complex has fewer vertices afterwards.
pub proof fn lemma_pinch_vertices(x: Seq<Seq<u32>>, fuel: Option<nat>, y: Seq<Seq<u32>>, pinched: bool)
    requires
        is_complex(x),
        pinch_outcome(x, fuel, y, pinched),
    ensures
        vertices(x).finite(),
        vertices(y).len() <= vertices(x).len(),
        pinched ==> vertices(y).len() < vertices(x).len(),
{
    let res = run(x, edge_table(x), 0, 0, fuel, false);
    lemma_edge_table_fits(x);
    lemma_run_vertices(x, edge_table(x), 0, 0, fuel, false);
    lemma_vertices_finite(x);
    lemma_vertices_finite(res.0);
    vstd::set_lib::lemma_len_subset(vertices(res.0), vertices(x));
    lemma_complex_of_vertices(res.0);
    let c = complex_of(res.0.to_set());
    if !res.2 {
        vstd::seq_lib::seq_to_set_is_finite(res.0);
        assert forall|h: Seq<u32>| res.0.to_set().contains(h) implies strictly_increasing(h) by {
            let i = choose|i: int| 0 <= i < res.0.len() && res.0[i] == h;
        }
        crate::family::lemma_complex_of(res.0.to_set());
        lemma_relabeled_reverse_vertices(c);
    }
}

/// What a sweep leaves of the family `swept`: the complex that it spans,
/// and, where the sweep was not stopped, that complex with its vertices
/// renamed against the order of their labels.
pub open spec fn finish(swept: Seq<Seq<u32>>, stopped: bool) -> Seq<Seq<u32>> {
    if stopped {
        complex_of(swept.to_set())
    } else {
        relabeled_reverse(complex_of(swept.to_set()))
    }
}

/// `y` and `pinched` are what a sweep with the allowance `fuel` makes of the
/// complex `x`.
pub open spec fn pinch_outcome(x: Seq<Seq<u32>>, fuel: Option<nat>, y: Seq<Seq<u32>>, pinched: bool) -> bool {
    let res = run(x, edge_table(x), 0, 0, fuel, false);
    pinched == res.1 && y == finish(res.0, res.2)
}

/// The entries of an edge table.
pub open spec fn table_view(t: Seq<(u32, Vec<u32>)>) -> Seq<(u32, Seq<u32>)> {
    t.map_values(|e: (u32, Vec<u32>)| (e.0, e.1@))
}

/// The allowance that a budget stands for.
pub open spec fn budget_view(budget: Option<u64>) -> Option<nat> {
    match budget {
        Some(b) => Some(b as nat),
        None => None,
    }
}

/// Sweeps over the edge table and pinches. The sweep stops before a
/// candidate where the budget is used up or the flag is set. Returns whether
/// an edge was pinched, whether the sweep stopped, and the number of
/// candidate checks that it was good for.
pub(crate) fn sweep(
    list: &mut Vec<Face>,
    table: &Vec<(u32, Vec<u32>)>,
    budget: Option<u64>,
    flag: &Option<Arc<AtomicBool>>,
) -> (r: (bool, bool, Ghost<Option<nat>>))
    requires
        faces_wf(face_views(old(list)@)),
    ensures
        faces_wf(face_views(final(list)@)),
        final(list)@.len() == old(list)@.len(),
        run(face_views(old(list)@), table_view(table@), 0, 0, r.2@, false) == (
            face_views(final(list)@),
            r.0,
            r.1,
        ),
        flag is None ==> r.2@ == budget_view(budget),
{
    let ghost x0 = face_views(list@);
    let ghost tv = table_view(table@);
    let mut k: usize = 0;
    let mut j: usize = 0;
    let mut acc = false;
    let mut left = budget;
    let mut stopped = false;
    let ghost mut done: nat = 0;
    proof {
        assert forall|f: Option<nat>| #[trigger]
            run(x0, tv, 0, 0, more_fuel(f, done), false) == run(x0, tv, 0, 0, f, false) by {
            assert(more_fuel(f, 0) == f);
        }
    }
    loop
        invariant_except_break
            !stopped,
        invariant
            tv == table_view(table@),
            k <= table@.len(),
            k < table@.len() ==> j <= table@[k as int].1@.len(),
            faces_wf(face_views(list@)),
            list@.len() == old(list)@.len(),
            forall|f: Option<nat>| #[trigger]
                run(x0, tv, 0, 0, more_fuel(f, done), false) == run(
                    face_views(list@),
                    tv,
                    k as int,
                    j as int,
                    f,
                    acc,
                ),
            more_fuel(budget_view(left), done) == budget_view(budget),
        ensures
            stopped ==> k < table@.len() && j < table@[k as int].1@.len(),
            !stopped ==> k >= table@.len(),
            stopped && flag is None ==> left == Some(0u64),
        decreases table@.len() - k, (if k < table@.len() {
                table@[k as int].1@.len() - j
            } else {
                0
            }),
    {
        if k >= table.len() {
            break ;
        }
        let ghost x = face_views(list@);
        assert(tv[k as int] == (table@[k as int].0, table@[k as int].1@));
        let u = table[k].0;
        let adj = &table[k].1;
        if j >= adj.len() {
            proof {
                assert forall|f: Option<nat>| #[trigger]
                    run(x0, tv, 0, 0, more_fuel(f, done), false) == run(
                        x,
                        tv,
                        k + 1,
                        0,
                        f,
                        acc,
                    ) by {
                    assert(run(x, tv, k as int, j as int, f, acc) == run(x, tv, k + 1, 0, f, acc));
                }
            }
            k += 1;
            j = 0;
        } else {
            let spent = match left {
                Some(l) => l == 0,
                None => false,
            };
            if spent || is_set(flag) {
                stopped = true;
                break ;
            }
            let v = adj[j];
            let safe = pinch_check(list, u, v);
            let ghost x1 = if safe {
                replaced(x, u, v)
            } else {
                x
            };
            let ghost k1 = if safe {
                k + 1
            } else {
                k as int
            };
            let ghost j1 = if safe {
                0
            } else {
                j + 1
            };
            proof {
                assert forall|f: Option<nat>| #[trigger]
                    run(x0, tv, 0, 0, more_fuel(f, done + 1), false) == run(
                        x1,
                        tv,
                        k1,
                        j1,
                        f,
                        acc || safe,
                    ) by {
                    let f1 = more_fuel(f, 1);
                    assert(more_fuel(f1, done) == more_fuel(f, done + 1));
                    assert(run(x0, tv, 0, 0, more_fuel(f1, done), false) == run(
                        x,
                        tv,
                        k as int,
                        j as int,
                        f1,
                        acc,
                    ));
                    assert(f1 != Some(0nat));
                    assert(less_fuel(f1) == f);
                }
            }
            if safe {
                let next = replace_vertex(list, u, v);
                *list = next;
                acc = true;
                k += 1;
                j = 0;
            } else {
                j += 1;
            }
            left = match left {
                Some(l) => Some((l - 1) as u64),
                None => None,
            };
            proof {
                done = done + 1;
            }
        }
    }
    let ghost fuel = if stopped {
        Some(done)
    } else {
        budget_view(budget)
    };
    proof {
        let x = face_views(list@);
        if stopped {
            assert(more_fuel(Some(0nat), done) == Some(done));
            assert(run(x0, tv, 0, 0, more_fuel(Some(0nat), done), false) == run(
                x,
                tv,
                k as int,
                j as int,
                Some(0nat),
                acc,
            ));
        } else {
            assert(run(x0, tv, 0, 0, more_fuel(budget_view(left), done), false) == run(
                x,
                tv,
                k as int,
                j as int,
                budget_view(left),
                acc,
            ));
        }
    }
    (acc, stopped, Ghost(fuel))
}

impl SimplicialComplex {
    /// One sweep of edge pinching with a budget of candidate checks, or
    /// without a bound where `budget` is `None`. Returns whether an edge was
    /// pinched and whether the sweep stopped for want of budget.
    ///
    /// After the sweep the complex is made maximal again; after a sweep that
    /// was not stopped its vertices are renamed as well, against the order
    /// of their labels, so that a further sweep tries the edges in another
    /// order.
    pub fn pinch_sweep(&mut self, budget: Option<u64>) -> (r: (bool, bool))
        requires
            old(self).wf(),
            old(self).fits(),
        ensures
            final(self).wf(),
            final(self).fits(),
            pinch_outcome(old(self)@, budget_view(budget), final(self)@, r.0),
            r.1 == run(old(self)@, edge_table(old(self)@), 0, 0, budget_view(budget), false).2,
            vertices(final(self)@).len() <= vertices(old(self)@).len(),
            r.0 ==> vertices(final(self)@).len() < vertices(old(self)@).len(),
    {
        let ghost x = self@;
        let table = edge_table_of(self.facets());
        let mut list = clone_faces(self.facets());
        assert(table_view(table@) =~= edge_table(self@));
        let (pinched, stopped, fuel) = sweep(&mut list, &table, budget, &None);
        *self = SimplicialComplex::from_check_unique(list);
        if !stopped {
            self.relabel_vertices_reverse();
        }
        proof {
            lemma_pinch_vertices(x, budget_view(budget), self@, pinched);
        }
        (pinched, stopped)
    }

    /// One sweep of edge pinching, which looks at the cancellation flag
    /// before every candidate and stops where it is set. Returns whether an
    /// edge was pinched.
    ///
    /// The outcome is that of [`Self::pinch_sweep`] with some budget; without
    /// a flag it is that of the sweep without a bound. Where the flag is set
    /// at the start nothing is done.
    pub fn pinch(&mut self, intrpt: &Option<Arc<AtomicBool>>) -> (pinched: bool)
        requires
            old(self).wf(),
            old(self).fits(),
        ensures
            final(self).wf(),
            final(self).fits(),
            (final(self)@ == old(self)@ && !pinched) || exists|fuel: Option<nat>|
                pinch_outcome(old(self)@, fuel, final(self)@, pinched),
            intrpt is None ==> pinch_outcome(old(self)@, None, final(self)@, pinched),
            vertices(final(self)@).len() <= vertices(old(self)@).len(),
            pinched ==> vertices(final(self)@).len() < vertices(old(self)@).len(),
    {
        if is_set(intrpt) {
            return false;
        }
        let table = edge_table_of(self.facets());
        let mut list = clone_faces(self.facets());
        assert(table_view(table@) =~= edge_table(self@));
        let (pinched, stopped, fuel) = sweep(&mut list, &table, None, intrpt);
        *self = SimplicialComplex::from_check_unique(list);
        if !stopped {
            self.relabel_vertices_reverse();
        }
        proof {
            assert(pinch_outcome(old(self)@, fuel@, self@, pinched));
            lemma_pinch_vertices(old(self)@, fuel@, self@, pinched);
        }
        pinched
    }
}

} // verus!
