//! The contractibility test and the accretion of facets that it rests on.
//!
//! The test is one-sided: where it says that a complex is contractible, the
//! complex is; where it cannot tell, it says that the complex is not.

use crate::complex::{lemma_single_face, SimplicialComplex};
use crate::face::{lemma_increasing_no_duplicates, lemma_increasing_unique, strictly_increasing, Face};
use crate::family::{
    complex_of, face_views, faces_wf, facet_set, is_complex, is_face, label_limit,
    lemma_complex_of, lemma_vertices_finite, maximal_in, spans, subface, vertices,
};
use crate::nerve::{
    height, is_nerve_of, lemma_double_nerve_height, lemma_height_le_vertices, lemma_nerve, nerve,
    size,
};
use crate::order::{precedes, strictly_ordered};
use vstd::prelude::*;

verus! {

/// A complex with fewer vertices is not tested by accretion.
pub const MIN_VERTICES: usize = 5;

/// A complex with fewer facets is not tested by accretion.
pub const MIN_FACETS: usize = 5;

/// A complex that is lower is not tested by accretion.
pub const MIN_HEIGHT: usize = 3;

/// The vertices of `a` that `b` has too, in increasing order.
pub open spec fn meet(a: Seq<u32>, b: Seq<u32>) -> Seq<u32> {
    a.filter(|v: u32| b.contains(v))
}

/// The meet of two faces is the face of their common vertices.
pub proof fn lemma_meet(a: Seq<u32>, b: Seq<u32>)
    requires
        strictly_increasing(a),
    ensures
        strictly_increasing(meet(a, b)),
        meet(a, b).to_set() == a.to_set().intersect(b.to_set()),
        meet(a, b).len() <= a.len(),
        forall|i: int| 0 <= i < meet(a, b).len() ==> a.contains(#[trigger] meet(a, b)[i]),
    decreases a.len(),
{
    reveal(Seq::filter);
    let p = |v: u32| b.contains(v);
    if a.len() == 0 {
        assert(meet(a, b).to_set() =~= a.to_set().intersect(b.to_set()));
    } else {
        let a0 = a.drop_last();
        let x = a.last();
        assert(strictly_increasing(a0));
        lemma_meet(a0, b);
        let m0 = meet(a0, b);
        let m = meet(a, b);
        assert forall|i: int| 0 <= i < m0.len() implies #[trigger] m0[i] < x by {
            assert(a0.contains(m0[i]));
            let k = choose|k: int| 0 <= k < a0.len() && a0[k] == m0[i];
            assert(a[k] < a[a.len() - 1]);
        }
        assert(a =~= a0.push(x));
        a0.lemma_push_to_set_commute(x);
        if b.contains(x) {
            assert(m == m0.push(x));
            m0.lemma_push_to_set_commute(x);
            assert(m.to_set() =~= a.to_set().intersect(b.to_set()));
            assert forall|i: int| 0 <= i < m.len() implies a.contains(#[trigger] m[i]) by {
                if i < m0.len() {
                    assert(a0.contains(m0[i]));
                    let k = choose|k: int| 0 <= k < a0.len() && a0[k] == m0[i];
                    assert(a[k] == m[i]);
                } else {
                    assert(a[a.len() - 1] == m[i]);
                }
            }
        } else {
            assert(m == m0);
            assert(m.to_set() =~= a.to_set().intersect(b.to_set()));
            assert forall|i: int| 0 <= i < m.len() implies a.contains(#[trigger] m[i]) by {
                assert(a0.contains(m0[i]));
                let k = choose|k: int| 0 <= k < a0.len() && a0[k] == m0[i];
                assert(a[k] == m[i]);
            }
        }
    }
}

/// The meets of `f` with the members of `s`, but for the empty ones.
pub open spec fn intersections(s: Seq<Seq<u32>>, f: Seq<u32>) -> Set<Seq<u32>> {
    Set::new(
        |g: Seq<u32>| g.len() > 0 && exists|i: int| 0 <= i < s.len() && g == meet(#[trigger] s[i], f),
    )
}

/// The part of the complex spanned by `s` that lies in the face `f`.
pub open spec fn section(s: Seq<Seq<u32>>, f: Seq<u32>) -> Seq<Seq<u32>> {
    complex_of(intersections(s, f))
}

/// The section of a family of faces by a face is a complex inside that
/// face, with no more facets than the family has members.
pub proof fn lemma_section(s: Seq<Seq<u32>>, f: Seq<u32>)
    requires
        faces_wf(s),
        strictly_increasing(f),
    ensures
        is_complex(section(s, f)),
        section(s, f).to_set() == facet_set(intersections(s, f)),
        spans(section(s, f), intersections(s, f)),
        section(s, f).len() <= s.len() || section(s, f) == seq![Seq::<u32>::empty()],
        vertices(section(s, f)).finite(),
        vertices(section(s, f)).len() <= f.len(),
{
    let w = intersections(s, f);
    let c = section(s, f);
    let places = vstd::set_lib::set_int_range(0, s.len() as int);
    let to_meet = |i: int| meet(s[i], f);
    vstd::set_lib::lemma_int_range(0, s.len() as int);
    places.lemma_map_finite(to_meet);
    vstd::set_lib::lemma_map_size_bound(places, places.map(to_meet), to_meet);
    assert(w.subset_of(places.map(to_meet))) by {
        assert forall|g: Seq<u32>| w.contains(g) implies places.map(to_meet).contains(g) by {
            let i = choose|i: int| 0 <= i < s.len() && g == meet(#[trigger] s[i], f);
            assert(places.contains(i));
        }
    }
    vstd::set_lib::lemma_len_subset(w, places.map(to_meet));
    assert forall|g: Seq<u32>| w.contains(g) implies strictly_increasing(g) by {
        let i = choose|i: int| 0 <= i < s.len() && g == meet(#[trigger] s[i], f);
        lemma_meet(s[i], f);
    }
    lemma_complex_of(w);
    lemma_vertices_finite(c);
    lemma_increasing_no_duplicates(f);
    assert(vertices(c).subset_of(f.to_set())) by {
        assert forall|v: u32| vertices(c).contains(v) implies f.to_set().contains(v) by {
            let k = choose|k: int| 0 <= k < c.len() && (#[trigger] c[k]).contains(v);
            assert(c.to_set().contains(c[k]));
            assert(w.contains(c[k]));
            let i = choose|i: int| 0 <= i < s.len() && c[k] == meet(#[trigger] s[i], f);
            lemma_meet(s[i], f);
            assert(meet(s[i], f).to_set().contains(v));
        }
    }
    vstd::set_lib::lemma_len_subset(vertices(c), f.to_set());
}

/// Whether `g` shares a vertex with a member of `s`.
pub open spec fn touches(s: Seq<Seq<u32>>, g: Seq<u32>) -> bool {
    exists|i: int| 0 <= i < s.len() && meet(#[trigger] s[i], g).len() > 0
}

/// The places of `t` whose face shares a vertex with a member of `s`.
pub open spec fn touching(s: Seq<Seq<u32>>, t: Seq<Seq<u32>>) -> spec_fn(int) -> bool {
    |j: int| touches(s, t[j])
}

/// The places of `t` whose face shares no vertex with a member of `s`.
pub open spec fn apart(s: Seq<Seq<u32>>, t: Seq<Seq<u32>>) -> spec_fn(int) -> bool {
    |j: int| !touches(s, t[j])
}

/// Whether `g` meets the face `f` in a face that `sect` does not have.
pub open spec fn fresh_contact(f: Seq<u32>, g: Seq<u32>, sect: Seq<Seq<u32>>) -> bool {
    meet(f, g).len() > 0 && !is_face(sect, meet(f, g))
}

/// The places of `t` whose face meets `f` in a face that `sect` lacks.
pub open spec fn fresh(t: Seq<Seq<u32>>, f: Seq<u32>, sect: Seq<Seq<u32>>) -> spec_fn(int) -> bool {
    |j: int| fresh_contact(f, t[j], sect)
}

/// The places of `t` whose face meets `f` in a face of `sect`, or not at all.
pub open spec fn stale(t: Seq<Seq<u32>>, f: Seq<u32>, sect: Seq<Seq<u32>>) -> spec_fn(int) -> bool {
    |j: int| !fresh_contact(f, t[j], sect)
}

/// Whether every entry of `q` is a place of a list of `n` entries.
pub open spec fn places_in(q: Seq<int>, n: nat) -> bool {
    forall|i: int| 0 <= i < q.len() ==> 0 <= #[trigger] q[i] < n
}

/// A state of the accretion that grows `s` inside the complex `t`.
pub open spec fn accrete_ok(s: Seq<Seq<u32>>, t: Seq<Seq<u32>>, q: Seq<int>, r: Seq<int>) -> bool {
    &&& faces_wf(s)
    &&& s.len() > 0
    &&& faces_wf(t)
    &&& strictly_ordered(t)
    &&& places_in(q, t.len())
    &&& places_in(r, t.len())
}

/// A list splits into those of its entries that meet a condition and those
/// that do not.
pub proof fn lemma_partition<A>(r: Seq<A>, p: spec_fn(A) -> bool, np: spec_fn(A) -> bool)
    requires
        forall|a: A| #[trigger] np(a) == !p(a),
    ensures
        r.filter(p).len() + r.filter(np).len() == r.len(),
        forall|i: int| 0 <= i < r.filter(p).len() ==> r.contains(#[trigger] r.filter(p)[i]),
        forall|i: int| 0 <= i < r.filter(np).len() ==> r.contains(#[trigger] r.filter(np)[i]),
    decreases r.len(),
{
    reveal(Seq::filter);
    if r.len() > 0 {
        let r0 = r.drop_last();
        lemma_partition(r0, p, np);
        assert forall|i: int| 0 <= i < r.filter(p).len() implies r.contains(
            #[trigger] r.filter(p)[i],
        ) by {
            if i < r0.filter(p).len() {
                assert(r0.contains(r0.filter(p)[i]));
                let k = choose|k: int| 0 <= k < r0.len() && r0[k] == r0.filter(p)[i];
                assert(r[k] == r.filter(p)[i]);
            } else {
                assert(r[r.len() - 1] == r.filter(p)[i]);
            }
        }
        assert forall|i: int| 0 <= i < r.filter(np).len() implies r.contains(
            #[trigger] r.filter(np)[i],
        ) by {
            if i < r0.filter(np).len() {
                assert(r0.contains(r0.filter(np)[i]));
                let k = choose|k: int| 0 <= k < r0.len() && r0[k] == r0.filter(np)[i];
                assert(r[k] == r.filter(np)[i]);
            } else {
                assert(r[r.len() - 1] == r.filter(np)[i]);
            }
        }
    }
}

/// The entries that a condition picks from a list of places are places.
pub proof fn lemma_filter_places(r: Seq<int>, p: spec_fn(int) -> bool, np: spec_fn(int) -> bool, n: nat)
    requires
        places_in(r, n),
        forall|a: int| #[trigger] np(a) == !p(a),
    ensures
        places_in(r.filter(p), n),
        places_in(r.filter(np), n),
        r.filter(p).len() + r.filter(np).len() == r.len(),
{
    lemma_partition(r, p, np);
    assert forall|i: int| 0 <= i < r.filter(p).len() implies 0 <= #[trigger] r.filter(p)[i] < n by {
        let k = choose|k: int| 0 <= k < r.len() && r[k] == r.filter(p)[i];
    }
    assert forall|i: int| 0 <= i < r.filter(np).len() implies 0 <= #[trigger] r.filter(np)[i]
        < n by {
        let k = choose|k: int| 0 <= k < r.len() && r[k] == r.filter(np)[i];
    }
}

/// The accretion: grows the family `s` by faces of the complex `t`.
///
/// `q` lists the places of `t` that wait to be tried, first come first
/// tried; `r` lists the places that stay behind. The face at the head of
/// `q` is added to `s` where the section of `s` by it is contractible; then
/// the faces of `r` that meet it in a face which that section lacks join the
/// queue. Otherwise the face goes to the end of `r`. The result is the
/// family that `s` has grown to, and the places that stayed behind.
pub open spec fn accrete(s: Seq<Seq<u32>>, t: Seq<Seq<u32>>, q: Seq<int>, r: Seq<int>) -> (
    Seq<Seq<u32>>,
    Seq<int>,
)
    decreases s.len() + q.len() + r.len() + height(t), 0nat, q.len() + r.len(), q.len(),
    when accrete_ok(s, t, q, r)
{
    if q.len() == 0 {
        (s, r)
    } else {
        let f = t[q[0]];
        let sect = section(s, f);
        proof {
            lemma_section(s, f);
            if q[0] > 0 {
                assert(precedes(t[0], t[q[0]]));
            }
            lemma_single_face(Seq::<u32>::empty());
            lemma_partition(r, fresh(t, f, sect), stale(t, f, sect));
        }
        if contractible(sect) {
            accrete(s.push(f), t, q.skip(1) + r.filter(fresh(t, f, sect)), r.filter(stale(t, f, sect)))
        } else {
            accrete(s, t, q.skip(1), r.push(q[0]))
        }
    }
}

/// The accretion of `s` inside `t`, begun with the places in `among`: those
/// whose face shares a vertex with `s` wait to be tried, the others stay
/// behind.
pub open spec fn accretion(s: Seq<Seq<u32>>, t: Seq<Seq<u32>>, among: Seq<int>) -> (
    Seq<Seq<u32>>,
    Seq<int>,
)
    decreases s.len() + among.len() + height(t), 0nat, among.len() + 1, 0nat,
{
    proof {
        lemma_partition(among, touching(s, t), apart(s, t));
    }
    accrete(s, t, among.filter(touching(s, t)), among.filter(apart(s, t)))
}

/// The places of `t` from `from` on.
pub open spec fn places_from(t: Seq<Seq<u32>>, from: int) -> Seq<int> {
    Seq::new((t.len() - from) as nat, |i: int| i + from)
}

/// Whether the accretion that starts with the first facet of `z` takes in
/// all the others: whether `z` is seen to retract onto its first facet.
pub open spec fn retracts_to_first(z: Seq<Seq<u32>>) -> bool
    decreases z.len() + height(z), 0nat, z.len() + 2, 0nat,
    when z.len() > 0
{
    accretion(seq![z[0]], z, places_from(z, 1)).1.len() == 0
}

/// What the contractibility test answers.
///
/// The empty complex is not contractible; a single face is; a discrete
/// complex of several points is not; two facets are contractible exactly if
/// they share a vertex. Otherwise the nerve is taken. Where it has other
/// than as many facets as the complex has vertices, the answer is that
/// of the nerve. Else a complex with few vertices, few facets or a low
/// height is not seen to be contractible, and for the others the lower one
/// of the complex and its nerve is tested for a retraction onto its first
/// facet.
pub open spec fn contractible(x: Seq<Seq<u32>>) -> bool
    decreases size(x), 1nat, 0nat, 0nat,
    when is_complex(x) && x.len() <= label_limit()
{
    if height(x) == 0 {
        false
    } else if x.len() == 1 {
        true
    } else if height(x) == 1 {
        false
    } else if x.len() == 2 {
        vertices(x).len() != x[0].len() + x[1].len()
    } else {
        let n = nerve(x);
        proof {
            lemma_nerve(x);
            lemma_nerve(n);
            lemma_height_le_vertices(x);
            lemma_double_nerve_height(x, n, nerve(n));
        }
        if vertices(x).len() != n.len() {
            contractible(n)
        } else if vertices(x).len() < MIN_VERTICES || x.len() < MIN_FACETS || height(x)
            < MIN_HEIGHT {
            false
        } else if height(x) > height(n) {
            retracts_to_first(n)
        } else {
            retracts_to_first(nerve(n))
        }
    }
}

/// The places that a list of indices holds.
pub open spec fn idx_view(v: Seq<usize>) -> Seq<int> {
    v.map_values(|i: usize| i as int)
}

/// Two faces have an empty meet exactly if they share no vertex.
pub proof fn lemma_meet_empty(a: Seq<u32>, b: Seq<u32>)
    requires
        strictly_increasing(a),
    ensures
        (meet(a, b).len() == 0) == a.to_set().disjoint(b.to_set()),
{
    lemma_meet(a, b);
    lemma_increasing_no_duplicates(meet(a, b));
    let m = meet(a, b);
    if m.len() == 0 {
        assert forall|v: u32| !(a.to_set().contains(v) && b.to_set().contains(v)) by {
            if a.to_set().contains(v) && b.to_set().contains(v) {
                assert(m.to_set().contains(v));
                let k = choose|k: int| 0 <= k < m.len() && m[k] == v;
            }
        }
    } else {
        assert(m.to_set().contains(m[0]));
    }
}

/// The meet of two faces, or `None` where they share no vertex.
pub fn meet_of(a: &Face, b: &Face) -> (r: Option<Face>)
    requires
        a.wf(),
        b.wf(),
    ensures
        r is None <==> meet(a@, b@).len() == 0,
        r matches Some(m) ==> m.wf() && m@ == meet(a@, b@),
{
    let r = a.maybe_intersection(b);
    proof {
        lemma_meet(a@, b@);
        lemma_meet_empty(a@, b@);
        if r is Some {
            lemma_increasing_unique(r->0@, meet(a@, b@));
        }
    }
    r
}

/// Whether `g` shares a vertex with a member of `s`.
pub fn touches_any(s: &Vec<Face>, g: &Face) -> (r: bool)
    requires
        faces_wf(face_views(s@)),
        g.wf(),
    ensures
        r == touches(face_views(s@), g@),
{
    let ghost sv = face_views(s@);
    let mut i: usize = 0;
    while i < s.len()
        invariant
            sv == face_views(s@),
            faces_wf(sv),
            g.wf(),
            i <= s@.len(),
            forall|k: int| 0 <= k < i ==> meet(#[trigger] sv[k], g@).len() == 0,
        decreases s@.len() - i,
    {
        assert(sv[i as int] == s@[i as int]@);
        proof {
            lemma_meet_empty(sv[i as int], g@);
        }
        if !s[i].is_disjoint(g) {
            return true;
        }
        i += 1;
    }
    false
}

/// Adds to `out` the meets of `f` with the members of `s`, but for the
/// empty ones.
pub fn gather_meets(s: &Vec<Face>, f: &Face, out: &mut Vec<Face>)
    requires
        faces_wf(face_views(s@)),
        f.wf(),
        faces_wf(face_views(old(out)@)),
    ensures
        faces_wf(face_views(final(out)@)),
        face_views(final(out)@).to_set() == face_views(old(out)@).to_set().union(
            intersections(face_views(s@), f@),
        ),
{
    let ghost sv = face_views(s@);
    let ghost start = face_views(out@).to_set();
    let mut i: usize = 0;
    assert(start.union(intersections(sv.take(0), f@)) =~= start);
    while i < s.len()
        invariant
            sv == face_views(s@),
            faces_wf(sv),
            f.wf(),
            i <= s@.len(),
            faces_wf(face_views(out@)),
            face_views(out@).to_set() == start.union(intersections(sv.take(i as int), f@)),
        decreases s@.len() - i,
    {
        assert(sv[i as int] == s@[i as int]@);
        let ghost before = face_views(out@);
        let m = meet_of(&s[i], f);
        proof {
            let a = intersections(sv.take(i as int), f@);
            let b = intersections(sv.take(i + 1), f@);
            let g = meet(sv[i as int], f@);
            assert forall|h: Seq<u32>| a.contains(h) implies b.contains(h) by {
                let k = choose|k: int|
                    0 <= k < sv.take(i as int).len() && h == meet(#[trigger] sv.take(i as int)[k], f@);
                assert(sv.take(i + 1)[k] == sv.take(i as int)[k]);
            }
            assert forall|h: Seq<u32>| b.contains(h) implies a.contains(h) || h == g by {
                let k = choose|k: int|
                    0 <= k < sv.take(i + 1).len() && h == meet(#[trigger] sv.take(i + 1)[k], f@);
                if k < i {
                    assert(sv.take(i as int)[k] == sv.take(i + 1)[k]);
                }
            }
            if g.len() > 0 {
                assert(sv.take(i + 1)[i as int] == sv[i as int]);
                assert(b.contains(g));
                assert(b =~= a.insert(g));
            } else {
                assert(b =~= a);
            }
        }
        match m {
            Some(face) => {
                proof {
                    before.lemma_push_to_set_commute(face@);
                    assert(face_views(out@.push(face)) =~= before.push(face@));
                    assert(start.union(intersections(sv.take(i as int), f@)).insert(face@)
                        =~= start.union(intersections(sv.take(i + 1), f@)));
                }
                out.push(face);
            },
            None => {},
        }
        i += 1;
    }
    assert(sv.take(i as int) =~= sv);
}

/// The part of the complex spanned by `s` that lies in the face `f`.
pub fn section_of(s: &Vec<Face>, f: &Face) -> (r: SimplicialComplex)
    requires
        faces_wf(face_views(s@)),
        s@.len() <= label_limit(),
        f.wf(),
    ensures
        r.wf(),
        r.fits(),
        r@ == section(face_views(s@), f@),
{
    let mut cands: Vec<Face> = Vec::new();
    let ghost none = face_views(cands@).to_set();
    assert(none =~= Set::<Seq<u32>>::empty());
    gather_meets(s, f, &mut cands);
    proof {
        assert(none.union(intersections(face_views(s@), f@)) =~= intersections(
            face_views(s@),
            f@,
        ));
        lemma_section(face_views(s@), f@);
    }
    SimplicialComplex::from_check_unique(cands)
}

/// Splits the places of `t` from `from` on into those whose face shares a
/// vertex with `s` and the others.
pub fn split_touching(s: &Vec<Face>, t: &Vec<Face>, from: usize) -> (r: (Vec<usize>, Vec<usize>))
    requires
        faces_wf(face_views(s@)),
        faces_wf(face_views(t@)),
        from <= t@.len(),
    ensures
        idx_view(r.0@) == places_from(face_views(t@), from as int).filter(
            touching(face_views(s@), face_views(t@)),
        ),
        idx_view(r.1@) == places_from(face_views(t@), from as int).filter(
            apart(face_views(s@), face_views(t@)),
        ),
{
    let ghost sv = face_views(s@);
    let ghost tv = face_views(t@);
    let ghost all = places_from(tv, from as int);
    let mut queue: Vec<usize> = Vec::new();
    let mut rem: Vec<usize> = Vec::new();
    let mut j: usize = from;
    proof {
        reveal(Seq::filter);
        assert(all.take(0).filter(touching(sv, tv)) =~= idx_view(queue@));
        assert(all.take(0).filter(apart(sv, tv)) =~= idx_view(rem@));
    }
    while j < t.len()
        invariant
            sv == face_views(s@),
            tv == face_views(t@),
            all == places_from(tv, from as int),
            faces_wf(sv),
            faces_wf(tv),
            from <= j <= t@.len(),
            idx_view(queue@) == all.take(j - from).filter(touching(sv, tv)),
            idx_view(rem@) == all.take(j - from).filter(apart(sv, tv)),
        decreases t@.len() - j,
    {
        assert(tv[j as int] == t@[j as int]@);
        proof {
            assert(all.take(j - from + 1) =~= all.take(j - from).push(j as int));
            all.take(j - from).lemma_filter_push(j as int, touching(sv, tv));
            all.take(j - from).lemma_filter_push(j as int, apart(sv, tv));
        }
        if touches_any(s, &t[j]) {
            proof {
                assert(idx_view(queue@.push(j)) =~= idx_view(queue@).push(j as int));
            }
            queue.push(j);
        } else {
            proof {
                assert(idx_view(rem@.push(j)) =~= idx_view(rem@).push(j as int));
            }
            rem.push(j);
        }
        j += 1;
    }
    assert(all.take(j - from) =~= all);
    (queue, rem)
}

/// The place `j` waits to be tried or stays behind.
pub open spec fn waits(q: Seq<int>, r: Seq<int>, j: int) -> bool {
    q.contains(j) || r.contains(j)
}

/// An entry of a list that meets a condition is an entry of the list of
/// those that meet it.
pub proof fn lemma_filter_keeps(r: Seq<int>, p: spec_fn(int) -> bool, j: int)
    requires
        r.contains(j),
        p(j),
    ensures
        r.filter(p).contains(j),
{
    let i = choose|i: int| 0 <= i < r.len() && r[i] == j;
    r.lemma_filter_contains(p, i);
}

/// Runs the accretion from a given state. Returns the places that stayed
/// behind; `s` is the family grown. No face is lost: the face at a place
/// that waited or stayed behind at the start is in the grown family, or its
/// place is among those returned.
pub fn accrete_run(s: &mut Vec<Face>, t: &Vec<Face>, queue: Vec<usize>, rem: Vec<usize>) -> (left:
    Vec<usize>)
    requires
        accrete_ok(face_views(old(s)@), face_views(t@), idx_view(queue@), idx_view(rem@)),
        old(s)@.len() + queue@.len() + rem@.len() <= label_limit(),
    ensures
        (face_views(final(s)@), idx_view(left@)) == accrete(
            face_views(old(s)@),
            face_views(t@),
            idx_view(queue@),
            idx_view(rem@),
        ),
        faces_wf(face_views(final(s)@)),
        places_in(idx_view(left@), t@.len()),
        final(s)@.len() + left@.len() == old(s)@.len() + queue@.len() + rem@.len(),
        final(s)@.len() >= old(s)@.len(),
        forall|k: int|
            0 <= k < old(s)@.len() ==> #[trigger] face_views(final(s)@)[k] == face_views(
                old(s)@,
            )[k],
        forall|k: int|
            old(s)@.len() <= k < final(s)@.len() ==> face_views(t@).contains(
                #[trigger] face_views(final(s)@)[k],
            ),
        forall|j: int| #[trigger]
            waits(idx_view(queue@), idx_view(rem@), j) ==> idx_view(left@).contains(j)
                || face_views(final(s)@).contains(face_views(t@)[j]),
    decreases
        old(s)@.len() + queue@.len() + rem@.len() + height(face_views(t@)),
        0nat,
        queue@.len() + rem@.len(),
        queue@.len(),
{
    let ghost tv = face_views(t@);
    let ghost goal = accrete(face_views(s@), tv, idx_view(queue@), idx_view(rem@));
    let ghost total = s@.len() + queue@.len() + rem@.len();
    let ghost bound = total + height(tv);
    let ghost first = s@.len();
    let mut qu = queue;
    let mut rm = rem;
    let mut head: usize = 0;
    assert(idx_view(qu@).skip(0) =~= idx_view(qu@));
    while head < qu.len()
        invariant
            tv == face_views(t@),
            head <= qu@.len(),
            accrete_ok(face_views(s@), tv, idx_view(qu@).skip(head as int), idx_view(rm@)),
            accrete(face_views(s@), tv, idx_view(qu@).skip(head as int), idx_view(rm@)) == goal,
            s@.len() + (qu@.len() - head) + rm@.len() == total,
            total <= label_limit(),
            total == old(s)@.len() + queue@.len() + rem@.len(),
            bound == total + height(tv),
            s@.len() >= first,
            first == old(s)@.len(),
            forall|k: int|
                0 <= k < first ==> #[trigger] face_views(s@)[k] == face_views(old(s)@)[k],
            forall|k: int| first <= k < s@.len() ==> tv.contains(#[trigger] face_views(s@)[k]),
            forall|j: int| #[trigger]
                waits(idx_view(queue@), idx_view(rem@), j) ==> waits(
                    idx_view(qu@).skip(head as int),
                    idx_view(rm@),
                    j,
                ) || face_views(s@).contains(tv[j]),
        decreases (qu@.len() - head) + rm@.len(), qu@.len() - head,
    {
        let ghost sv = face_views(s@);
        let ghost q = idx_view(qu@).skip(head as int);
        let ghost r = idx_view(rm@);
        let j = qu[head];
        assert(q[0] == j as int);
        assert(0 <= j < t@.len());
        let f = &t[j];
        assert(tv[j as int] == f@);
        let sect = section_of(s, f);
        proof {
            lemma_section(sv, f@);
            if j > 0 {
                assert(precedes(tv[0], tv[j as int]));
            }
            lemma_single_face(Seq::<u32>::empty());
            assert(size(sect@) < bound);
        }
        if sect.is_contractible() {
            let grown = f.clone();
            let ghost sv2 = sv.push(f@);
            proof {
                assert(face_views(s@.push(grown)) =~= sv2);
                assert(tv.contains(tv[j as int]));
                assert forall|k: int| first <= k < sv2.len() implies tv.contains(
                    #[trigger] sv2[k],
                ) by {
                    if k < sv.len() {
                        assert(sv2[k] == sv[k]);
                    }
                }
                assert(faces_wf(sv2)) by {
                    assert forall|k: int| 0 <= k < sv2.len() implies strictly_increasing(
                        #[trigger] sv2[k],
                    ) by {
                        if k < sv.len() {
                            assert(sv2[k] == sv[k]);
                        }
                    }
                }
            }
            s.push(grown);
            head += 1;
            let ghost q1 = q.skip(1);
            assert(idx_view(qu@).skip(head as int) =~= q1);
            let mut kept: Vec<usize> = Vec::new();
            let mut i: usize = 0;
            let ghost come = fresh(tv, f@, sect@);
            let ghost stay = stale(tv, f@, sect@);
            proof {
                reveal(Seq::filter);
                assert(r.take(0).filter(come) =~= Seq::<int>::empty());
                assert(r.take(0).filter(stay) =~= idx_view(kept@));
                assert(q1 + r.take(0).filter(come) =~= q1);
            }
            while i < rm.len()
                invariant
                    tv == face_views(t@),
                    faces_wf(tv),
                    f.wf(),
                    0 <= j < tv.len(),
                    f@ == tv[j as int],
                    sect.wf(),
                    r == idx_view(rm@),
                    places_in(r, t@.len()),
                    come == fresh(tv, f@, sect@),
                    stay == stale(tv, f@, sect@),
                    i <= rm@.len(),
                    head <= qu@.len(),
                    idx_view(qu@).skip(head as int) == q1 + r.take(i as int).filter(come),
                    idx_view(kept@) == r.take(i as int).filter(stay),
                decreases rm@.len() - i,
            {
                let g = rm[i];
                assert(r[i as int] == g as int);
                assert(tv[g as int] == t@[g as int]@);
                let m = meet_of(f, &t[g]);
                let is_fresh = match m {
                    Some(face) => !sect.has_face(&face),
                    None => false,
                };
                proof {
                    assert(is_fresh == come(g as int));
                    assert(r.take(i + 1) =~= r.take(i as int).push(g as int));
                    r.take(i as int).lemma_filter_push(g as int, come);
                    r.take(i as int).lemma_filter_push(g as int, stay);
                }
                if is_fresh {
                    proof {
                        assert(idx_view(qu@.push(g)).skip(head as int) =~= idx_view(qu@).skip(
                            head as int,
                        ).push(g as int));
                        assert((q1 + r.take(i as int).filter(come)).push(g as int) =~= q1 + r.take(
                            i as int,
                        ).filter(come).push(g as int));
                    }
                    qu.push(g);
                } else {
                    proof {
                        assert(idx_view(kept@.push(g)) =~= idx_view(kept@).push(g as int));
                    }
                    kept.push(g);
                }
                i += 1;
            }
            proof {
                assert(r.take(i as int) =~= r);
                lemma_filter_places(r, come, stay, t@.len() as nat);
                assert forall|e: int| #[trigger]
                    waits(idx_view(queue@), idx_view(rem@), e) implies waits(
                    q1 + r.filter(come),
                    r.filter(stay),
                    e,
                ) || sv2.contains(tv[e]) by {
                    assert(sv2[sv.len() as int] == tv[j as int]);
                    if sv.contains(tv[e]) {
                        let k = choose|k: int| 0 <= k < sv.len() && sv[k] == tv[e];
                        assert(sv2[k] == tv[e]);
                    } else if q.contains(e) {
                        let k = choose|k: int| 0 <= k < q.len() && q[k] == e;
                        if k > 0 {
                            assert((q1 + r.filter(come))[k - 1] == e);
                        }
                    } else {
                        assert(r.contains(e));
                        if come(e) {
                            lemma_filter_keeps(r, come, e);
                            let k = choose|k: int|
                                0 <= k < r.filter(come).len() && r.filter(come)[k] == e;
                            assert((q1 + r.filter(come))[q1.len() + k] == e);
                        } else {
                            lemma_filter_keeps(r, stay, e);
                        }
                    }
                }
                let q2 = q1 + r.filter(come);
                assert(places_in(q2, t@.len() as nat)) by {
                    assert forall|k: int| 0 <= k < q2.len() implies 0 <= #[trigger] q2[k]
                        < t@.len() by {
                        if k < q1.len() {
                            assert(q2[k] == q[k + 1]);
                        } else {
                            assert(q2[k] == r.filter(come)[k - q1.len()]);
                        }
                    }
                }
            }
            rm = kept;
        } else {
            proof {
                assert(idx_view(rm@.push(j)) =~= r.push(j as int));
                assert(idx_view(qu@).skip(head + 1) =~= q.skip(1));
                assert forall|e: int| #[trigger]
                    waits(idx_view(queue@), idx_view(rem@), e) implies waits(
                    q.skip(1),
                    r.push(j as int),
                    e,
                ) || sv.contains(tv[e]) by {
                    assert(r.push(j as int)[r.len() as int] == j as int);
                    if sv.contains(tv[e]) {
                    } else if q.contains(e) {
                        let k = choose|k: int| 0 <= k < q.len() && q[k] == e;
                        if k > 0 {
                            assert(q.skip(1)[k - 1] == e);
                        }
                    } else {
                        let k = choose|k: int| 0 <= k < r.len() && r[k] == e;
                        assert(r.push(j as int)[k] == e);
                    }
                }
                assert(places_in(r.push(j as int), t@.len() as nat)) by {
                    assert forall|k: int| 0 <= k < r.push(j as int).len() implies 0
                        <= #[trigger] r.push(j as int)[k] < t@.len() by {
                        if k < r.len() {
                            assert(r.push(j as int)[k] == r[k]);
                        }
                    }
                }
                assert(places_in(q.skip(1), t@.len() as nat)) by {
                    assert forall|k: int| 0 <= k < q.skip(1).len() implies 0
                        <= #[trigger] q.skip(1)[k] < t@.len() by {
                        assert(q.skip(1)[k] == q[k + 1]);
                    }
                }
            }
            rm.push(j);
            head += 1;
        }
    }
    proof {
        assert(idx_view(qu@).skip(head as int).len() == 0);
    }
    rm
}

/// Whether `z` is seen to retract onto its first facet.
pub fn retracts_first(z: &SimplicialComplex) -> (r: bool)
    requires
        z.wf(),
        z.fits(),
    ensures
        r == retracts_to_first(z@),
    decreases z@.len() + height(z@), 0nat, z@.len() + 2, 0nat,
{
    let t = z.facets();
    let ghost tv = face_views(t@);
    let mut s: Vec<Face> = Vec::new();
    assert(tv[0] == t@[0]@);
    s.push(t[0].clone());
    assert(face_views(s@) =~= seq![z@[0]]);
    let (queue, rem) = split_touching(&s, t, 1);
    proof {
        let among = places_from(tv, 1);
        lemma_filter_places(among, touching(face_views(s@), tv), apart(face_views(s@), tv), tv.len());
    }
    let left = accrete_run(&mut s, t, queue, rem);
    left.len() == 0
}

impl SimplicialComplex {
    /// Tests whether the complex is contractible. `true` is only answered
    /// for contractible complexes; `false` also where the test cannot tell.
    pub fn is_contractible(&self) -> (r: bool)
        requires
            self.wf(),
            self.fits(),
        ensures
            r == contractible(self@),
        decreases size(self@), 1nat, 0nat, 0nat,
    {
        let ghost x = self@;
        let h = self.height();
        if h == 0 {
            return false;
        }
        let facet_count = self.len();
        if facet_count == 1 {
            return true;
        }
        if h == 1 {
            return false;
        }
        let vs = self.vertex_set();
        let vertex_count = vs.len();
        proof {
            lemma_increasing_no_duplicates(vs@);
            crate::nerve::lemma_height_bound(x);
        }
        if facet_count == 2 {
            let list = self.facets();
            let second = list[1].len();
            proof {
                assert(x[1] == list@[1]@);
                crate::face::lemma_increasing_bounded(x[1], label_limit());
            }
            return vertex_count as u64 != h as u64 + second as u64;
        }
        let nerve = self.nerve();
        let nerve_facet_count = nerve.len();
        proof {
            lemma_nerve(x);
            lemma_nerve(nerve@);
            lemma_height_le_vertices(x);
            lemma_double_nerve_height(x, nerve@, crate::nerve::nerve(nerve@));
        }
        if vertex_count != nerve_facet_count {
            return nerve.is_contractible();
        }
        if vertex_count < MIN_VERTICES || facet_count < MIN_FACETS || h < MIN_HEIGHT {
            return false;
        }
        if h > nerve.height() {
            retracts_first(&nerve)
        } else {
            let twice = nerve.nerve();
            retracts_first(&twice)
        }
    }
}

} // verus!
