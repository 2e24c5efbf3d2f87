//! Growing a subcomplex inside a complex, and what rests on it: the test
//! for a deformation retract, the contractible subcomplex and the pair of a
//! complex and a subcomplex made small.

use crate::complex::{
    clone_faces, lemma_antichain_is_maximal, lemma_single_face, lemma_spans_itself, SimplicialComplex,
};
use crate::face::Face;
use crate::family::{
    antichain, complex_of, face_views, faces_wf, facet_set, is_complex, is_face, label_limit,
    spans, subface,
};
use crate::nerve::height;
use crate::oracle::{
    accrete_run, accretion, apart, gather_meets, idx_view, intersections, lemma_filter_places,
    places_from, places_in, split_touching, touching,
};
use crate::order::{
    lemma_arrange_of_ordered, lemma_ordered_no_duplicates, lemma_precedes_irreflexive,
    lemma_precedes_total, lemma_precedes_transitive, precedes, strictly_ordered,
};
use vstd::prelude::*;

verus! {

/// The faces of `t` at the places that `idx` lists.
pub open spec fn picked(t: Seq<Seq<u32>>, idx: Seq<int>) -> Seq<Seq<u32>> {
    idx.map_values(|j: int| t[j])
}

/// Every member of `part` is a member of `whole`.
pub open spec fn members_of(part: Seq<Seq<u32>>, whole: Seq<Seq<u32>>) -> bool {
    forall|k: int| 0 <= k < part.len() ==> whole.contains(#[trigger] part[k])
}

/// The members of `x` that `y` does not hold.
pub open spec fn without(x: Seq<Seq<u32>>, y: Seq<Seq<u32>>) -> Set<Seq<u32>> {
    Set::new(|f: Seq<u32>| x.contains(f) && !y.contains(f))
}

/// The meets of the members of `a` with the members of `b`, but for the
/// empty ones.
pub open spec fn pair_meets(a: Seq<Seq<u32>>, b: Seq<Seq<u32>>) -> Set<Seq<u32>> {
    Set::new(
        |g: Seq<u32>| exists|i: int| 0 <= i < a.len() && intersections(b, #[trigger] a[i]).contains(g),
    )
}

/// An ordered list of members of an antichain is a complex.
pub proof fn lemma_part_of_antichain(part: Seq<Seq<u32>>, whole: Seq<Seq<u32>>)
    requires
        strictly_ordered(part),
        part.len() > 0,
        members_of(part, whole),
        antichain(whole),
        faces_wf(whole),
    ensures
        is_complex(part),
        complex_of(part.to_set()) == part,
        part.to_set() == facet_set(part.to_set()),
        spans(part, part.to_set()),
{
    lemma_ordered_no_duplicates(part);
    assert forall|i: int| 0 <= i < part.len() implies crate::face::strictly_increasing(
        #[trigger] part[i],
    ) by {
        let a = choose|a: int| 0 <= a < whole.len() && whole[a] == part[i];
    }
    assert forall|i: int, j: int|
        0 <= i < part.len() && 0 <= j < part.len() && i != j implies !subface(
        #[trigger] part[i],
        #[trigger] part[j],
    ) by {
        let a = choose|a: int| 0 <= a < whole.len() && whole[a] == part[i];
        let b = choose|b: int| 0 <= b < whole.len() && whole[b] == part[j];
        assert(a != b);
        assert(!subface(whole[a], whole[b]));
    }
    lemma_antichain_is_maximal(part);
    lemma_arrange_of_ordered(part);
    lemma_spans_itself(part);
    assert(part.to_set().contains(part[0]));
}

/// The complex whose facets are the given members of an antichain.
pub(crate) fn settle(faces: Vec<Face>, Ghost(whole): Ghost<Seq<Seq<u32>>>) -> (r: SimplicialComplex)
    requires
        members_of(face_views(faces@), whole),
        antichain(whole),
        faces_wf(whole),
    ensures
        r.wf(),
        r@ == complex_of(face_views(faces@).to_set()),
        r@.len() <= faces@.len() || r@ == seq![Seq::<u32>::empty()],
        faces@.len() > 0 ==> members_of(r@, whole),
        faces@.len() > 0 ==> r@.to_set() == face_views(faces@).to_set(),
{
    let ghost given = face_views(faces@);
    if faces.len() == 0 {
        proof {
            assert(given.to_set() =~= Set::<Seq<u32>>::empty());
            lemma_single_face(Seq::<u32>::empty());
        }
        return SimplicialComplex::default();
    }
    proof {
        assert forall|i: int| 0 <= i < given.len() implies crate::face::strictly_increasing(
            #[trigger] given[i],
        ) by {
            let a = choose|a: int| 0 <= a < whole.len() && whole[a] == given[i];
        }
    }
    let mut sc = SimplicialComplex::from_facets(faces);
    sc.sortify();
    proof {
        let s = sc@;
        assert(given.to_set().contains(given[0]));
        assert(s.len() > 0) by {
            if s.len() == 0 {
                assert(!s.contains(given[0]));
            }
        }
        assert forall|k: int| 0 <= k < s.len() implies whole.contains(#[trigger] s[k]) by {
            assert(s.to_set().contains(s[k]));
            assert(given.contains(s[k]));
            let i = choose|i: int| 0 <= i < given.len() && given[i] == s[k];
            assert(whole.contains(given[i]));
        }
        lemma_part_of_antichain(s, whole);
    }
    sc
}

/// The faces of `t` at the places that `idx` lists.
pub fn pick_faces(t: &Vec<Face>, idx: &Vec<usize>) -> (r: Vec<Face>)
    requires
        places_in(idx_view(idx@), t@.len() as nat),
    ensures
        face_views(r@) == picked(face_views(t@), idx_view(idx@)),
{
    let mut out: Vec<Face> = Vec::new();
    let mut i: usize = 0;
    while i < idx.len()
        invariant
            places_in(idx_view(idx@), t@.len() as nat),
            i <= idx@.len(),
            out@.len() == i,
            forall|k: int| 0 <= k < i ==> (#[trigger] out@[k])@ == t@[idx@[k] as int]@,
        decreases idx@.len() - i,
    {
        let j = idx[i];
        assert(idx_view(idx@)[i as int] == j as int);
        out.push(t[j].clone());
        i += 1;
    }
    assert(face_views(out@) =~= picked(face_views(t@), idx_view(idx@)));
    out
}

impl SimplicialComplex {
    /// Grows this complex inside `other` by accretion: a facet of `other`
    /// is attached where the part of the grown complex that lies in it is
    /// seen to be contractible. The facets that could not be attached are
    /// left in `other`. Returns whether none was left.
    ///
    /// With `care` the grown complex is made maximal afterwards. Without it
    /// the facets of the two complexes together must form an antichain, as
    /// they do where both are parts of one complex.
    ///
    /// The empty complex does not grow: the answer is then whether `other`
    /// is empty too.
    pub fn enlarge_from_complex(&mut self, other: &mut Self, care: bool) -> (r: bool)
        requires
            old(self).wf(),
            old(other).wf(),
            old(self)@.len() + old(other)@.len() <= label_limit(),
            !care ==> antichain(old(self)@ + old(other)@),
        ensures
            final(self).wf(),
            final(other).wf(),
            height(old(self)@) == 0 ==> r == (height(old(other)@) == 0) && final(self)@ == old(
                self,
            )@ && final(other)@ == old(other)@,
            height(old(self)@) > 0 ==> ({
                let run = accretion(old(self)@, old(other)@, places_from(old(other)@, 0));
                &&& r == (run.1.len() == 0)
                &&& final(self)@ == complex_of(run.0.to_set())
                &&& final(other)@ == complex_of(picked(old(other)@, run.1).to_set())
            }),
            height(old(self)@) > 0 ==> forall|i: int|
                0 <= i < old(other)@.len() ==> is_face(final(self)@, #[trigger] old(other)@[i])
                    || final(other)@.contains(old(other)@[i]),
    {
        if self.height() == 0 {
            return other.height() == 0;
        }
        let ghost sv0 = self@;
        let ghost tv = other@;
        let mut taken = SimplicialComplex::default();
        core::mem::swap(self, &mut taken);
        let mut s = taken.into_facets();
        let t = other.facets();
        let (queue, rem) = split_touching(&s, t, 0);
        proof {
            let among = places_from(tv, 0);
            lemma_filter_places(among, touching(sv0, tv), apart(sv0, tv), tv.len());
        }
        let ghost q0 = idx_view(queue@);
        let ghost r0 = idx_view(rem@);
        let left = accrete_run(&mut s, t, queue, rem);
        let remaining = pick_faces(t, &left);
        let done = left.len() == 0;
        let ghost part = face_views(remaining@);
        let ghost grown = face_views(s@);
        proof {
            assert forall|k: int| 0 <= k < part.len() implies tv.contains(#[trigger] part[k]) by {
                assert(part[k] == tv[idx_view(left@)[k]]);
            }
        }
        let rest = settle(remaining, Ghost(tv));
        proof {
            let among = places_from(tv, 0);
            assert forall|i: int| 0 <= i < tv.len() implies grown.contains(#[trigger] tv[i])
                || rest@.contains(tv[i]) by {
                assert(among[i] == i);
                assert(among.contains(i));
                if touching(sv0, tv)(i) {
                    crate::oracle::lemma_filter_keeps(among, touching(sv0, tv), i);
                } else {
                    crate::oracle::lemma_filter_keeps(among, apart(sv0, tv), i);
                }
                assert(crate::oracle::waits(q0, r0, i));
                if idx_view(left@).contains(i) {
                    let k = choose|k: int| 0 <= k < left@.len() && idx_view(left@)[k] == i;
                    assert(part[k] == tv[i]);
                    assert(part.to_set().contains(tv[i]));
                    assert(rest@.to_set().contains(tv[i]));
                }
            }
        }
        if care {
            *self = SimplicialComplex::from_check_unique(s);
            proof {
                assert forall|i: int| 0 <= i < tv.len() && grown.contains(tv[i]) implies is_face(
                    self@,
                    #[trigger] tv[i],
                ) by {
                    assert(grown.to_set().contains(tv[i]));
                }
            }
        } else {
            proof {
                let whole = sv0 + tv;
                assert(faces_wf(whole)) by {
                    assert forall|k: int| 0 <= k < whole.len() implies crate::face::strictly_increasing(
                        #[trigger] whole[k],
                    ) by {
                        if k < sv0.len() {
                            assert(whole[k] == sv0[k]);
                        } else {
                            assert(whole[k] == tv[k - sv0.len()]);
                        }
                    }
                }
                assert forall|k: int| 0 <= k < grown.len() implies whole.contains(
                    #[trigger] grown[k],
                ) by {
                    if k < sv0.len() {
                        assert(whole[k] == grown[k]);
                    } else {
                        let a = choose|a: int| 0 <= a < tv.len() && tv[a] == grown[k];
                        assert(whole[a + sv0.len()] == grown[k]);
                    }
                }
            }
            *self = settle(s, Ghost(sv0 + tv));
            proof {
                assert forall|i: int| 0 <= i < tv.len() && grown.contains(tv[i]) implies is_face(
                    self@,
                    #[trigger] tv[i],
                ) by {
                    assert(grown.to_set().contains(tv[i]));
                    assert(self@.to_set().contains(tv[i]));
                    let k = choose|k: int| 0 <= k < self@.len() && self@[k] == tv[i];
                    assert(subface(tv[i], self@[k]));
                }
            }
        }
        *other = rest;
        done
    }

    /// Whether `other` is seen to retract onto this complex: whether the
    /// accretion that starts from this complex takes in every facet of
    /// `other`. Neither complex is changed.
    pub fn is_deformation_retract(&self, other: &Self) -> (r: bool)
        requires
            self.wf(),
            other.wf(),
            self@.len() + other@.len() <= label_limit(),
        ensures
            height(self@) == 0 ==> r == (height(other@) == 0),
            height(self@) > 0 ==> r == (accretion(self@, other@, places_from(other@, 0)).1.len()
                == 0),
    {
        if self.height() == 0 {
            return other.height() == 0;
        }
        let mut s = clone_faces(self.facets());
        let t = other.facets();
        let (queue, rem) = split_touching(&s, t, 0);
        proof {
            let among = places_from(other@, 0);
            lemma_filter_places(among, touching(self@, other@), apart(self@, other@), other@.len());
        }
        let left = accrete_run(&mut s, t, queue, rem);
        left.len() == 0
    }

    /// A contractible subcomplex of the complex.
    ///
    /// The subcomplex starts as the first facet and grows by accretion: it
    /// takes in the facets whose part inside it is seen to be contractible.
    /// The complex itself stays as it is.
    pub fn contractible_subcomplex(&self) -> (r: Self)
        requires
            self.wf(),
            self.fits(),
        ensures
            r.wf(),
            r.fits(),
            members_of(r@, self@),
            r@.contains(self@[0]),
            r@ == complex_of(accretion(seq![self@[0]], self@, places_from(self@, 1)).0.to_set()),
    {
        let ghost x = self@;
        let t = self.facets();
        let mut s: Vec<Face> = Vec::new();
        assert(x[0] == t@[0]@);
        s.push(t[0].clone());
        assert(face_views(s@) =~= seq![x[0]]);
        let (queue, rem) = split_touching(&s, t, 1);
        proof {
            let among = places_from(x, 1);
            lemma_filter_places(among, touching(face_views(s@), x), apart(face_views(s@), x), x.len());
        }
        let left = accrete_run(&mut s, t, queue, rem);
        let ghost grown = face_views(s@);
        proof {
            assert forall|k: int| 0 <= k < grown.len() implies x.contains(#[trigger] grown[k]) by {
                if k == 0 {
                    assert(grown[0] == x[0]);
                }
            }
        }
        let sub = settle(s, Ghost(x));
        proof {
            assert(grown[0] == x[0]);
            assert(grown.to_set().contains(x[0]));
            assert(sub@.to_set().contains(x[0]));
        }
        sub
    }

    /// The facets of this complex that are no facets of `sub`, as a
    /// complex: the empty complex where `sub` has them all.
    pub fn facets_outside(&self, sub: &Self) -> (r: Self)
        requires
            self.wf(),
            sub.wf(),
        ensures
            r.wf(),
            r@ == complex_of(without(self@, sub@)),
            members_of(r@, self@) || r@ == seq![Seq::<u32>::empty()],
            r@.len() <= self@.len(),
    {
        let a = self.facets();
        let b = sub.facets();
        let ghost av = self@;
        let ghost bv = sub@;
        let mut out: Vec<Face> = Vec::new();
        let mut i: usize = 0;
        let mut j: usize = 0;
        assert(face_views(out@).to_set() =~= without(av.take(0), bv));
        while i < a.len()
            invariant
                av == face_views(a@),
                bv == face_views(b@),
                is_complex(av),
                is_complex(bv),
                i <= a@.len(),
                j <= b@.len(),
                out@.len() <= i,
                forall|jj: int, ii: int|
                    0 <= jj < j && i <= ii < av.len() ==> precedes(#[trigger] bv[jj], #[trigger] av[ii]),
                face_views(out@).to_set() == without(av.take(i as int), bv),
                members_of(face_views(out@), av),
            decreases (a@.len() - i) + (b@.len() - j),
        {
            assert(av[i as int] == a@[i as int]@);
            let ghost f = av[i as int];
            let ghost before = face_views(out@);
            if j < b.len() {
                assert(bv[j as int] == b@[j as int]@);
            }
            if j < b.len() && b[j].precedes(&a[i]) {
                proof {
                    assert forall|jj: int, ii: int|
                        0 <= jj < j + 1 && i <= ii < av.len() implies precedes(
                        #[trigger] bv[jj],
                        #[trigger] av[ii],
                    ) by {
                        if jj == j && ii > i {
                            assert(precedes(av[i as int], av[ii]));
                            lemma_precedes_transitive(bv[jj], av[i as int], av[ii]);
                        }
                    }
                }
                j += 1;
            } else {
                let same = j < b.len() && !a[i].precedes(&b[j]);
                proof {
                    if same {
                        lemma_precedes_total(f, bv[j as int]);
                        assert(bv.contains(f));
                    } else {
                        assert forall|jj: int| 0 <= jj < bv.len() implies bv[jj] != f by {
                            lemma_precedes_irreflexive(f);
                            if jj < j {
                                assert(precedes(bv[jj], av[i as int]));
                            } else {
                                if jj > j {
                                    assert(precedes(bv[j as int], bv[jj]));
                                    lemma_precedes_transitive(f, bv[j as int], bv[jj]);
                                }
                            }
                        }
                        assert(!bv.contains(f));
                    }
                    let small = without(av.take(i as int), bv);
                    let large = without(av.take(i + 1), bv);
                    assert(av.take(i + 1) =~= av.take(i as int).push(f));
                    assert forall|g: Seq<u32>| large.contains(g) == (small.contains(g) || (!same
                        && g == f)) by {
                        vstd::seq_lib::lemma_seq_contains_after_push(av.take(i as int), f, g);
                    }
                    if same {
                        assert(large =~= small);
                        assert forall|jj: int, ii: int|
                            0 <= jj < j + 1 && i + 1 <= ii < av.len() implies precedes(
                            #[trigger] bv[jj],
                            #[trigger] av[ii],
                        ) by {
                            if jj == j {
                                assert(precedes(av[i as int], av[ii]));
                            }
                        }
                    } else {
                        assert(large =~= small.insert(f));
                        before.lemma_push_to_set_commute(f);
                        assert(av.contains(f));
                    }
                }
                if same {
                    j += 1;
                } else {
                    let kept = a[i].clone();
                    proof {
                        assert(face_views(out@.push(kept)) =~= before.push(f));
                        assert forall|k: int| 0 <= k < before.push(f).len() implies av.contains(
                            #[trigger] before.push(f)[k],
                        ) by {
                            if k < before.len() {
                                assert(before.push(f)[k] == before[k]);
                            }
                        }
                    }
                    out.push(kept);
                }
                i += 1;
            }
        }
        assert(av.take(i as int) =~= av);
        settle(out, Ghost(av))
    }

    /// The complex in which this complex meets `other`: its facets are the
    /// maximal ones among the meets of a facet of this complex with a facet
    /// of `other`. Where no two facets meet, it is the empty complex.
    pub fn intersection_with_complex(&self, other: &Self) -> (r: Self)
        requires
            self.wf(),
            other.wf(),
        ensures
            r.wf(),
            r@ == complex_of(pair_meets(self@, other@)),
    {
        let sub = other;
        let a = self.facets();
        let b = sub.facets();
        let ghost av = self@;
        let ghost bv = sub@;
        let mut cands: Vec<Face> = Vec::new();
        let mut i: usize = 0;
        assert(face_views(cands@).to_set() =~= pair_meets(av.take(0), bv));
        while i < a.len()
            invariant
                av == face_views(a@),
                bv == face_views(b@),
                faces_wf(av),
                faces_wf(bv),
                i <= a@.len(),
                faces_wf(face_views(cands@)),
                face_views(cands@).to_set() == pair_meets(av.take(i as int), bv),
            decreases a@.len() - i,
        {
            assert(av[i as int] == a@[i as int]@);
            gather_meets(b, &a[i], &mut cands);
            proof {
                let before = pair_meets(av.take(i as int), bv);
                let row = intersections(bv, av[i as int]);
                let after = pair_meets(av.take(i + 1), bv);
                assert forall|g: Seq<u32>| before.union(row).contains(g) == after.contains(g) by {
                    if before.contains(g) {
                        let k = choose|k: int|
                            0 <= k < av.take(i as int).len() && intersections(
                                bv,
                                #[trigger] av.take(i as int)[k],
                            ).contains(g);
                        assert(av.take(i + 1)[k] == av.take(i as int)[k]);
                    }
                    if row.contains(g) {
                        assert(av.take(i + 1)[i as int] == av[i as int]);
                    }
                    if after.contains(g) {
                        let k = choose|k: int|
                            0 <= k < av.take(i + 1).len() && intersections(
                                bv,
                                #[trigger] av.take(i + 1)[k],
                            ).contains(g);
                        if k < i {
                            assert(av.take(i as int)[k] == av.take(i + 1)[k]);
                        }
                    }
                }
                assert(before.union(row) =~= after);
            }
            i += 1;
        }
        assert(av.take(i as int) =~= av);
        SimplicialComplex::from_check_unique(cands)
    }

    /// Makes the pair of this complex and its subcomplex `sub` small: the
    /// first of the two complexes returned holds the facets of this complex
    /// that are none of `sub`, the second is what that one has in common
    /// with `sub`. Where `sub` is the whole complex both are empty.
    pub fn minimize_pair(&self, sub: Self) -> (r: (Self, Self))
        requires
            self.wf(),
            sub.wf(),
        ensures
            r.0.wf(),
            r.1.wf(),
            r.0@ == complex_of(without(self@, sub@)),
            r.1@ == complex_of(pair_meets(r.0@, sub@)),
            members_of(r.0@, self@) || r.0@ == seq![Seq::<u32>::empty()],
            r.0@.len() <= self@.len(),
    {
        let rest = self.facets_outside(&sub);
        let bnd = rest.intersection_with_complex(&sub);
        (rest, bnd)
    }
}

} // verus!
