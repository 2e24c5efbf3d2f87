//! Simplicial complexes, held as the list of their facets.

use crate::face::{vec_shrink_to_fit, Face};
use crate::family::{
    antichain, complex_of, face_views, faces_wf, facet_set, is_complex, is_face, label_limit,
    lemma_subface_len, lemma_subface_not_shorter, max_faces, maximal_filter, maximal_in,
    sorted_unique, spans, subface, vertex_set_of, vertices,
};
use crate::order::{
    arrange, lemma_arrange_of_ordered, lemma_ordered_no_duplicates, lemma_precedes_irreflexive,
    precedes, strictly_ordered,
};
use vstd::prelude::*;

verus! {

/// A simplicial complex, given by the faces that span it.
///
/// Between the operations of this library a complex satisfies [`Self::wf`]:
/// its list holds exactly its facets, larger ones first. The empty complex
/// has one facet, the empty face.
#[derive(Debug)]
pub struct SimplicialComplex {
    facets: Vec<Face>,
}

impl View for SimplicialComplex {
    type V = Seq<Seq<u32>>;

    /// The tuples of the listed faces, in the order of the list.
    closed spec fn view(&self) -> Seq<Seq<u32>> {
        face_views(self.facets@)
    }
}

/// In a complex no facet lies in another one.
pub proof fn lemma_complex_no_subface(s: Seq<Seq<u32>>, i: int, j: int)
    requires
        is_complex(s),
        0 <= i < s.len(),
        0 <= j < s.len(),
        i != j,
    ensures
        !s[i].to_set().subset_of(s[j].to_set()),
        !s[j].to_set().subset_of(s[i].to_set()),
{
    assert(!subface(s[i], s[j]));
    assert(!subface(s[j], s[i]));
}

/// The facets of a complex are listed by descending number of vertices.
pub proof fn lemma_complex_descending(s: Seq<Seq<u32>>, i: int, j: int)
    requires
        is_complex(s),
        0 <= i <= j < s.len(),
    ensures
        s[i].len() >= s[j].len(),
{
    if i < j {
        assert(precedes(s[i], s[j]));
    }
}

/// A complex lists no facet twice.
pub proof fn lemma_complex_no_duplicates(s: Seq<Seq<u32>>)
    requires
        is_complex(s),
    ensures
        s.no_duplicates(),
        forall|i: int, j: int|
            0 <= i < s.len() && 0 <= j < s.len() && i != j ==> (#[trigger] s[i]).to_set() != (
            #[trigger] s[j]).to_set(),
{
    lemma_ordered_no_duplicates(s);
    assert forall|i: int, j: int| 0 <= i < s.len() && 0 <= j < s.len() && i != j implies (
    #[trigger] s[i]).to_set() != (#[trigger] s[j]).to_set() by {
        assert(!subface(s[i], s[j]));
    }
}

/// A complex is the facet list of the complex that its own facets span.
pub proof fn lemma_complex_is_canonical(s: Seq<Seq<u32>>)
    requires
        is_complex(s),
    ensures
        complex_of(s.to_set()) == s,
{
    lemma_antichain_is_maximal(s);
    assert(s.to_set().contains(s[0]));
    lemma_arrange_of_ordered(s);
}

/// Where no member of a family lies in another, every member is maximal.
pub proof fn lemma_antichain_is_maximal(s: Seq<Seq<u32>>)
    requires
        antichain(s),
    ensures
        max_faces(s.to_set()) == s.to_set(),
{
    let faces = s.to_set();
    assert forall|f: Seq<u32>| faces.contains(f) implies maximal_in(f, faces) by {
        let i = choose|i: int| 0 <= i < s.len() && s[i] == f;
        assert forall|g: Seq<u32>| faces.contains(g) && #[trigger] subface(f, g) implies g
            == f by {
            let j = choose|j: int| 0 <= j < s.len() && s[j] == g;
            if i != j {
                assert(!subface(s[i], s[j]));
            }
        }
    }
    assert(max_faces(faces) =~= faces);
}

/// An ordered list of faces of one size is an antichain.
proof fn lemma_same_size_antichain(s: Seq<Seq<u32>>)
    requires
        strictly_ordered(s),
        faces_wf(s),
        s.len() > 0,
        s[0].len() == s[s.len() - 1].len(),
    ensures
        antichain(s),
{
    assert forall|i: int, j: int| 0 <= i < s.len() && 0 <= j < s.len() && i != j implies !subface(
        #[trigger] s[i],
        #[trigger] s[j],
    ) by {
        let n = s.len() - 1;
        assert(s[i].len() == s[0].len()) by {
            if 0 < i {
                assert(precedes(s[0], s[i]));
            }
            if i < n {
                assert(precedes(s[i], s[n]));
            }
        }
        assert(s[j].len() == s[0].len()) by {
            if 0 < j {
                assert(precedes(s[0], s[j]));
            }
            if j < n {
                assert(precedes(s[j], s[n]));
            }
        }
        if subface(s[i], s[j]) {
            lemma_subface_not_shorter(s[i], s[j]);
            lemma_precedes_irreflexive(s[i]);
            if i < j {
                assert(precedes(s[i], s[j]));
            } else {
                assert(precedes(s[j], s[i]));
            }
        }
    }
}

/// Every member of a family is a face of the complex that the family spans.
pub proof fn lemma_spans_itself(s: Seq<Seq<u32>>)
    ensures
        spans(s, s.to_set()),
{
    assert forall|f: Seq<u32>| #[trigger] s.to_set().contains(f) implies is_face(s, f) by {
        let i = choose|i: int| 0 <= i < s.len() && s[i] == f;
        assert(subface(f, s[i]));
    }
}

/// The list of one face is the arrangement of that face alone.
pub proof fn lemma_single_face(f: Seq<u32>)
    ensures
        seq![f].to_set() == set![f],
        strictly_ordered(seq![f]),
        arrange(set![f]) == seq![f],
{
    let s = seq![f];
    assert(s[0] == f);
    assert forall|g: Seq<u32>| s.to_set().contains(g) == set![f].contains(g) by {
        if g == f {
            assert(s.contains(g));
        }
    }
    assert(s.to_set() =~= set![f]);
    lemma_arrange_of_ordered(s);
}

/// A copy of a list of faces.
pub fn clone_faces(list: &Vec<Face>) -> (r: Vec<Face>)
    ensures
        face_views(r@) == face_views(list@),
{
    let mut out: Vec<Face> = Vec::new();
    let mut i: usize = 0;
    while i < list.len()
        invariant
            i <= list@.len(),
            out@.len() == i,
            forall|k: int| 0 <= k < i ==> out@[k]@ == list@[k]@,
        decreases list@.len() - i,
    {
        out.push(list[i].clone());
        i += 1;
    }
    assert(face_views(out@) =~= face_views(list@));
    out
}

impl Clone for SimplicialComplex {
    fn clone(&self) -> (r: Self)
        ensures
            r@ == self@,
    {
        SimplicialComplex { facets: clone_faces(&self.facets) }
    }
}

impl PartialEq for SimplicialComplex {
    fn eq(&self, other: &Self) -> (r: bool) {
        if self.facets.len() != other.facets.len() {
            assert(self@.len() != other@.len());
            return false;
        }
        let mut i: usize = 0;
        while i < self.facets.len()
            invariant
                self.facets@.len() == other.facets@.len(),
                i <= self.facets@.len(),
                forall|k: int| 0 <= k < i ==> self@[k] == other@[k],
            decreases self.facets@.len() - i,
        {
            assert(self@[i as int] == self.facets@[i as int]@);
            assert(other@[i as int] == other.facets@[i as int]@);
            if !self.facets[i].eq(&other.facets[i]) {
                assert(self@[i as int] != other@[i as int]);
                return false;
            }
            i += 1;
        }
        assert(self@ =~= other@);
        true
    }
}

impl Eq for SimplicialComplex {

}

impl vstd::std_specs::cmp::PartialEqSpecImpl for SimplicialComplex {
    open spec fn obeys_eq_spec() -> bool {
        true
    }

    open spec fn eq_spec(&self, other: &SimplicialComplex) -> bool {
        self@ == other@
    }
}

impl Default for SimplicialComplex {
    /// The empty complex.
    fn default() -> (r: Self)
        ensures
            r.wf(),
            r@ == seq![Seq::<u32>::empty()],
    {
        let mut facets: Vec<Face> = Vec::new();
        facets.push(Face::new());
        let r = SimplicialComplex { facets };
        assert(r@ =~= seq![Seq::<u32>::empty()]);
        r
    }
}

impl SimplicialComplex {
    /// The list is made of faces.
    pub open spec fn valid(&self) -> bool {
        faces_wf(self@)
    }

    /// The places of the list can serve as vertex labels, as the nerve asks.
    pub open spec fn fits(&self) -> bool {
        self@.len() <= label_limit()
    }

    /// The invariant of a complex: the list holds its facets, none inside
    /// another, none twice, larger ones first.
    pub open spec fn wf(&self) -> bool {
        self.valid() && is_complex(self@)
    }

    /// The complex with the given list, taken as it is.
    pub fn from_facets(facets: Vec<Face>) -> (r: Self)
        requires
            faces_wf(face_views(facets@)),
        ensures
            r.valid(),
            r@ == face_views(facets@),
    {
        SimplicialComplex { facets }
    }

    /// The complex with one facet.
    pub fn from_face(face: &Face) -> (r: Self)
        requires
            face.wf(),
        ensures
            r.wf(),
            r@ == seq![face@],
    {
        let mut facets: Vec<Face> = Vec::new();
        facets.push(face.clone());
        let r = SimplicialComplex { facets };
        assert(r@ =~= seq![face@]);
        r
    }

    /// The listed faces.
    pub fn facets(&self) -> (r: &Vec<Face>)
        ensures
            face_views(r@) == self@,
    {
        &self.facets
    }

    /// An iterator over the listed faces, in the order of the list.
    pub fn iter(&self) -> (it: std::slice::Iter<'_, Face>)
        ensures
            face_views(vstd::std_specs::slice::into_iter_elts(it)) == self@,
    {
        let it = self.facets.iter();
        proof {
            broadcast use vstd::std_specs::slice::axiom_spec_slice_iter;

            assert(vstd::std_specs::slice::into_iter_elts(it) =~= self.facets@);
        }
        it
    }

    /// Gives the list of faces away.
    pub fn into_facets(self) -> (r: Vec<Face>)
        ensures
            face_views(r@) == self@,
    {
        self.facets
    }

    /// The complex that `facets` span: faces that occur twice or lie in
    /// another face are dropped.
    pub fn from_check_unique(facets: Vec<Face>) -> (r: Self)
        requires
            faces_wf(face_views(facets@)),
        ensures
            r.wf(),
            r@ == complex_of(face_views(facets@).to_set()),
            r@.to_set() == facet_set(face_views(facets@).to_set()),
            spans(r@, face_views(facets@).to_set()),
            r@.len() <= facets@.len() || r@ == seq![Seq::<u32>::empty()],
    {
        let mut sc = SimplicialComplex { facets };
        sc.maximalify();
        sc
    }

    /// The complex that `faces` span, for a list that holds no face twice.
    pub fn from_check_maximal(faces: Vec<Face>) -> (r: Self)
        requires
            faces_wf(face_views(faces@)),
            face_views(faces@).no_duplicates(),
        ensures
            r.wf(),
            r@ == complex_of(face_views(faces@).to_set()),
            r@.to_set() == facet_set(face_views(faces@).to_set()),
            spans(r@, face_views(faces@).to_set()),
            r@.len() <= faces@.len() || r@ == seq![Seq::<u32>::empty()],
    {
        let mut sc = SimplicialComplex { facets: faces };
        sc.maximalify();
        sc
    }

    /// The complex whose facets are `facets`, for a list in which no face
    /// lies in another: the list is put in order and nothing else is done.
    pub fn from_check_sorted(facets: Vec<Face>) -> (r: Self)
        requires
            faces_wf(face_views(facets@)),
            antichain(face_views(facets@)),
        ensures
            r.wf(),
            r@ == complex_of(face_views(facets@).to_set()),
            r@.to_set() == facet_set(face_views(facets@).to_set()),
            spans(r@, face_views(facets@).to_set()),
            r@.len() <= facets@.len() || r@ == seq![Seq::<u32>::empty()],
    {
        if facets.len() == 0 {
            assert(face_views(facets@).to_set() =~= Set::<Seq<u32>>::empty());
            let r = SimplicialComplex::default();
            proof {
                lemma_single_face(Seq::<u32>::empty());
            }
            return r;
        }
        let ghost given = face_views(facets@);
        let mut sc = SimplicialComplex { facets };
        sc.sortify();
        proof {
            let s = sc@;
            lemma_ordered_no_duplicates(s);
            assert(given.to_set().contains(given[0]));
            assert(s.to_set().contains(given[0]));
            assert(s.len() > 0) by {
                if s.len() == 0 {
                    assert(!s.contains(given[0]));
                }
            }
            assert forall|i: int, j: int|
                0 <= i < s.len() && 0 <= j < s.len() && i != j implies !subface(
                #[trigger] s[i],
                #[trigger] s[j],
            ) by {
                assert(s.to_set().contains(s[i]) && s.to_set().contains(s[j]));
                let a = choose|a: int| 0 <= a < given.len() && given[a] == s[i];
                let b = choose|b: int| 0 <= b < given.len() && given[b] == s[j];
                assert(a != b);
                assert(!subface(given[a], given[b]));
            }
            lemma_complex_is_canonical(s);
            lemma_antichain_is_maximal(s);
            lemma_spans_itself(s);
        }
        sc
    }

    /// Puts the list in order: larger faces first. A face that the list
    /// holds twice is kept once.
    pub fn sortify(&mut self)
        requires
            old(self).valid(),
        ensures
            final(self).valid(),
            strictly_ordered(final(self)@),
            final(self)@.to_set() == old(self)@.to_set(),
            final(self)@ == arrange(old(self)@.to_set()),
            final(self)@.len() <= old(self)@.len(),
    {
        let mut taken: Vec<Face> = Vec::new();
        core::mem::swap(&mut self.facets, &mut taken);
        let sorted = sorted_unique(taken);
        proof {
            lemma_arrange_of_ordered(face_views(sorted@));
        }
        self.facets = sorted;
    }

    /// Makes the list the facet list of the complex that its faces span:
    /// the faces are put in order, and those that occur twice or lie in
    /// another face are dropped. An empty list becomes the empty complex.
    pub fn maximalify(&mut self)
        requires
            old(self).valid(),
        ensures
            final(self).wf(),
            final(self)@ == complex_of(old(self)@.to_set()),
            final(self)@.to_set() == facet_set(old(self)@.to_set()),
            spans(final(self)@, old(self)@.to_set()),
            final(self)@.len() <= old(self)@.len() || final(self)@ == seq![Seq::<u32>::empty()],
    {
        let ghost given = self@;
        if self.facets.len() == 0 {
            self.facets.push(Face::new());
            proof {
                assert(given.to_set() =~= Set::<Seq<u32>>::empty());
                assert(self@ =~= seq![Seq::<u32>::empty()]);
                lemma_single_face(Seq::<u32>::empty());
            }
        } else {
            self.sortify();
            let ghost s = self@;
            proof {
                assert(given.to_set().contains(given[0]));
                assert(s.len() > 0) by {
                    if s.len() == 0 {
                        assert(!s.contains(given[0]));
                    }
                }
                assert(!(given.to_set() =~= Set::<Seq<u32>>::empty()));
            }
            let n = self.facets.len();
            if self.facets[0].len() == self.facets[n - 1].len() {
                proof {
                    assert(s[0] == self.facets@[0]@);
                    assert(s[n - 1] == self.facets@[n - 1]@);
                    lemma_same_size_antichain(s);
                    lemma_antichain_is_maximal(s);
                    lemma_arrange_of_ordered(s);
                    lemma_spans_itself(s);
                }
            } else {
                let kept = maximal_filter(&self.facets);
                proof {
                    lemma_arrange_of_ordered(face_views(kept@));
                }
                self.facets = kept;
            }
            self.shrink_to_fit();
        }
    }

    /// The number of vertices of the first facet, which in a complex is the
    /// largest: 0 for the empty complex, 1 for a discrete one.
    pub fn height(&self) -> (h: usize)
        requires
            self@.len() > 0,
        ensures
            h == self@[0].len(),
    {
        assert(self@[0] == self.facets@[0]@);
        self.facets[0].len()
    }

    /// Whether this is the empty complex.
    pub fn is_empty(&self) -> (r: bool)
        requires
            self@.len() > 0,
        ensures
            r == (self@[0].len() == 0),
    {
        self.height() == 0
    }

    /// The number of listed faces.
    pub fn len(&self) -> (n: usize)
        ensures
            n == self@.len(),
    {
        self.facets.len()
    }

    /// Returns capacity that is not needed; the complex stays as it is.
    pub fn shrink_to_fit(&mut self)
        ensures
            final(self)@ == old(self)@,
    {
        vec_shrink_to_fit(&mut self.facets);
    }

    /// Whether `simplex` is a face of the complex: whether it lies in a
    /// facet.
    pub fn has_face(&self, simplex: &Face) -> (r: bool)
        requires
            self.wf(),
            simplex.wf(),
        ensures
            r == is_face(self@, simplex@),
    {
        let ghost s = self@;
        let n = simplex.len();
        let mut i: usize = 0;
        while i < self.facets.len()
            invariant
                s == self@,
                self.wf(),
                simplex.wf(),
                n == simplex@.len(),
                i <= s.len(),
                forall|k: int| 0 <= k < i ==> !subface(simplex@, #[trigger] s[k]),
            decreases s.len() - i,
        {
            assert(s[i as int] == self.facets@[i as int]@);
            if self.facets[i].len() < n {
                proof {
                    // the facets that follow are not larger than this one
                    assert forall|k: int| 0 <= k < s.len() implies !subface(
                        simplex@,
                        #[trigger] s[k],
                    ) by {
                        if k >= i {
                            if k > i {
                                assert(precedes(s[i as int], s[k]));
                            }
                            if subface(simplex@, s[k]) {
                                lemma_subface_len(simplex@, s[k]);
                            }
                        }
                    }
                }
                return false;
            }
            if simplex.leq(&self.facets[i]) {
                return true;
            }
            i += 1;
        }
        false
    }

    /// The vertices of the complex, as one face.
    pub fn vertex_set(&self) -> (r: Face)
        requires
            self.valid(),
        ensures
            r.wf(),
            r.set() == vertices(self@),
    {
        vertex_set_of(&self.facets)
    }
}

} // verus!
