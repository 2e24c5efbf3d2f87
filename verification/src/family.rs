//! Families of faces: the lists of faces from which complexes are built, and
//! what it means for such a list to be the facets of a complex.

use crate::face::{lemma_increasing_no_duplicates, lemma_increasing_unique, strictly_increasing, Face};
use crate::order::{
    arrange, lemma_arrange, lemma_precedes_irreflexive, lemma_precedes_total,
    lemma_precedes_transitive, precedes, strictly_ordered,
};
use vstd::prelude::*;

verus! {

/// The tuples of a list of faces.
pub open spec fn face_views(s: Seq<Face>) -> Seq<Seq<u32>> {
    s.map_values(|f: Face| f@)
}

/// Every member of the family is a strictly increasing tuple.
pub open spec fn faces_wf(s: Seq<Seq<u32>>) -> bool {
    forall|i: int| 0 <= i < s.len() ==> strictly_increasing(#[trigger] s[i])
}

/// Every vertex of `a` is a vertex of `b`.
pub open spec fn subface(a: Seq<u32>, b: Seq<u32>) -> bool {
    a.to_set().subset_of(b.to_set())
}

/// `f` lies in a member of the family: it is a face of the complex that the
/// family spans.
pub open spec fn is_face(s: Seq<Seq<u32>>, f: Seq<u32>) -> bool {
    exists|i: int| 0 <= i < s.len() && subface(f, #[trigger] s[i])
}

/// Every member of `faces` is a face of the complex that `s` spans.
pub open spec fn spans(s: Seq<Seq<u32>>, faces: Set<Seq<u32>>) -> bool {
    forall|f: Seq<u32>| #[trigger] faces.contains(f) ==> is_face(s, f)
}

/// The greatest number of faces that a list may hold, so that the places of
/// the list can serve as vertex labels.
pub open spec fn label_limit() -> int {
    0x1_0000_0000
}

/// No member of the family lies in another member.
pub open spec fn antichain(s: Seq<Seq<u32>>) -> bool {
    forall|i: int, j: int|
        0 <= i < s.len() && 0 <= j < s.len() && i != j ==> !subface(#[trigger] s[i], #[trigger] s[j])
}

/// `f` belongs to `faces` and lies in no other member.
pub open spec fn maximal_in(f: Seq<u32>, faces: Set<Seq<u32>>) -> bool {
    faces.contains(f) && forall|g: Seq<u32>| faces.contains(g) && #[trigger] subface(f, g) ==> g == f
}

/// The members of `faces` that lie in no other member.
pub open spec fn max_faces(faces: Set<Seq<u32>>) -> Set<Seq<u32>> {
    Set::new(|f: Seq<u32>| maximal_in(f, faces))
}

/// The facets of the complex that `faces` spans. Without any face this is the
/// empty complex, whose one facet is the empty face.
pub open spec fn facet_set(faces: Set<Seq<u32>>) -> Set<Seq<u32>> {
    if faces =~= Set::<Seq<u32>>::empty() {
        set![Seq::<u32>::empty()]
    } else {
        max_faces(faces)
    }
}

/// The facet list of the complex that `faces` spans.
pub open spec fn complex_of(faces: Set<Seq<u32>>) -> Seq<Seq<u32>> {
    arrange(facet_set(faces))
}

/// The vertices that occur in the family.
pub open spec fn vertices(s: Seq<Seq<u32>>) -> Set<u32> {
    Set::new(|v: u32| exists|i: int| 0 <= i < s.len() && (#[trigger] s[i]).contains(v))
}

/// The facet lists of complexes: not empty, every facet a strictly
/// increasing tuple, no facet inside another, and the facets in their order.
pub open spec fn is_complex(s: Seq<Seq<u32>>) -> bool {
    &&& s.len() > 0
    &&& faces_wf(s)
    &&& antichain(s)
    &&& strictly_ordered(s)
}

/// A face inside a face that is not longer is that face.
pub proof fn lemma_subface_not_shorter(a: Seq<u32>, b: Seq<u32>)
    requires
        strictly_increasing(a),
        strictly_increasing(b),
        subface(a, b),
        a.len() >= b.len(),
    ensures
        a == b,
{
    lemma_increasing_no_duplicates(a);
    lemma_increasing_no_duplicates(b);
    vstd::set_lib::lemma_len_subset(a.to_set(), b.to_set());
    vstd::set_lib::lemma_subset_equality(a.to_set(), b.to_set());
    lemma_increasing_unique(a, b);
}

/// A face inside another has at most as many vertices.
pub proof fn lemma_subface_len(a: Seq<u32>, b: Seq<u32>)
    requires
        strictly_increasing(a),
        strictly_increasing(b),
        subface(a, b),
    ensures
        a.len() <= b.len(),
{
    lemma_increasing_no_duplicates(a);
    lemma_increasing_no_duplicates(b);
    vstd::set_lib::lemma_len_subset(a.to_set(), b.to_set());
}

/// In a finite set of faces every face lies in a maximal one.
pub proof fn lemma_has_maximal_above(faces: Set<Seq<u32>>, f: Seq<u32>) -> (g: Seq<u32>)
    requires
        faces.finite(),
        forall|h: Seq<u32>| faces.contains(h) ==> strictly_increasing(h),
        faces.contains(f),
    ensures
        maximal_in(g, faces),
        subface(f, g),
{
    let above = faces.filter(|h: Seq<u32>| subface(f, h));
    assert(above.subset_of(faces));
    vstd::set_lib::lemma_len_subset(above, faces);
    lemma_arrange(above);
    let a = arrange(above);
    assert(above.contains(f));
    assert(a.to_set().contains(f));
    assert(a.len() > 0) by {
        if a.len() == 0 {
            assert(!a.contains(f));
        }
    }
    let g = a[0];
    assert(a.to_set().contains(g));
    assert(above.contains(g));
    assert forall|h: Seq<u32>| faces.contains(h) && #[trigger] subface(g, h) implies h == g by {
        assert(subface(f, h));
        assert(above.contains(h));
        assert(a.to_set().contains(h));
        let j = choose|j: int| 0 <= j < a.len() && a[j] == h;
        if j > 0 {
            assert(precedes(a[0], a[j]));
            lemma_subface_not_shorter(g, h);
        }
    }
    g
}

/// The facet list of the complex that a finite set of faces spans is a
/// complex; it holds the maximal faces of the set, and every face of the set
/// lies in one of them.
pub proof fn lemma_complex_of(faces: Set<Seq<u32>>)
    requires
        faces.finite(),
        forall|h: Seq<u32>| faces.contains(h) ==> strictly_increasing(h),
    ensures
        is_complex(complex_of(faces)),
        complex_of(faces).to_set() == facet_set(faces),
        spans(complex_of(faces), faces),
        facet_set(faces).finite(),
        complex_of(faces).len() == facet_set(faces).len(),
        complex_of(faces).len() <= faces.len() || complex_of(faces) == seq![Seq::<u32>::empty()],
{
    let top = facet_set(faces);
    let c = complex_of(faces);
    if faces =~= Set::<Seq<u32>>::empty() {
        assert(top.finite());
        lemma_arrange(top);
        assert(top.len() == 1);
        assert(c.to_set().contains(c[0]));
        assert(c =~= seq![Seq::<u32>::empty()]);
        assert(faces_wf(c));
        assert(antichain(c));
    } else {
        assert(top.subset_of(faces));
        vstd::set_lib::lemma_len_subset(top, faces);
        lemma_arrange(top);
        let f0 = choose|f: Seq<u32>| faces.contains(f);
        let g0 = lemma_has_maximal_above(faces, f0);
        assert(top.contains(g0));
        assert(c.len() > 0) by {
            if c.len() == 0 {
                assert(!c.contains(g0));
            }
        }
        assert forall|i: int| 0 <= i < c.len() implies strictly_increasing(#[trigger] c[i]) by {
            assert(c.to_set().contains(c[i]));
        }
        assert forall|i: int, j: int|
            0 <= i < c.len() && 0 <= j < c.len() && i != j implies !subface(
            #[trigger] c[i],
            #[trigger] c[j],
        ) by {
            assert(c.to_set().contains(c[i]) && c.to_set().contains(c[j]));
            assert(maximal_in(c[i], faces));
        }
        assert forall|f: Seq<u32>| #[trigger] faces.contains(f) implies is_face(c, f) by {
            let g = lemma_has_maximal_above(faces, f);
            assert(top.contains(g));
            assert(c.contains(g));
            let k = choose|k: int| 0 <= k < c.len() && c[k] == g;
            assert(subface(f, c[k]));
        }
    }
}

/// The facet list of the complex that a finite family spans has the
/// vertices of the family.
pub proof fn lemma_complex_of_vertices(x: Seq<Seq<u32>>)
    requires
        faces_wf(x),
    ensures
        vertices(complex_of(x.to_set())) == vertices(x),
{
    let faces = x.to_set();
    let c = complex_of(faces);
    vstd::seq_lib::seq_to_set_is_finite(x);
    assert forall|h: Seq<u32>| faces.contains(h) implies strictly_increasing(h) by {
        let i = choose|i: int| 0 <= i < x.len() && x[i] == h;
    }
    lemma_complex_of(faces);
    assert forall|v: u32| vertices(c).contains(v) == vertices(x).contains(v) by {
        if vertices(c).contains(v) {
            let k = choose|k: int| 0 <= k < c.len() && (#[trigger] c[k]).contains(v);
            assert(c.to_set().contains(c[k]));
            assert(faces.contains(c[k]));
            let i = choose|i: int| 0 <= i < x.len() && x[i] == c[k];
            assert(x[i].contains(v));
        }
        if vertices(x).contains(v) {
            let i = choose|i: int| 0 <= i < x.len() && (#[trigger] x[i]).contains(v);
            assert(faces.contains(x[i]));
            assert(is_face(c, x[i]));
            let k = choose|k: int| 0 <= k < c.len() && subface(x[i], #[trigger] c[k]);
            assert(x[i].to_set().contains(v));
            assert(c[k].to_set().contains(v));
            assert(c[k].contains(v));
        }
    }
    assert(vertices(c) =~= vertices(x));
}

/// The vertices of a family are finitely many.
pub proof fn lemma_vertices_finite(s: Seq<Seq<u32>>)
    ensures
        vertices(s).finite(),
    decreases s.len(),
{
    if s.len() == 0 {
        assert(vertices(s) =~= Set::<u32>::empty());
    } else {
        let s0 = s.drop_last();
        let last = s[s.len() - 1];
        lemma_vertices_finite(s0);
        vstd::seq_lib::seq_to_set_is_finite(last);
        assert forall|v: u32| vertices(s).contains(v) == vertices(s0).union(
            last.to_set(),
        ).contains(v) by {
            if vertices(s).contains(v) {
                let i = choose|i: int| 0 <= i < s.len() && (#[trigger] s[i]).contains(v);
                if i < s0.len() {
                    assert(s0[i].contains(v));
                }
            }
            if vertices(s0).contains(v) {
                let i = choose|i: int| 0 <= i < s0.len() && (#[trigger] s0[i]).contains(v);
                assert(s[i].contains(v));
            }
            if last.contains(v) {
                assert(s[s.len() - 1].contains(v));
            }
        }
        assert(vertices(s) =~= vertices(s0).union(last.to_set()));
    }
}

/// Merges two ordered lists of faces into one. A face that both lists hold
/// is kept once.
fn merge_ordered(a: Vec<Face>, b: Vec<Face>) -> (r: Vec<Face>)
    requires
        strictly_ordered(face_views(a@)),
        strictly_ordered(face_views(b@)),
        faces_wf(face_views(a@)),
        faces_wf(face_views(b@)),
    ensures
        strictly_ordered(face_views(r@)),
        faces_wf(face_views(r@)),
        face_views(r@).to_set() == face_views(a@).to_set().union(face_views(b@).to_set()),
        r@.len() <= a@.len() + b@.len(),
{
    let ghost target = face_views(a@).to_set().union(face_views(b@).to_set());
    let ghost total = a@.len() + b@.len();
    let mut a = a;
    let mut b = b;
    // the faces from the last one up
    let mut back: Vec<Face> = Vec::new();
    assert(face_views(back@).to_set().union(face_views(a@).to_set()).union(
        face_views(b@).to_set(),
    ) =~= target);
    while a.len() > 0 || b.len() > 0
        invariant
            strictly_ordered(face_views(a@)),
            strictly_ordered(face_views(b@)),
            faces_wf(face_views(a@)),
            faces_wf(face_views(b@)),
            faces_wf(face_views(back@)),
            forall|i: int, j: int|
                0 <= i < j < back@.len() ==> precedes(
                    #[trigger] face_views(back@)[j],
                    #[trigger] face_views(back@)[i],
                ),
            forall|k: int, t: int|
                0 <= k < back@.len() && 0 <= t < a@.len() ==> precedes(
                    #[trigger] face_views(a@)[t],
                    #[trigger] face_views(back@)[k],
                ),
            forall|k: int, t: int|
                0 <= k < back@.len() && 0 <= t < b@.len() ==> precedes(
                    #[trigger] face_views(b@)[t],
                    #[trigger] face_views(back@)[k],
                ),
            face_views(back@).to_set().union(face_views(a@).to_set()).union(
                face_views(b@).to_set(),
            ) == target,
            back@.len() + a@.len() + b@.len() <= total,
        decreases a@.len() + b@.len(),
    {
        let ghost av = face_views(a@);
        let ghost bv = face_views(b@);
        let ghost ov = face_views(back@);
        let mut from_a = false;
        let mut from_b = false;
        if a.len() == 0 {
            from_b = true;
        } else if b.len() == 0 {
            from_a = true;
        } else {
            let x = &a[a.len() - 1];
            let y = &b[b.len() - 1];
            assert(av[av.len() - 1] == x@ && bv[bv.len() - 1] == y@);
            if x.precedes(y) {
                from_b = true;
            } else if y.precedes(x) {
                from_a = true;
            } else {
                proof {
                    lemma_precedes_total(x@, y@);
                }
                from_a = true;
                from_b = true;
            }
        }
        let f = if from_a {
            if from_b {
                let twin = b.pop();
            }
            a.pop().unwrap()
        } else {
            b.pop().unwrap()
        };
        proof {
            let a2 = face_views(a@);
            let b2 = face_views(b@);
            let o2 = ov.push(f@);
            assert(face_views(back@.push(f)) =~= o2);
            if from_a {
                assert(av =~= a2.push(f@));
                a2.lemma_push_to_set_commute(f@);
                assert(av[av.len() - 1] == f@);
            } else {
                assert(a2 =~= av);
            }
            if from_b {
                assert(bv =~= b2.push(bv[bv.len() - 1]));
                b2.lemma_push_to_set_commute(bv[bv.len() - 1]);
                assert(bv[bv.len() - 1] == f@);
            } else {
                assert(b2 =~= bv);
            }
            ov.lemma_push_to_set_commute(f@);
            assert(o2.to_set().union(a2.to_set()).union(b2.to_set()) =~= target);
            assert forall|t: int| 0 <= t < a2.len() implies precedes(#[trigger] a2[t], f@) by {
                assert(a2[t] == av[t]);
                if from_a {
                    assert(precedes(av[t], av[av.len() - 1]));
                } else {
                    // the last face of `a` stands before the one taken from `b`
                    let last = av[av.len() - 1];
                    if t < av.len() - 1 {
                        assert(precedes(av[t], last));
                        lemma_precedes_transitive(av[t], last, f@);
                    }
                }
            }
            assert forall|t: int| 0 <= t < b2.len() implies precedes(#[trigger] b2[t], f@) by {
                assert(b2[t] == bv[t]);
                if from_b {
                    assert(precedes(bv[t], bv[bv.len() - 1]));
                } else {
                    let last = bv[bv.len() - 1];
                    if t < bv.len() - 1 {
                        assert(precedes(bv[t], last));
                        lemma_precedes_transitive(bv[t], last, f@);
                    }
                }
            }
            assert forall|i: int, j: int| 0 <= i < j < o2.len() implies precedes(
                #[trigger] o2[j],
                #[trigger] o2[i],
            ) by {
                if j < ov.len() {
                    assert(precedes(ov[j], ov[i]));
                } else if from_a {
                    assert(precedes(av[av.len() - 1], ov[i]));
                } else {
                    assert(precedes(bv[bv.len() - 1], ov[i]));
                }
            }
            assert forall|k: int, t: int| 0 <= k < o2.len() && 0 <= t < a2.len() implies precedes(
                #[trigger] a2[t],
                #[trigger] o2[k],
            ) by {
                if k < ov.len() {
                    assert(precedes(av[t], ov[k]));
                }
            }
            assert forall|k: int, t: int| 0 <= k < o2.len() && 0 <= t < b2.len() implies precedes(
                #[trigger] b2[t],
                #[trigger] o2[k],
            ) by {
                if k < ov.len() {
                    assert(precedes(bv[t], ov[k]));
                }
            }
            assert(strictly_ordered(a2)) by {
                assert forall|i: int, j: int| 0 <= i < j < a2.len() implies precedes(
                    #[trigger] a2[i],
                    #[trigger] a2[j],
                ) by {
                    assert(precedes(av[i], av[j]));
                }
            }
            assert(strictly_ordered(b2)) by {
                assert forall|i: int, j: int| 0 <= i < j < b2.len() implies precedes(
                    #[trigger] b2[i],
                    #[trigger] b2[j],
                ) by {
                    assert(precedes(bv[i], bv[j]));
                }
            }
            assert(faces_wf(a2)) by {
                assert forall|k: int| 0 <= k < a2.len() implies strictly_increasing(
                    #[trigger] a2[k],
                ) by {
                    assert(a2[k] == av[k]);
                }
            }
            assert(faces_wf(b2)) by {
                assert forall|k: int| 0 <= k < b2.len() implies strictly_increasing(
                    #[trigger] b2[k],
                ) by {
                    assert(b2[k] == bv[k]);
                }
            }
            assert(faces_wf(o2)) by {
                assert forall|k: int| 0 <= k < o2.len() implies strictly_increasing(
                    #[trigger] o2[k],
                ) by {
                    if k < ov.len() {
                        assert(o2[k] == ov[k]);
                    } else if from_a {
                        assert(strictly_increasing(av[av.len() - 1]));
                    } else {
                        assert(strictly_increasing(bv[bv.len() - 1]));
                    }
                }
            }
        }
        back.push(f);
    }
    let ghost bk = face_views(back@);
    let ghost count = back@.len();
    proof {
        assert(face_views(a@).to_set() =~= Set::<Seq<u32>>::empty());
        assert(face_views(b@).to_set() =~= Set::<Seq<u32>>::empty());
        assert(bk.to_set() =~= target);
    }
    let mut out: Vec<Face> = Vec::new();
    while back.len() > 0
        invariant
            back@.len() + out@.len() == count,
            forall|k: int| 0 <= k < back@.len() ==> #[trigger] face_views(back@)[k] == bk[k],
            forall|k: int| 0 <= k < out@.len() ==> #[trigger] face_views(out@)[k] == bk[count - 1 - k],
        decreases back@.len(),
    {
        let ghost before = face_views(back@);
        let ghost built = face_views(out@);
        let f = back.pop().unwrap();
        proof {
            assert(before[before.len() - 1] == f@);
            assert(face_views(out@.push(f)) =~= built.push(f@));
            assert forall|k: int| 0 <= k < back@.len() implies #[trigger] face_views(back@)[k]
                == bk[k] by {
                assert(face_views(back@)[k] == before[k]);
            }
        }
        out.push(f);
    }
    proof {
        let o = face_views(out@);
        assert(o =~= bk.reverse());
        assert forall|i: int, j: int| 0 <= i < j < o.len() implies precedes(
            #[trigger] o[i],
            #[trigger] o[j],
        ) by {
            assert(precedes(bk[count - 1 - i], bk[count - 1 - j]));
        }
        assert forall|k: int| 0 <= k < o.len() implies strictly_increasing(#[trigger] o[k]) by {
            assert(strictly_increasing(bk[count - 1 - k]));
        }
        assert forall|f: Seq<u32>| o.to_set().contains(f) == bk.to_set().contains(f) by {
            if o.contains(f) {
                let k = choose|k: int| 0 <= k < o.len() && o[k] == f;
                assert(bk[count - 1 - k] == f);
            }
            if bk.contains(f) {
                let k = choose|k: int| 0 <= k < bk.len() && bk[k] == f;
                assert(o[count - 1 - k] == f);
            }
        }
        assert(o.to_set() =~= bk.to_set());
    }
    out
}

/// The faces of `faces` in their order, each once.
pub fn sorted_unique(faces: Vec<Face>) -> (r: Vec<Face>)
    requires
        faces_wf(face_views(faces@)),
    ensures
        strictly_ordered(face_views(r@)),
        faces_wf(face_views(r@)),
        face_views(r@).to_set() == face_views(faces@).to_set(),
        r@.len() <= faces@.len(),
    decreases faces@.len(),
{
    let n = faces.len();
    if n <= 1 {
        return faces;
    }
    let ghost all = face_views(faces@);
    let mut left = faces;
    let right = left.split_off(n / 2);
    proof {
        let a = face_views(left@);
        let b = face_views(right@);
        assert(all =~= a + b);
        vstd::seq_lib::seq_to_set_distributes_over_add(a, b);
        assert(faces_wf(a)) by {
            assert forall|k: int| 0 <= k < a.len() implies strictly_increasing(#[trigger] a[k]) by {
                assert(a[k] == all[k]);
            }
        }
        assert(faces_wf(b)) by {
            assert forall|k: int| 0 <= k < b.len() implies strictly_increasing(#[trigger] b[k]) by {
                assert(b[k] == all[k + a.len()]);
            }
        }
    }
    let a = sorted_unique(left);
    let b = sorted_unique(right);
    merge_ordered(a, b)
}

/// Whether `f` lies in a member of an ordered list all of whose members
/// stand before `f`. Only the members that are larger than `f` are looked
/// at: they come first, and no other member can hold `f`.
fn lies_in_larger(list: &Vec<Face>, f: &Face) -> (r: bool)
    requires
        strictly_ordered(face_views(list@)),
        faces_wf(face_views(list@)),
        f.wf(),
        forall|k: int| 0 <= k < list@.len() ==> precedes(#[trigger] face_views(list@)[k], f@),
    ensures
        r == is_face(face_views(list@), f@),
{
    let ghost s = face_views(list@);
    let n = f.len();
    let mut i: usize = 0;
    while i < list.len()
        invariant
            s == face_views(list@),
            strictly_ordered(s),
            faces_wf(s),
            f.wf(),
            n == f@.len(),
            forall|k: int| 0 <= k < s.len() ==> precedes(#[trigger] s[k], f@),
            i <= list@.len(),
            forall|k: int| 0 <= k < i ==> !subface(f@, #[trigger] s[k]),
        decreases list@.len() - i,
    {
        assert(s[i as int] == list@[i as int]@);
        if list[i].len() <= n {
            proof {
                assert forall|k: int| 0 <= k < s.len() implies !subface(f@, #[trigger] s[k]) by {
                    if k >= i {
                        if k > i {
                            assert(precedes(s[i as int], s[k]));
                        }
                        assert(precedes(s[k], f@));
                        if subface(f@, s[k]) {
                            lemma_subface_not_shorter(f@, s[k]);
                            lemma_precedes_irreflexive(f@);
                        }
                    }
                }
            }
            return false;
        }
        if f.leq(&list[i]) {
            return true;
        }
        i += 1;
    }
    false
}

/// Drops from an ordered list every face that lies in another one.
pub fn maximal_filter(sorted: &Vec<Face>) -> (r: Vec<Face>)
    requires
        strictly_ordered(face_views(sorted@)),
        faces_wf(face_views(sorted@)),
    ensures
        strictly_ordered(face_views(r@)),
        faces_wf(face_views(r@)),
        antichain(face_views(r@)),
        face_views(r@).to_set() == max_faces(face_views(sorted@).to_set()),
        spans(face_views(r@), face_views(sorted@).to_set()),
        r@.len() <= sorted@.len(),
        sorted@.len() > 0 ==> r@.len() > 0,
{
    let ghost c = face_views(sorted@);
    let mut out: Vec<Face> = Vec::new();
    let mut i: usize = 0;
    while i < sorted.len()
        invariant
            c == face_views(sorted@),
            strictly_ordered(c),
            faces_wf(c),
            i <= sorted@.len(),
            out@.len() <= i,
            i > 0 ==> out@.len() > 0,
            strictly_ordered(face_views(out@)),
            faces_wf(face_views(out@)),
            antichain(face_views(out@)),
            forall|k: int| 0 <= k < out@.len() ==> c.contains(#[trigger] face_views(out@)[k]),
            forall|m: int| 0 <= m < i ==> is_face(face_views(out@), #[trigger] c[m]),
            forall|k: int, m: int|
                0 <= k < out@.len() && i <= m < c.len() ==> precedes(
                    #[trigger] face_views(out@)[k],
                    #[trigger] c[m],
                ),
        decreases sorted@.len() - i,
    {
        let ghost o = face_views(out@);
        assert(c[i as int] == sorted@[i as int]@);
        let inside = lies_in_larger(&out, &sorted[i]);
        if !inside {
            let f = sorted[i].clone();
            proof {
                let o2 = o.push(f@);
                assert(face_views(out@.push(f)) =~= o2);
                assert forall|a: int, b: int| 0 <= a < b < o2.len() implies precedes(
                    #[trigger] o2[a],
                    #[trigger] o2[b],
                ) by {
                    if b < o.len() {
                        assert(precedes(o[a], o[b]));
                    } else {
                        assert(precedes(o[a], c[i as int]));
                    }
                }
                assert forall|a: int, b: int|
                    0 <= a < o2.len() && 0 <= b < o2.len() && a != b implies !subface(
                    #[trigger] o2[a],
                    #[trigger] o2[b],
                ) by {
                    if a < o.len() && b < o.len() {
                        assert(!subface(o[a], o[b]));
                    } else if a < o.len() {
                        // an earlier face is not shorter, so inside the new one it would be it
                        assert(precedes(o[a], c[i as int]));
                        if subface(o[a], f@) {
                            lemma_subface_not_shorter(o[a], f@);
                            lemma_precedes_irreflexive(f@);
                        }
                    } else {
                        assert(!is_face(o, f@));
                        assert(!subface(f@, o[b]));
                    }
                }
                assert forall|k: int| 0 <= k < o2.len() implies c.contains(#[trigger] o2[k]) by {
                    if k < o.len() {
                        assert(c.contains(o[k]));
                    } else {
                        assert(c[i as int] == o2[k]);
                    }
                }
                assert forall|m: int| 0 <= m < i + 1 implies is_face(o2, #[trigger] c[m]) by {
                    if m < i {
                        assert(is_face(o, c[m]));
                        let k = choose|k: int| 0 <= k < o.len() && subface(c[m], o[k]);
                        assert(o2[k] == o[k]);
                    } else {
                        assert(subface(c[m], o2[o.len() as int]));
                    }
                }
                assert forall|k: int, m: int|
                    0 <= k < o2.len() && i + 1 <= m < c.len() implies precedes(
                    #[trigger] o2[k],
                    #[trigger] c[m],
                ) by {
                    if k < o.len() {
                        assert(precedes(o[k], c[m]));
                    } else {
                        assert(precedes(c[i as int], c[m]));
                    }
                }
                assert(faces_wf(o2));
            }
            out.push(f);
        }
        i += 1;
    }
    proof {
        let o = face_views(out@);
        let faces = c.to_set();
        assert forall|f: Seq<u32>| o.to_set().contains(f) == max_faces(faces).contains(f) by {
            if o.contains(f) {
                let k = choose|k: int| 0 <= k < o.len() && o[k] == f;
                assert(c.contains(o[k]));
                assert forall|g: Seq<u32>| faces.contains(g) && #[trigger] subface(f, g) implies g
                    == f by {
                    let m = choose|m: int| 0 <= m < c.len() && c[m] == g;
                    assert(is_face(o, c[m]));
                    let k2 = choose|k2: int| 0 <= k2 < o.len() && subface(c[m], o[k2]);
                    assert(subface(o[k], o[k2]));
                    assert(k == k2);
                    lemma_subface_len(f, g);
                    lemma_subface_not_shorter(g, f);
                }
            }
            if maximal_in(f, faces) {
                let m = choose|m: int| 0 <= m < c.len() && c[m] == f;
                assert(is_face(o, c[m]));
                let k = choose|k: int| 0 <= k < o.len() && subface(c[m], o[k]);
                assert(c.contains(o[k]));
                assert(faces.contains(o[k]));
                assert(o[k] == f);
            }
        }
        assert(o.to_set() =~= max_faces(faces));
        assert forall|f: Seq<u32>| #[trigger] faces.contains(f) implies is_face(o, f) by {
            let m = choose|m: int| 0 <= m < c.len() && c[m] == f;
            assert(is_face(o, c[m]));
        }
    }
    out
}

/// The vertices of a family put together from two parts are those of the
/// parts.
pub proof fn lemma_vertices_concat(a: Seq<Seq<u32>>, b: Seq<Seq<u32>>)
    ensures
        vertices(a + b) == vertices(a).union(vertices(b)),
{
    let c = a + b;
    assert forall|v: u32| vertices(c).contains(v) == vertices(a).union(vertices(b)).contains(v) by {
        if vertices(c).contains(v) {
            let i = choose|i: int| 0 <= i < c.len() && (#[trigger] c[i]).contains(v);
            if i < a.len() {
                assert(a[i].contains(v));
            } else {
                assert(b[i - a.len()].contains(v));
            }
        }
        if vertices(a).contains(v) {
            let i = choose|i: int| 0 <= i < a.len() && (#[trigger] a[i]).contains(v);
            assert(c[i].contains(v));
        }
        if vertices(b).contains(v) {
            let i = choose|i: int| 0 <= i < b.len() && (#[trigger] b[i]).contains(v);
            assert(c[i + a.len()].contains(v));
        }
    }
    assert(vertices(c) =~= vertices(a).union(vertices(b)));
}

/// The vertices of the members from the place `lo` up to the place `hi`.
fn vertices_between(list: &Vec<Face>, lo: usize, hi: usize) -> (r: Face)
    requires
        faces_wf(face_views(list@)),
        lo <= hi <= list@.len(),
    ensures
        r.wf(),
        r.set() == vertices(face_views(list@).subrange(lo as int, hi as int)),
    decreases hi - lo,
{
    let ghost s = face_views(list@);
    let ghost part = s.subrange(lo as int, hi as int);
    if hi - lo == 0 {
        let r = Face::new();
        assert(r.set() =~= vertices(part));
        r
    } else if hi - lo == 1 {
        assert(s[lo as int] == list@[lo as int]@);
        let r = list[lo].clone();
        proof {
            assert(part[0] == r@);
            assert forall|v: u32| r.set().contains(v) == vertices(part).contains(v) by {
                if vertices(part).contains(v) {
                    let i = choose|i: int| 0 <= i < part.len() && (#[trigger] part[i]).contains(v);
                }
            }
            assert(r.set() =~= vertices(part));
        }
        r
    } else {
        let mid = lo + (hi - lo) / 2;
        let left = vertices_between(list, lo, mid);
        let right = vertices_between(list, mid, hi);
        proof {
            let a = s.subrange(lo as int, mid as int);
            let b = s.subrange(mid as int, hi as int);
            assert(part =~= a + b);
            lemma_vertices_concat(a, b);
        }
        left.union(&right)
    }
}

/// The vertices of a family, as one face.
pub fn vertex_set_of(list: &Vec<Face>) -> (r: Face)
    requires
        faces_wf(face_views(list@)),
    ensures
        r.wf(),
        r.set() == vertices(face_views(list@)),
{
    let r = vertices_between(list, 0, list.len());
    assert(face_views(list@).subrange(0, list@.len() as int) =~= face_views(list@));
    r
}

} // verus!
