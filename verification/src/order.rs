//! The order in which a complex lists its facets: larger faces first, and
//! among faces of one size the lexicographically greater tuple first.

use crate::face::Face;
use vstd::prelude::*;

verus! {

/// `a` comes before `b` in the lexicographic order of sequences.
pub open spec fn lex_less(a: Seq<u32>, b: Seq<u32>) -> bool
    decreases a.len(),
{
    if a.len() == 0 || b.len() == 0 {
        a.len() < b.len()
    } else if a[0] != b[0] {
        a[0] < b[0]
    } else {
        lex_less(a.drop_first(), b.drop_first())
    }
}

/// `a` stands before `b` in a facet list: it is longer, or as long and
/// lexicographically greater.
pub open spec fn precedes(a: Seq<u32>, b: Seq<u32>) -> bool {
    a.len() > b.len() || (a.len() == b.len() && lex_less(b, a))
}

/// Every entry of `s` stands before all later ones.
pub open spec fn strictly_ordered(s: Seq<Seq<u32>>) -> bool {
    forall|i: int, j: int| 0 <= i < j < s.len() ==> precedes(#[trigger] s[i], #[trigger] s[j])
}

pub proof fn lemma_lex_irreflexive(a: Seq<u32>)
    ensures
        !lex_less(a, a),
    decreases a.len(),
{
    if a.len() > 0 {
        lemma_lex_irreflexive(a.drop_first());
    }
}

pub proof fn lemma_lex_total(a: Seq<u32>, b: Seq<u32>)
    ensures
        a == b || lex_less(a, b) || lex_less(b, a),
    decreases a.len(),
{
    if a.len() == 0 || b.len() == 0 {
        if a.len() == b.len() {
            assert(a =~= b);
        }
    } else if a[0] == b[0] {
        lemma_lex_total(a.drop_first(), b.drop_first());
        if a.drop_first() == b.drop_first() {
            assert(a =~= seq![a[0]] + a.drop_first());
            assert(b =~= seq![b[0]] + b.drop_first());
        }
    }
}

pub proof fn lemma_lex_transitive(a: Seq<u32>, b: Seq<u32>, c: Seq<u32>)
    requires
        lex_less(a, b),
        lex_less(b, c),
    ensures
        lex_less(a, c),
    decreases a.len(),
{
    if a.len() == 0 || b.len() == 0 || c.len() == 0 {
    } else if a[0] == b[0] && b[0] == c[0] {
        lemma_lex_transitive(a.drop_first(), b.drop_first(), c.drop_first());
    }
}

pub proof fn lemma_precedes_irreflexive(a: Seq<u32>)
    ensures
        !precedes(a, a),
{
    lemma_lex_irreflexive(a);
}

pub proof fn lemma_precedes_total(a: Seq<u32>, b: Seq<u32>)
    ensures
        a == b || precedes(a, b) || precedes(b, a),
{
    lemma_lex_total(a, b);
}

pub proof fn lemma_precedes_transitive(a: Seq<u32>, b: Seq<u32>, c: Seq<u32>)
    requires
        precedes(a, b),
        precedes(b, c),
    ensures
        precedes(a, c),
{
    if a.len() == b.len() && b.len() == c.len() {
        lemma_lex_transitive(c, b, a);
    }
}

pub proof fn lemma_precedes_asymmetric(a: Seq<u32>, b: Seq<u32>)
    requires
        precedes(a, b),
    ensures
        !precedes(b, a),
{
    if precedes(b, a) {
        lemma_precedes_transitive(a, b, a);
        lemma_precedes_irreflexive(a);
    }
}

/// A strictly ordered list holds no face twice.
pub proof fn lemma_ordered_no_duplicates(s: Seq<Seq<u32>>)
    requires
        strictly_ordered(s),
    ensures
        s.no_duplicates(),
{
    assert forall|i: int, j: int| 0 <= i < s.len() && 0 <= j < s.len() && i != j implies s[i]
        != s[j] by {
        lemma_precedes_irreflexive(s[i]);
        if i < j {
            assert(precedes(s[i], s[j]));
        } else {
            assert(precedes(s[j], s[i]));
        }
    }
}

/// Two strictly ordered lists of the same faces are the same list.
pub proof fn lemma_ordered_unique(a: Seq<Seq<u32>>, b: Seq<Seq<u32>>)
    requires
        strictly_ordered(a),
        strictly_ordered(b),
        a.to_set() == b.to_set(),
    ensures
        a == b,
    decreases a.len(),
{
    lemma_ordered_no_duplicates(a);
    lemma_ordered_no_duplicates(b);
    a.unique_seq_to_set();
    b.unique_seq_to_set();
    assert(a.len() == b.len());
    if a.len() > 0 {
        let n = a.len() - 1;
        assert(a.to_set().contains(a[n]));
        assert(b.contains(a[n]));
        assert(b.to_set().contains(b[n]));
        assert(a.contains(b[n]));
        let ia = choose|i: int| 0 <= i < a.len() && a[i] == b[n];
        let ib = choose|i: int| 0 <= i < b.len() && b[i] == a[n];
        // each last entry is the one that all others precede
        if a[n] != b[n] {
            assert(ia < n && ib < n);
            assert(precedes(a[ia], a[n]));
            assert(precedes(b[ib], b[n]));
            lemma_precedes_asymmetric(a[ia], a[n]);
        }
        let a0 = a.drop_last();
        let b0 = b.drop_last();
        assert(strictly_ordered(a0)) by {
            assert forall|i: int, j: int| 0 <= i < j < a0.len() implies precedes(
                #[trigger] a0[i],
                #[trigger] a0[j],
            ) by {
                assert(precedes(a[i], a[j]));
            }
        }
        assert(strictly_ordered(b0)) by {
            assert forall|i: int, j: int| 0 <= i < j < b0.len() implies precedes(
                #[trigger] b0[i],
                #[trigger] b0[j],
            ) by {
                assert(precedes(b[i], b[j]));
            }
        }
        assert(a0.to_set() =~= b0.to_set()) by {
            assert forall|x: Seq<u32>| a0.to_set().contains(x) == b0.to_set().contains(x) by {
                if a0.contains(x) {
                    let i = choose|i: int| 0 <= i < a0.len() && a0[i] == x;
                    assert(a[i] == x);
                    assert(a.to_set().contains(x));
                    assert(b.contains(x));
                    let j = choose|j: int| 0 <= j < b.len() && b[j] == x;
                    assert(j != n);
                    assert(b0[j] == x);
                }
                if b0.contains(x) {
                    let i = choose|i: int| 0 <= i < b0.len() && b0[i] == x;
                    assert(b[i] == x);
                    assert(b.to_set().contains(x));
                    assert(a.contains(x));
                    let j = choose|j: int| 0 <= j < a.len() && a[j] == x;
                    assert(j != n);
                    assert(a0[j] == x);
                }
            }
        }
        lemma_ordered_unique(a0, b0);
        assert(a =~= a0.push(a[n]));
        assert(b =~= b0.push(b[n]));
    } else {
        assert(a =~= b);
    }
}

/// The strictly ordered list of the faces in `faces`.
pub open spec fn arrange(faces: Set<Seq<u32>>) -> Seq<Seq<u32>> {
    choose|s: Seq<Seq<u32>>| strictly_ordered(s) && s.to_set() == faces
}

/// What a sequence holds after an insertion.
pub proof fn lemma_insert_to_set<A>(s: Seq<A>, i: int, x: A)
    requires
        0 <= i <= s.len(),
    ensures
        s.insert(i, x).to_set() == s.to_set().insert(x),
{
    let t = s.insert(i, x);
    assert forall|y: A| t.to_set().contains(y) == s.to_set().insert(x).contains(y) by {
        if t.contains(y) {
            let k = choose|k: int| 0 <= k < t.len() && t[k] == y;
            if k < i {
                assert(s[k] == y);
            } else if k > i {
                assert(s[k - 1] == y);
            }
        }
        if s.contains(y) {
            let k = choose|k: int| 0 <= k < s.len() && s[k] == y;
            if k < i {
                assert(t[k] == y);
            } else {
                assert(t[k + 1] == y);
            }
        }
        if y == x {
            assert(t[i] == y);
        }
    }
    assert(t.to_set() =~= s.to_set().insert(x));
}

/// A face put between the faces that stand before it and those that it
/// stands before leaves the list strictly ordered.
pub proof fn lemma_ordered_insert(s: Seq<Seq<u32>>, p: int, x: Seq<u32>)
    requires
        strictly_ordered(s),
        0 <= p <= s.len(),
        forall|k: int| 0 <= k < p ==> precedes(#[trigger] s[k], x),
        forall|k: int| p <= k < s.len() ==> precedes(x, #[trigger] s[k]),
    ensures
        strictly_ordered(s.insert(p, x)),
        s.insert(p, x).to_set() == s.to_set().insert(x),
{
    let t = s.insert(p, x);
    assert forall|a: int, b: int| 0 <= a < b < t.len() implies precedes(
        #[trigger] t[a],
        #[trigger] t[b],
    ) by {
        let a1 = if a < p { a } else { a - 1 };
        let b1 = if b < p { b } else { b - 1 };
        if a != p {
            assert(t[a] == s[a1]);
        }
        if b != p {
            assert(t[b] == s[b1]);
        }
        if a != p && b != p {
            assert(precedes(s[a1], s[b1]));
        }
    }
    lemma_insert_to_set(s, p, x);
}

/// The place of a face in a strictly ordered list that does not hold it.
pub proof fn lemma_insertion_place(s: Seq<Seq<u32>>, x: Seq<u32>) -> (p: int)
    requires
        strictly_ordered(s),
        !s.contains(x),
    ensures
        0 <= p <= s.len(),
        forall|k: int| 0 <= k < p ==> precedes(#[trigger] s[k], x),
        forall|k: int| p <= k < s.len() ==> precedes(x, #[trigger] s[k]),
    decreases s.len(),
{
    if s.len() == 0 {
        0
    } else {
        let n = s.len() - 1;
        let last = s[n];
        assert(s.contains(last));
        lemma_precedes_total(last, x);
        if precedes(last, x) {
            assert forall|k: int| 0 <= k < s.len() implies precedes(#[trigger] s[k], x) by {
                if k < n {
                    assert(precedes(s[k], s[n]));
                    lemma_precedes_transitive(s[k], last, x);
                }
            }
            s.len() as int
        } else {
            let s0 = s.drop_last();
            assert(strictly_ordered(s0)) by {
                assert forall|i: int, j: int| 0 <= i < j < s0.len() implies precedes(
                    #[trigger] s0[i],
                    #[trigger] s0[j],
                ) by {
                    assert(precedes(s[i], s[j]));
                }
            }
            assert(!s0.contains(x)) by {
                if s0.contains(x) {
                    let i = choose|i: int| 0 <= i < s0.len() && s0[i] == x;
                    assert(s[i] == x);
                }
            }
            let p = lemma_insertion_place(s0, x);
            assert forall|k: int| 0 <= k < p implies precedes(#[trigger] s[k], x) by {
                assert(s0[k] == s[k]);
            }
            assert forall|k: int| p <= k < s.len() implies precedes(x, #[trigger] s[k]) by {
                if k < n {
                    assert(s0[k] == s[k]);
                }
            }
            p
        }
    }
}

/// Every finite set of faces has a strictly ordered list.
pub proof fn lemma_arrange_exists(faces: Set<Seq<u32>>)
    requires
        faces.finite(),
    ensures
        exists|s: Seq<Seq<u32>>| strictly_ordered(s) && s.to_set() == faces,
    decreases faces.len(),
{
    if faces.len() == 0 {
        let s = Seq::<Seq<u32>>::empty();
        faces.lemma_len0_is_empty();
        assert(s.to_set() =~= faces);
        assert(strictly_ordered(s) && s.to_set() == faces);
    } else {
        let x = faces.choose();
        let rest = faces.remove(x);
        lemma_arrange_exists(rest);
        let s0 = choose|s: Seq<Seq<u32>>| strictly_ordered(s) && s.to_set() == rest;
        assert(!s0.contains(x)) by {
            assert(!rest.contains(x));
        }
        let p = lemma_insertion_place(s0, x);
        lemma_ordered_insert(s0, p, x);
        let s = s0.insert(p, x);
        assert(rest.insert(x) =~= faces);
        assert(strictly_ordered(s) && s.to_set() == faces);
    }
}

/// The arrangement of a finite set of faces is strictly ordered and holds
/// the faces of the set, each once.
pub proof fn lemma_arrange(faces: Set<Seq<u32>>)
    requires
        faces.finite(),
    ensures
        strictly_ordered(arrange(faces)),
        arrange(faces).to_set() == faces,
        arrange(faces).no_duplicates(),
        arrange(faces).len() == faces.len(),
{
    lemma_arrange_exists(faces);
    lemma_ordered_no_duplicates(arrange(faces));
    arrange(faces).unique_seq_to_set();
}

/// A strictly ordered list is the arrangement of its own faces.
pub proof fn lemma_arrange_of_ordered(s: Seq<Seq<u32>>)
    requires
        strictly_ordered(s),
    ensures
        arrange(s.to_set()) == s,
{
    let t = arrange(s.to_set());
    assert(strictly_ordered(t) && t.to_set() == s.to_set());
    lemma_ordered_unique(t, s);
}

impl Face {
    /// Whether this face stands before `other` in a facet list.
    pub fn precedes(&self, other: &Face) -> (r: bool)
        ensures
            r == precedes(self@, other@),
    {
        let n = self.len();
        let m = other.len();
        if n != m {
            return n > m;
        }
        let mut i: usize = 0;
        assert(self@.skip(0) =~= self@ && other@.skip(0) =~= other@);
        while i < n
            invariant
                n == self@.len(),
                n == other@.len(),
                i <= n,
                lex_less(other@, self@) == lex_less(other@.skip(i as int), self@.skip(i as int)),
            decreases n - i,
        {
            let x = self.get(i);
            let y = other.get(i);
            proof {
                let a = other@.skip(i as int);
                let b = self@.skip(i as int);
                assert(a[0] == y && b[0] == x);
                assert(a.drop_first() =~= other@.skip(i + 1));
                assert(b.drop_first() =~= self@.skip(i + 1));
            }
            if x != y {
                return y < x;
            }
            i += 1;
        }
        false
    }
}

} // verus!
