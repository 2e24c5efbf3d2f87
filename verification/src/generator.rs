//! The complex of partial bijections between two finite sets.
//!
//! Its vertices are the partial bijections that are not empty, and its
//! facets are the chains that lead from a partial bijection defined
//! everywhere on the smaller set down to one with a single pair, each step
//! leaving out one pair.

use crate::complex::SimplicialComplex;
use crate::face::Face;
use crate::family::{complex_of, face_views, faces_wf, label_limit};
use crate::relabel::{face_of, lemma_face_of_seq, relabeled};
use itertools::Itertools;
use vstd::prelude::*;

verus! {

/// `p` lists `k` different numbers below `n`.
pub open spec fn is_arrangement(p: Seq<u8>, n: int, k: int) -> bool {
    &&& p.len() == k
    &&& p.no_duplicates()
    &&& forall|i: int| 0 <= i < p.len() ==> #[trigger] p[i] < n
}

/// The number of arrangements of `k` different numbers below `n`:
/// `n * (n - 1) * ...`, with `k` factors.
pub open spec fn falling(n: nat, k: nat) -> nat
    decreases k,
{
    if k == 0 {
        1
    } else if k > n {
        0
    } else {
        falling(n, (k - 1) as nat) * ((n - k + 1) as nat)
    }
}

/// The power of `b` with the exponent `e`.
pub open spec fn power(b: nat, e: nat) -> nat
    decreases e,
{
    if e == 0 {
        1
    } else {
        b * power(b, (e - 1) as nat)
    }
}

/// The number of chains of partial bijections from a set of `m` elements
/// to one of `n` elements: one for every way to map the smaller set and
/// every order in which to leave out the pairs.
pub open spec fn chain_count(m: nat, n: nat) -> nat {
    falling(n, m) * falling(m, m)
}

/// The number that stands for a partial bijection: the one that maps every
/// place `i` below `upto`, but for those in `gone`, to `vals[i]`. The pair
/// at the place `i` adds `(vals[i] + 1) * base^i`, so that with a base
/// above every `vals[i] + 1` different partial bijections have different
/// codes.
pub open spec fn code(vals: Seq<u8>, gone: Set<int>, upto: int, base: nat) -> nat
    decreases upto,
{
    if upto <= 0 {
        0
    } else {
        code(vals, gone, upto - 1, base) + if gone.contains(upto - 1) {
            0nat
        } else {
            ((vals[upto - 1] + 1) * power(base, (upto - 1) as nat)) as nat
        }
    }
}

/// The places that the first `k` entries of `ord` name.
pub open spec fn removed(ord: Seq<u8>, k: int) -> Set<int> {
    Set::new(|i: int| exists|j: int| 0 <= j < k && j < ord.len() && #[trigger] ord[j] == i)
}

/// The codes along the chain that starts at the partial bijection `vals`
/// and leaves out the pairs in the order `ord`. In the square case, where
/// the two sets are of one size, the second member of the chain is left
/// out.
pub open spec fn chain(vals: Seq<u8>, ord: Seq<u8>, square: bool, base: nat) -> Set<u32> {
    Set::new(
        |c: u32|
            exists|k: int|
                0 <= k < vals.len() && !(square && k == 1) && c == #[trigger] code(
                    vals,
                    removed(ord, k),
                    vals.len() as int,
                    base,
                ),
    )
}

/// The chains of partial bijections from a set of `m` elements to one of
/// `n` elements, as faces of codes to the base `n + 1`.
pub open spec fn chain_faces(m: int, n: int) -> Set<Seq<u32>> {
    let square = m == n;
    let base = (n + 1) as nat;
    Set::new(
        |f: Seq<u32>|
            exists|vals: Seq<u8>, ord: Seq<u8>|
                is_arrangement(vals, n, m) && is_arrangement(ord, m, m) && f == face_of(
                    #[trigger] chain(vals, ord, square, base),
                ),
    )
}

/// The smaller one of the two sizes.
pub open spec fn small_side(a: u8, b: u8) -> u8 {
    if a <= b {
        a
    } else {
        b
    }
}

/// The larger one of the two sizes.
pub open spec fn large_side(a: u8, b: u8) -> u8 {
    if a <= b {
        b
    } else {
        a
    }
}

/// The complex of partial bijections between a set of `a` and a set of `b`
/// elements, its vertices named `0, 1, ...` in the order of their codes.
pub open spec fn partial_bijections(a: u8, b: u8) -> Seq<Seq<u32>> {
    relabeled(complex_of(chain_faces(small_side(a, b) as int, large_side(a, b) as int)))
}

/// The complex of partial bijections between a set of `a` and a set of `b`
/// elements can be held: the places of its chains can serve as vertex
/// labels.
pub open spec fn generator_fits(a: u8, b: u8) -> bool {
    chain_count(small_side(a, b) as nat, large_side(a, b) as nat) <= label_limit()
}

/// `Itertools::permutations` of the crate `itertools`, taken of the numbers
/// `0..n` and collected: the list holds every arrangement of `k` different
/// numbers below `n`, and nothing else. Nothing is said of the order of the
/// list. The bound on the number of arrangements keeps the list within what
/// a list can hold.
#[verifier::external_body]
fn arrangements(n: u8, k: usize) -> (r: Vec<Vec<u8>>)
    requires
        falling(n as nat, k as nat) <= label_limit(),
    ensures
        forall|i: int| 0 <= i < r@.len() ==> is_arrangement((#[trigger] r@[i])@, n as int, k as int),
        forall|p: Seq<u8>| #[trigger]
            is_arrangement(p, n as int, k as int) ==> exists|i: int| 0 <= i < r@.len() && r@[i]@ == p,
{
    (0..n).permutations(k).collect()
}

/// With more factors the falling product is not smaller, as long as all
/// its factors are positive.
proof fn lemma_falling_monotone(n: nat, i: nat, k: nat)
    requires
        i <= k <= n,
    ensures
        1 <= falling(n, i) <= falling(n, k),
    decreases k,
{
    if k == 0 {
    } else if i == k {
        lemma_falling_monotone(n, (i - 1) as nat, (k - 1) as nat);
        let f = falling(n, (k - 1) as nat);
        let g = (n - k + 1) as nat;
        assert(f * g >= 1) by (nonlinear_arith)
            requires
                f >= 1,
                g >= 1,
        ;
    } else {
        lemma_falling_monotone(n, i, (k - 1) as nat);
        let f = falling(n, (k - 1) as nat);
        let g = (n - k + 1) as nat;
        assert(f * g >= f) by (nonlinear_arith)
            requires
                f >= 0,
                g >= 1,
        ;
    }
}

/// With a greater exponent the power of a positive base is not smaller.
proof fn lemma_power_monotone(b: nat, i: nat, e: nat)
    requires
        b >= 1,
        i <= e,
    ensures
        1 <= power(b, i) <= power(b, e),
    decreases e,
{
    if e == 0 {
    } else if i == e {
        lemma_power_monotone(b, (i - 1) as nat, (e - 1) as nat);
        let p = power(b, (e - 1) as nat);
        assert(b * p >= 1) by (nonlinear_arith)
            requires
                b >= 1,
                p >= 1,
        ;
    } else {
        lemma_power_monotone(b, i, (e - 1) as nat);
        let p = power(b, (e - 1) as nat);
        assert(b * p >= p) by (nonlinear_arith)
            requires
                b >= 1,
                p >= 0,
        ;
    }
}

/// From a larger set there are not fewer arrangements.
proof fn lemma_falling_grows(small: nat, large: nat, k: nat)
    requires
        k <= small <= large,
    ensures
        falling(small, k) <= falling(large, k),
    decreases k,
{
    if k > 0 {
        lemma_falling_grows(small, large, (k - 1) as nat);
        let f = falling(small, (k - 1) as nat);
        let g = falling(large, (k - 1) as nat);
        let x = (small - k + 1) as nat;
        let y = (large - k + 1) as nat;
        assert(f * x <= g * y) by (nonlinear_arith)
            requires
                0 <= f <= g,
                0 <= x <= y,
        ;
    }
}

/// The power of a greater base is not smaller.
proof fn lemma_power_grows(small: nat, large: nat, e: nat)
    requires
        small <= large,
    ensures
        power(small, e) <= power(large, e),
    decreases e,
{
    if e > 0 {
        lemma_power_grows(small, large, (e - 1) as nat);
        let p = power(small, (e - 1) as nat);
        let q = power(large, (e - 1) as nat);
        assert(small * p <= large * q) by (nonlinear_arith)
            requires
                0 <= small <= large,
                0 <= p <= q,
        ;
    }
}

/// Where the smaller set has `m` elements and the larger one at least
/// `many`, there are at least as many chains as from `m` to `many`
/// elements.
proof fn lemma_chains_grow(m: nat, many: nat, n: nat)
    requires
        m <= many <= n,
    ensures
        chain_count(m, many) <= chain_count(m, n),
{
    lemma_falling_grows(many, n, m);
    let f = falling(many, m);
    let g = falling(n, m);
    let t = falling(m, m);
    assert(f * t <= g * t) by (nonlinear_arith)
        requires
            0 <= f <= g,
            0 <= t,
    ;
}

/// One more factor of the falling product.
proof fn lemma_falling_step(n: nat, k: nat, before: nat)
    requires
        1 <= k <= n,
        falling(n, (k - 1) as nat) == before,
    ensures
        falling(n, k) == before * (n - k + 1),
{
}

/// Some numbers of arrangements.
proof fn lemma_falling_values()
    ensures
        falling(84, 5) == 3704641920,
        falling(40, 6) == 2763633600,
        falling(23, 7) == 1235591280,
        falling(16, 8) == 518918400,
        falling(9, 9) == 362880,
        falling(5, 5) == 120,
        falling(6, 6) == 720,
        falling(7, 7) == 5040,
        falling(8, 8) == 40320,
{
    lemma_falling_step(84, 1, 1);
    lemma_falling_step(84, 2, 84);
    lemma_falling_step(84, 3, 6972);
    lemma_falling_step(84, 4, 571704);
    lemma_falling_step(84, 5, 46308024);
    lemma_falling_step(40, 1, 1);
    lemma_falling_step(40, 2, 40);
    lemma_falling_step(40, 3, 1560);
    lemma_falling_step(40, 4, 59280);
    lemma_falling_step(40, 5, 2193360);
    lemma_falling_step(40, 6, 78960960);
    lemma_falling_step(23, 1, 1);
    lemma_falling_step(23, 2, 23);
    lemma_falling_step(23, 3, 506);
    lemma_falling_step(23, 4, 10626);
    lemma_falling_step(23, 5, 212520);
    lemma_falling_step(23, 6, 4037880);
    lemma_falling_step(23, 7, 72681840);
    lemma_falling_step(16, 1, 1);
    lemma_falling_step(16, 2, 16);
    lemma_falling_step(16, 3, 240);
    lemma_falling_step(16, 4, 3360);
    lemma_falling_step(16, 5, 43680);
    lemma_falling_step(16, 6, 524160);
    lemma_falling_step(16, 7, 5765760);
    lemma_falling_step(16, 8, 57657600);
    lemma_falling_step(9, 1, 1);
    lemma_falling_step(9, 2, 9);
    lemma_falling_step(9, 3, 72);
    lemma_falling_step(9, 4, 504);
    lemma_falling_step(9, 5, 3024);
    lemma_falling_step(9, 6, 15120);
    lemma_falling_step(9, 7, 60480);
    lemma_falling_step(9, 8, 181440);
    lemma_falling_step(9, 9, 362880);
    lemma_falling_step(5, 1, 1);
    lemma_falling_step(5, 2, 5);
    lemma_falling_step(5, 3, 20);
    lemma_falling_step(5, 4, 60);
    lemma_falling_step(5, 5, 120);
    lemma_falling_step(6, 1, 1);
    lemma_falling_step(6, 2, 6);
    lemma_falling_step(6, 3, 30);
    lemma_falling_step(6, 4, 120);
    lemma_falling_step(6, 5, 360);
    lemma_falling_step(6, 6, 720);
    lemma_falling_step(7, 1, 1);
    lemma_falling_step(7, 2, 7);
    lemma_falling_step(7, 3, 42);
    lemma_falling_step(7, 4, 210);
    lemma_falling_step(7, 5, 840);
    lemma_falling_step(7, 6, 2520);
    lemma_falling_step(7, 7, 5040);
    lemma_falling_step(8, 1, 1);
    lemma_falling_step(8, 2, 8);
    lemma_falling_step(8, 3, 56);
    lemma_falling_step(8, 4, 336);
    lemma_falling_step(8, 5, 1680);
    lemma_falling_step(8, 6, 6720);
    lemma_falling_step(8, 7, 20160);
    lemma_falling_step(8, 8, 40320);
}

/// Where the chains can be counted by labels, the codes of the vertices
/// are labels: with at most 2^32 chains the codes to the base `n + 1` stay
/// below 2^32.
proof fn lemma_codes_fit(m: nat, n: nat)
    requires
        m <= n <= 255,
        chain_count(m, n) <= label_limit(),
    ensures
        power(n + 1, m) <= label_limit(),
{
    reveal_with_fuel(power, 10);
    lemma_falling_values();
    if m <= 4 {
        lemma_power_grows(n + 1, 256, m);
        lemma_power_monotone(256, m, 4);
        assert(power(256, 4) == 0x1_0000_0000);
    } else if m == 5 {
        if n >= 84 {
            lemma_chains_grow(5, 84, n);
            assert(chain_count(5, 84) == 444557030400) by (nonlinear_arith)
                requires
                    chain_count(5, 84) == falling(84, 5) * falling(5, 5),
                    falling(84, 5) == 3704641920,
                    falling(5, 5) == 120,
            ;
        } else {
            lemma_power_grows(n + 1, 84, 5);
            assert(power(84, 5) == 4182119424);
        }
    } else if m == 6 {
        if n >= 40 {
            lemma_chains_grow(6, 40, n);
            assert(chain_count(6, 40) == 1989816192000) by (nonlinear_arith)
                requires
                    chain_count(6, 40) == falling(40, 6) * falling(6, 6),
                    falling(40, 6) == 2763633600,
                    falling(6, 6) == 720,
            ;
        } else {
            lemma_power_grows(n + 1, 40, 6);
            assert(power(40, 6) == 4096000000);
        }
    } else if m == 7 {
        if n >= 23 {
            lemma_chains_grow(7, 23, n);
            assert(chain_count(7, 23) == 6227380051200) by (nonlinear_arith)
                requires
                    chain_count(7, 23) == falling(23, 7) * falling(7, 7),
                    falling(23, 7) == 1235591280,
                    falling(7, 7) == 5040,
            ;
        } else {
            lemma_power_grows(n + 1, 23, 7);
            assert(power(23, 7) == 3404825447);
        }
    } else if m == 8 {
        if n >= 16 {
            lemma_chains_grow(8, 16, n);
            assert(chain_count(8, 16) == 20922789888000) by (nonlinear_arith)
                requires
                    chain_count(8, 16) == falling(16, 8) * falling(8, 8),
                    falling(16, 8) == 518918400,
                    falling(8, 8) == 40320,
            ;
        } else {
            lemma_power_grows(n + 1, 16, 8);
            assert(power(16, 8) == 0x1_0000_0000);
        }
    } else {
        // nine elements can be put in order in too many ways already
        lemma_falling_grows(9, m, 9);
        lemma_falling_monotone(m, 9, m);
        lemma_falling_grows(m, n, m);
        let f = falling(n, m);
        let t = falling(m, m);
        assert(f * t >= 362880 * 362880) by (nonlinear_arith)
            requires
                f >= 362880,
                t >= 362880,
        ;
    }
}

/// The code is below the power of the base that belongs to `upto`.
proof fn lemma_code_bound(vals: Seq<u8>, gone: Set<int>, upto: int, base: nat)
    requires
        0 <= upto <= vals.len(),
        forall|i: int| 0 <= i < vals.len() ==> #[trigger] vals[i] + 1 < base,
    ensures
        code(vals, gone, upto, base) < power(base, upto as nat),
    decreases upto,
{
    if upto > 0 {
        lemma_code_bound(vals, gone, upto - 1, base);
        let p = power(base, (upto - 1) as nat);
        let v = vals[upto - 1] as int;
        let c = code(vals, gone, upto - 1, base);
        assert(c + (v + 1) * p < base * p) by (nonlinear_arith)
            requires
                0 <= v,
                v + 1 < base,
                0 <= c < p,
        ;
    }
}

/// Leaving out one more pair takes the share of that pair off the code.
proof fn lemma_code_remove(vals: Seq<u8>, gone: Set<int>, upto: int, at: int, base: nat)
    requires
        0 <= upto <= vals.len(),
        0 <= at < vals.len(),
        !gone.contains(at),
    ensures
        code(vals, gone.insert(at), upto, base) == code(vals, gone, upto, base) - if at < upto {
            (vals[at] + 1) * power(base, at as nat)
        } else {
            0
        },
    decreases upto,
{
    if upto > 0 {
        lemma_code_remove(vals, gone, upto - 1, at, base);
    }
}

/// The number of arrangements of `k` different numbers below `n`, where it
/// is at most 2^32.
fn count_within(n: u8, k: u8) -> (r: Option<u64>)
    requires
        k <= n,
    ensures
        r is Some <==> falling(n as nat, k as nat) <= label_limit(),
        r matches Some(c) ==> c == falling(n as nat, k as nat),
{
    let mut acc: u64 = 1;
    let mut i: u8 = 0;
    while i < k
        invariant
            i <= k <= n,
            acc == falling(n as nat, i as nat),
            acc <= 0x1_0000_0000,
        decreases k - i,
    {
        let factor: u64 = (n - i) as u64;
        proof {
            assert(acc * factor <= 0x1_0000_0000 * 255) by (nonlinear_arith)
                requires
                    0 <= acc <= 0x1_0000_0000,
                    0 <= factor <= 255,
            ;
        }
        let next: u64 = acc * factor;
        assert(next == falling(n as nat, (i + 1) as nat));
        if next > 0x1_0000_0000u64 {
            proof {
                lemma_falling_monotone(n as nat, (i + 1) as nat, k as nat);
            }
            return None;
        }
        acc = next;
        i += 1;
    }
    Some(acc)
}

/// The powers of `base` with the exponents below `m`.
fn power_table(base: u64, m: usize) -> (pw: Vec<u64>)
    requires
        1 <= base <= 256,
        m <= 255,
        power(base as nat, m as nat) <= label_limit(),
    ensures
        pw@.len() == m,
        forall|i: int| 0 <= i < m ==> #[trigger] pw@[i] == power(base as nat, i as nat),
{
    let mut pw: Vec<u64> = Vec::new();
    let mut acc: u64 = 1;
    let mut i: usize = 0;
    while i < m
        invariant
            i <= m,
            1 <= base <= 256,
            power(base as nat, m as nat) <= label_limit(),
            acc == power(base as nat, i as nat),
            pw@.len() == i,
            forall|k: int| 0 <= k < i ==> #[trigger] pw@[k] == power(base as nat, k as nat),
        decreases m - i,
    {
        pw.push(acc);
        proof {
            lemma_power_monotone(base as nat, i as nat, m as nat);
            lemma_power_monotone(base as nat, (i + 1) as nat, m as nat);
        }
        acc = base * acc;
        i += 1;
    }
    pw
}

/// The share of the pair at the place `at` in a code.
fn share(vals: &Vec<u8>, at: usize, pw: &Vec<u64>, Ghost(base): Ghost<nat>) -> (s: u64)
    requires
        at < vals@.len(),
        pw@.len() == vals@.len(),
        forall|i: int| 0 <= i < vals@.len() ==> #[trigger] pw@[i] == power(base, i as nat),
        power(base, vals@.len()) <= label_limit(),
        base >= 1,
    ensures
        s == (vals@[at as int] + 1) * power(base, at as nat),
{
    let p = pw[at];
    let v: u64 = vals[at] as u64 + 1;
    proof {
        lemma_power_monotone(base, at as nat, vals@.len());
        assert(v * p <= 256 * 0x1_0000_0000) by (nonlinear_arith)
            requires
                0 <= v <= 256,
                0 <= p <= 0x1_0000_0000,
        ;
    }
    v * p
}

/// The face of the chain that starts at `vals` and leaves out the pairs in
/// the order `ord`.
fn chain_face(vals: &Vec<u8>, ord: &Vec<u8>, square: bool, pw: &Vec<u64>, Ghost(base): Ghost<nat>) -> (r:
    Face)
    requires
        pw@.len() == vals@.len(),
        forall|i: int| 0 <= i < vals@.len() ==> #[trigger] pw@[i] == power(base, i as nat),
        power(base, vals@.len()) <= label_limit(),
        forall|i: int| 0 <= i < vals@.len() ==> #[trigger] vals@[i] + 1 < base,
        base >= 1,
        is_arrangement(ord@, vals@.len() as int, vals@.len() as int),
    ensures
        r.wf(),
        r@ == face_of(chain(vals@, ord@, square, base)),
{
    let m = vals.len();
    let mut cur: u64 = 0;
    let mut i: usize = 0;
    let ghost none = Set::<int>::empty();
    while i < m
        invariant
            m == vals@.len(),
            pw@.len() == m,
            forall|i: int| 0 <= i < vals@.len() ==> #[trigger] pw@[i] == power(base, i as nat),
            power(base, m as nat) <= label_limit(),
            forall|i: int| 0 <= i < vals@.len() ==> #[trigger] vals@[i] + 1 < base,
            base >= 1,
            i <= m,
            cur == code(vals@, none, i as int, base),
            none == Set::<int>::empty(),
        decreases m - i,
    {
        let s = share(vals, i, pw, Ghost(base));
        proof {
            lemma_code_bound(vals@, none, i + 1, base);
            lemma_power_monotone(base, (i + 1) as nat, m as nat);
        }
        cur = cur + s;
        i += 1;
    }
    let mut codes: Vec<u32> = Vec::new();
    let mut k: usize = 0;
    proof {
        assert(removed(ord@, 0) =~= none);
        lemma_code_bound(vals@, none, m as int, base);
    }
    while k < m
        invariant
            m == vals@.len(),
            pw@.len() == m,
            forall|i: int| 0 <= i < vals@.len() ==> #[trigger] pw@[i] == power(base, i as nat),
            power(base, m as nat) <= label_limit(),
            forall|i: int| 0 <= i < vals@.len() ==> #[trigger] vals@[i] + 1 < base,
            base >= 1,
            is_arrangement(ord@, m as int, m as int),
            k <= m,
            cur == code(vals@, removed(ord@, k as int), m as int, base),
            cur < 0x1_0000_0000,
            forall|c: u32|
                codes@.contains(c) <==> exists|j: int|
                    0 <= j < k && !(square && j == 1) && c == #[trigger] code(
                        vals@,
                        removed(ord@, j),
                        m as int,
                        base,
                    ),
        decreases m - k,
    {
        let ghost before = codes@;
        let label: u32 = cur as u32;
        if !(square && k == 1) {
            codes.push(label);
        }
        proof {
            assert forall|c: u32|
                codes@.contains(c) <==> exists|j: int|
                    0 <= j < k + 1 && !(square && j == 1) && c == #[trigger] code(
                        vals@,
                        removed(ord@, j),
                        m as int,
                        base,
                    ) by {
                if !(square && k == 1) {
                    vstd::seq_lib::lemma_seq_contains_after_push(before, label, c);
                }
                if exists|j: int|
                    0 <= j < k + 1 && !(square && j == 1) && c == #[trigger] code(
                        vals@,
                        removed(ord@, j),
                        m as int,
                        base,
                    ) {
                    let j = choose|j: int|
                        0 <= j < k + 1 && !(square && j == 1) && c == #[trigger] code(
                            vals@,
                            removed(ord@, j),
                            m as int,
                            base,
                        );
                    if j == k {
                        assert(c == label);
                    }
                }
            }
        }
        let at = ord[k] as usize;
        let s = share(vals, at, pw, Ghost(base));
        proof {
            let gone = removed(ord@, k as int);
            assert(!gone.contains(at as int)) by {
                if gone.contains(at as int) {
                    let j = choose|j: int| 0 <= j < k && j < ord@.len() && #[trigger] ord@[j] == at as int;
                    assert(ord@[j] == ord@[k as int]);
                }
            }
            assert(removed(ord@, k + 1) =~= gone.insert(at as int)) by {
                assert forall|x: int| removed(ord@, k + 1).contains(x) == gone.insert(
                    at as int,
                ).contains(x) by {
                    if removed(ord@, k + 1).contains(x) {
                        let j = choose|j: int| 0 <= j < k + 1 && j < ord@.len() && #[trigger] ord@[j] == x;
                        if j < k {
                            assert(gone.contains(x));
                        }
                    }
                    if gone.contains(x) {
                        let j = choose|j: int| 0 <= j < k && j < ord@.len() && #[trigger] ord@[j] == x;
                        assert(0 <= j < k + 1 && ord@[j] == x);
                    }
                    if x == at as int {
                        assert(ord@[k as int] == x);
                    }
                }
            }
            lemma_code_remove(vals@, gone, m as int, at as int, base);
        }
        cur = cur - s;
        k += 1;
    }
    proof {
        assert(codes@.to_set() =~= chain(vals@, ord@, square, base));
    }
    let r = Face::from_vec(codes);
    proof {
        lemma_face_of_seq(r@);
    }
    r
}

/// The complex of partial bijections between a set of `a` elements and a
/// set of `b` elements.
///
/// The complex is given where it can be held: where it has at most 2^32
/// chains.
pub fn partial_bijection_complex(a: u8, b: u8) -> (r: Option<SimplicialComplex>)
    ensures
        r is Some <==> generator_fits(a, b),
        r matches Some(sc) ==> sc.wf() && sc@ == partial_bijections(a, b),
{
    let m = if a <= b { a } else { b };
    let n = if a <= b { b } else { a };
    let square = m == n;
    let ghost base = (n + 1) as nat;
    proof {
        lemma_falling_monotone(n as nat, 0, m as nat);
        lemma_falling_monotone(m as nat, 0, m as nat);
    }
    let ways = count_within(n, m);
    let turns = count_within(m, m);
    let fits = match (ways, turns) {
        (Some(w), Some(t)) => {
            proof {
                assert(w * t <= 0x1_0000_0000 * 0x1_0000_0000) by (nonlinear_arith)
                    requires
                        0 <= w <= 0x1_0000_0000,
                        0 <= t <= 0x1_0000_0000,
                ;
            }
            (w as u128) * (t as u128) <= 0x1_0000_0000u128
        },
        _ => {
            proof {
                let f = falling(n as nat, m as nat);
                let g = falling(m as nat, m as nat);
                if ways is None {
                    assert(f * g >= f) by (nonlinear_arith)
                        requires
                            f >= 0,
                            g >= 1,
                    ;
                } else {
                    assert(f * g >= g) by (nonlinear_arith)
                        requires
                            f >= 1,
                            g >= 0,
                    ;
                }
            }
            false
        },
    };
    if !fits {
        return None;
    }
    proof {
        lemma_codes_fit(m as nat, n as nat);
    }
    let pw = power_table(n as u64 + 1, m as usize);
    let maps = arrangements(n, m as usize);
    let orders = arrangements(m, m as usize);
    let mut faces: Vec<Face> = Vec::new();
    let ghost target = chain_faces(m as int, n as int);
    let mut i: usize = 0;
    while i < maps.len()
        invariant
            m <= n,
            base == (n + 1) as nat,
            pw@.len() == m,
            forall|t: int| 0 <= t < m ==> #[trigger] pw@[t] == power(base, t as nat),
            power(base, m as nat) <= label_limit(),
            square == (m == n),
            i <= maps@.len(),
            forall|t: int| 0 <= t < maps@.len() ==> is_arrangement((#[trigger] maps@[t])@, n as int, m as int),
            forall|t: int|
                0 <= t < orders@.len() ==> is_arrangement((#[trigger] orders@[t])@, m as int, m as int),
            faces_wf(face_views(faces@)),
            forall|f: Seq<u32>|
                face_views(faces@).contains(f) <==> exists|s: int, t: int|
                    0 <= s < i && 0 <= t < orders@.len() && f == face_of(
                        #[trigger] chain(maps@[s]@, orders@[t]@, square, base),
                    ),
        decreases maps@.len() - i,
    {
        let vals = &maps[i];
        let mut j: usize = 0;
        while j < orders.len()
            invariant
                m <= n,
            base == (n + 1) as nat,
            pw@.len() == m,
            forall|t: int| 0 <= t < m ==> #[trigger] pw@[t] == power(base, t as nat),
            power(base, m as nat) <= label_limit(),
                square == (m == n),
                i < maps@.len(),
                vals@ == maps@[i as int]@,
                j <= orders@.len(),
                forall|t: int|
                    0 <= t < maps@.len() ==> is_arrangement((#[trigger] maps@[t])@, n as int, m as int),
                forall|t: int|
                    0 <= t < orders@.len() ==> is_arrangement(
                        (#[trigger] orders@[t])@,
                        m as int,
                        m as int,
                    ),
                faces_wf(face_views(faces@)),
                forall|f: Seq<u32>|
                    face_views(faces@).contains(f) <==> (exists|s: int, t: int|
                        0 <= s < i && 0 <= t < orders@.len() && f == face_of(
                            #[trigger] chain(maps@[s]@, orders@[t]@, square, base),
                        )) || (exists|t: int|
                        0 <= t < j && f == face_of(#[trigger] chain(vals@, orders@[t]@, square, base))),
            decreases orders@.len() - j,
        {
            let ord = &orders[j];
            proof {
                assert(is_arrangement(maps@[i as int]@, n as int, m as int));
                assert(is_arrangement(orders@[j as int]@, m as int, m as int));
            }
            let face = chain_face(vals, ord, square, &pw, Ghost(base));
            let ghost before = face_views(faces@);
            proof {
                assert(face_views(faces@.push(face)) =~= before.push(face@));
                assert forall|k: int| 0 <= k < before.push(face@).len() implies crate::face::strictly_increasing(
                    #[trigger] before.push(face@)[k],
                ) by {
                    if k < before.len() {
                        assert(before.push(face@)[k] == before[k]);
                    }
                }
                assert forall|f: Seq<u32>|
                    before.push(face@).contains(f) <==> (exists|s: int, t: int|
                        0 <= s < i && 0 <= t < orders@.len() && f == face_of(
                            #[trigger] chain(maps@[s]@, orders@[t]@, square, base),
                        )) || (exists|t: int|
                        0 <= t < j + 1 && f == face_of(
                            #[trigger] chain(vals@, orders@[t]@, square, base),
                        )) by {
                    vstd::seq_lib::lemma_seq_contains_after_push(before, face@, f);
                    if exists|t: int|
                        0 <= t < j + 1 && f == face_of(#[trigger] chain(vals@, orders@[t]@, square, base)) {
                        let t = choose|t: int|
                            0 <= t < j + 1 && f == face_of(
                                #[trigger] chain(vals@, orders@[t]@, square, base),
                            );
                        if t == j {
                            assert(f == face@);
                        }
                    }
                    if f == face@ {
                        assert(f == face_of(chain(vals@, orders@[j as int]@, square, base)));
                    }
                }
            }
            faces.push(face);
            j += 1;
        }
        proof {
            assert forall|f: Seq<u32>|
                face_views(faces@).contains(f) <==> exists|s: int, t: int|
                    0 <= s < i + 1 && 0 <= t < orders@.len() && f == face_of(
                        #[trigger] chain(maps@[s]@, orders@[t]@, square, base),
                    ) by {
                if exists|s: int, t: int|
                    0 <= s < i + 1 && 0 <= t < orders@.len() && f == face_of(
                        #[trigger] chain(maps@[s]@, orders@[t]@, square, base),
                    ) {
                    let (s, t) = choose|s: int, t: int|
                        0 <= s < i + 1 && 0 <= t < orders@.len() && f == face_of(
                            #[trigger] chain(maps@[s]@, orders@[t]@, square, base),
                        );
                    if s == i {
                        assert(f == face_of(chain(vals@, orders@[t]@, square, base)));
                    }
                }
                if exists|t: int|
                    0 <= t < orders@.len() && f == face_of(
                        #[trigger] chain(vals@, orders@[t]@, square, base),
                    ) {
                    let t = choose|t: int|
                        0 <= t < orders@.len() && f == face_of(
                            #[trigger] chain(vals@, orders@[t]@, square, base),
                        );
                    assert(f == face_of(chain(maps@[i as int]@, orders@[t]@, square, base)));
                }
            }
        }
        i += 1;
    }
    proof {
        assert forall|f: Seq<u32>| face_views(faces@).to_set().contains(f) == target.contains(f) by {
            if face_views(faces@).contains(f) {
                let (s, t) = choose|s: int, t: int|
                    0 <= s < maps@.len() && 0 <= t < orders@.len() && f == face_of(
                        #[trigger] chain(maps@[s]@, orders@[t]@, square, base),
                    );
                assert(is_arrangement(maps@[s]@, n as int, m as int));
                assert(is_arrangement(orders@[t]@, m as int, m as int));
            }
            if target.contains(f) {
                let (vals, ord) = choose|vals: Seq<u8>, ord: Seq<u8>|
                    is_arrangement(vals, n as int, m as int) && is_arrangement(ord, m as int, m as int)
                        && f == face_of(#[trigger] chain(vals, ord, square, base));
                let s = choose|s: int| 0 <= s < maps@.len() && maps@[s]@ == vals;
                let t = choose|t: int| 0 <= t < orders@.len() && orders@[t]@ == ord;
                assert(f == face_of(chain(maps@[s]@, orders@[t]@, square, base)));
            }
        }
        assert(face_views(faces@).to_set() =~= target);
    }
    let mut sc = SimplicialComplex::from_check_unique(faces);
    sc.relabel_vertices();
    Some(sc)
}

} // verus!
