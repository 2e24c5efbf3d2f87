//! The whole simplification: nerve reduction, bounded edge pinching, and the
//! pair of the simplified complex with a contractible subcomplex.

use crate::complex::SimplicialComplex;
use crate::face::Face;
use crate::family::{complex_of, face_views, faces_wf, label_limit};
use crate::interrupt::is_set;
use crate::family::vertices;
use crate::nerve::{height, nerve, nerve_iter, progress};
use crate::oracle::{accretion, places_from};
use crate::pinch::{edge_table, finish, pinch_outcome, run};
use crate::subcomplex::{pair_meets, without};
use std::sync::atomic::AtomicBool;
use std::sync::Arc;
use vstd::prelude::*;

verus! {

/// What the user asks of a run.
#[derive(Clone, Copy, Debug)]
pub struct Cli {
    /// Make the input maximal. The input is always made maximal on the way
    /// in, so this changes nothing; it is kept for callers that pass it.
    pub check_input: bool,
    /// Leave out the reduction by nerves.
    pub skip_nerve: bool,
    /// The greatest number of pinching sweeps; 0 leaves pinching out.
    pub max_pinch_loops: usize,
    /// Give the simplified complex alone, without a subcomplex.
    pub no_pair: bool,
    /// Give the simplified complex with its contractible subcomplex as they
    /// are, instead of the pair made small.
    pub skip_minimize_pair: bool,
    /// Write the result as XML.
    pub xml: bool,
    /// Say nothing on the diagnostic channel.
    pub quiet: bool,
}

impl Default for Cli {
    fn default() -> (r: Self)
        ensures
            r == (Cli {
                check_input: false,
                skip_nerve: false,
                max_pinch_loops: 2,
                no_pair: false,
                skip_minimize_pair: false,
                xml: false,
                quiet: false,
            }),
    {
        Cli {
            check_input: false,
            skip_nerve: false,
            max_pinch_loops: 2,
            no_pair: false,
            skip_minimize_pair: false,
            xml: false,
            quiet: false,
        }
    }
}

/// What a run gives: one complex, a complex with a subcomplex, or nothing.
#[derive(Debug)]
pub enum Simplified {
    /// The simplified complex.
    Single(SimplicialComplex),
    /// A complex and a subcomplex of it.
    Pair(SimplicialComplex, SimplicialComplex),
    /// Nothing: a pair was asked of the empty complex.
    Nothing,
}

/// The facet lists of what a run gives.
pub enum Shape {
    Single(Seq<Seq<u32>>),
    Pair(Seq<Seq<u32>>, Seq<Seq<u32>>),
    Nothing,
}

impl View for Simplified {
    type V = Shape;

    open spec fn view(&self) -> Shape {
        match self {
            Simplified::Single(a) => Shape::Single(a@),
            Simplified::Pair(a, b) => Shape::Pair(a@, b@),
            Simplified::Nothing => Shape::Nothing,
        }
    }
}

impl Simplified {
    /// Every complex of the result satisfies the invariant of complexes.
    pub open spec fn wf(&self) -> bool {
        match self {
            Simplified::Single(a) => a.wf(),
            Simplified::Pair(a, b) => a.wf() && b.wf(),
            Simplified::Nothing => true,
        }
    }
}

/// The number of nerves that the reduction takes: the first number at which
/// one more nerve makes no progress.
pub open spec fn reduction_count(x: Seq<Seq<u32>>) -> nat {
    choose|n: nat| !progress(x, n) && forall|k: nat| k < n ==> progress(x, k)
}

/// The complex that the reduction by nerves leaves.
pub open spec fn reduced(x: Seq<Seq<u32>>) -> Seq<Seq<u32>> {
    nerve_iter(x, reduction_count(x))
}

/// The first number without progress is the number of nerves taken.
pub proof fn lemma_reduction_count(x: Seq<Seq<u32>>, n: nat)
    requires
        !progress(x, n),
        forall|k: nat| k < n ==> progress(x, k),
    ensures
        reduction_count(x) == n,
{
    let m = reduction_count(x);
    assert(!progress(x, m) && forall|k: nat| k < m ==> progress(x, k));
    if m < n {
        assert(progress(x, m));
    }
    if n < m {
        assert(progress(x, n));
    }
}

/// A second reduction by nerves takes no nerve, where the first one took an
/// even number of nerves, or left a complex whose nerve has at least as many
/// facets as the complex has vertices.
pub proof fn lemma_nerve_reduce_again(x: Seq<Seq<u32>>, n: nat)
    requires
        !progress(x, n),
        forall|k: nat| k < n ==> progress(x, k),
        n % 2 == 0 || nerve(nerve_iter(x, n)).len() >= vertices(nerve_iter(x, n)).len(),
    ensures
        reduced(x) == nerve_iter(x, n),
        !progress(reduced(x), 0),
        reduction_count(reduced(x)) == 0,
{
    lemma_reduction_count(x, n);
    let y = nerve_iter(x, n);
    assert(nerve_iter(y, 0) == y);
    assert(nerve_iter(y, 1) == nerve(nerve_iter(y, 0)));
    assert(nerve_iter(x, n + 1) == nerve(nerve_iter(x, n)));
    lemma_reduction_count(y, 0);
}

/// The complex after at most `loops` sweeps of pinching, each without a
/// bound. A sweep that pinches nothing is the last one.
pub open spec fn pinched(x: Seq<Seq<u32>>, loops: nat) -> Seq<Seq<u32>>
    decreases loops,
{
    if loops == 0 {
        x
    } else {
        let r = run(x, edge_table(x), 0, 0, None, false);
        let y = finish(r.0, r.2);
        if r.1 {
            pinched(y, (loops - 1) as nat)
        } else {
            y
        }
    }
}

/// What the last stage makes of the complex `b`: the complex alone, or,
/// where a pair is made, nothing for the empty complex and else the complex
/// with its contractible subcomplex, as they are or made small.
pub open spec fn assembled(b: Seq<Seq<u32>>, cli: Cli, paired: bool) -> Shape {
    if !paired {
        Shape::Single(b)
    } else if height(b) == 0 {
        Shape::Nothing
    } else {
        let grown = accretion(seq![b[0]], b, places_from(b, 1));
        let sub = complex_of(grown.0.to_set());
        if cli.skip_minimize_pair {
            Shape::Pair(b, sub)
        } else {
            let rest = complex_of(without(b, sub));
            Shape::Pair(rest, complex_of(pair_meets(rest, sub)))
        }
    }
}

/// What a run that nothing interrupts gives for the complex `x`.
pub open spec fn simplified(x: Seq<Seq<u32>>, cli: Cli) -> Shape {
    let a = if cli.skip_nerve {
        x
    } else {
        reduced(x)
    };
    assembled(pinched(a, cli.max_pinch_loops as nat), cli, !cli.no_pair)
}

/// What one call of the pinching stage did: nothing, because the flag was
/// set when it began, or a sweep with room for some number of candidate
/// checks.
pub enum Sweep {
    Skipped,
    Ran(Option<nat>),
}

/// The complex after one call of the pinching stage.
pub open spec fn swept(y: Seq<Seq<u32>>, how: Sweep) -> Seq<Seq<u32>> {
    match how {
        Sweep::Skipped => y,
        Sweep::Ran(fuel) => {
            let r = run(y, edge_table(y), 0, 0, fuel, false);
            finish(r.0, r.2)
        },
    }
}

/// The complex after several calls of the pinching stage.
pub open spec fn swept_all(y: Seq<Seq<u32>>, hows: Seq<Sweep>) -> Seq<Seq<u32>>
    decreases hows.len(),
{
    if hows.len() == 0 {
        y
    } else {
        swept(swept_all(y, hows.drop_last()), hows.last())
    }
}

/// What a run gives that left out the reduction by nerves or not, that
/// called the pinching stage as `hows` says, and that made a pair or not.
pub open spec fn scheduled(x: Seq<Seq<u32>>, cli: Cli, took: bool, hows: Seq<Sweep>, paired: bool) -> Shape {
    assembled(swept_all(if took { reduced(x) } else { x }, hows), cli, paired)
}

/// `out` is what some run gives that the options allow: one that reduces
/// by nerves only where that is not left out, that calls the pinching stage
/// at most `max_pinch_loops` times, and that makes a pair only where one is
/// asked for.
pub open spec fn possible(x: Seq<Seq<u32>>, cli: Cli, out: Shape) -> bool {
    exists|took: bool, hows: Seq<Sweep>, paired: bool|
        (cli.skip_nerve ==> !took) && hows.len() <= cli.max_pinch_loops && (cli.no_pair ==> !paired)
            && out == #[trigger] scheduled(x, cli, took, hows, paired)
}

impl SimplicialComplex {
    /// The complex that the faces of an input span, or `None` where there
    /// are too many faces for their places to serve as vertex labels. The
    /// input is always made maximal.
    pub fn from_input(facets: Vec<Face>) -> (r: Option<Self>)
        requires
            faces_wf(face_views(facets@)),
        ensures
            r is Some <==> facets@.len() <= label_limit(),
            r matches Some(sc) ==> sc.wf() && sc.fits() && sc@ == complex_of(
                face_views(facets@).to_set(),
            ),
    {
        if facets.len() as u64 > 0x1_0000_0000u64 {
            return None;
        }
        Some(SimplicialComplex::from_check_unique(facets))
    }
}

/// What a run tells of its progress: when a stage begins, and what it has
/// made of the complex when it ends.
#[derive(Clone, Copy, Debug)]
pub enum Event {
    /// The reduction by nerves begins.
    NerveBegins,
    /// The reduction by nerves took this many nerves and left a complex
    /// with these numbers of vertices and facets.
    NerveEnds { nerves: u64, vertices: usize, facets: usize },
    /// The pinching begins.
    PinchBegins,
    /// The pinching made this many sweeps and left a complex with these
    /// numbers of vertices and facets.
    PinchEnds { sweeps: usize, vertices: usize, facets: usize },
    /// The accretion of the contractible subcomplex begins.
    AccretionBegins,
    /// The contractible subcomplex has these numbers of vertices and facets.
    AccretionEnds { vertices: usize, facets: usize },
    /// The pair is being made small.
    MinimizeBegins,
    /// The pair made small: the numbers of vertices and facets of the
    /// complex, and those of its subcomplex.
    MinimizeEnds { vertices: usize, facets: usize, sub_vertices: usize, sub_facets: usize },
}

/// Simplifies a complex as [`simplify`] does, and tells `report` of every
/// stage that begins and ends. What is reported changes nothing of the
/// result.
pub fn simplify_with<F: Fn(Event)>(
    sc: SimplicialComplex,
    cli: &Cli,
    intrpt: &Option<Arc<AtomicBool>>,
    report: &F,
) -> (out: Simplified)
    requires
        sc.wf(),
        sc.fits(),
        forall|event: Event| #[trigger] report.requires((event,)),
    ensures
        out.wf(),
        possible(sc@, *cli, out@),
        intrpt is None ==> out@ == simplified(sc@, *cli),
{
    let ghost x = sc@;
    let mut sc = sc;
    let ghost mut took = false;
    if !cli.skip_nerve && !is_set(intrpt) {
        report(Event::NerveBegins);
        let n = sc.nerve_reduce();
        proof {
            lemma_reduction_count(x, n as nat);
            took = true;
        }
        report(Event::NerveEnds { nerves: n, vertices: sc.vertex_set().len(), facets: sc.len() });
    }
    let ghost a = sc@;
    let ghost mut hows: Seq<Sweep> = Seq::empty();
    let mut i: usize = cli.max_pinch_loops;
    let mut sweeps: usize = 0;
    if i > 0 {
        report(Event::PinchBegins);
    }
    while i > 0
        invariant
            sc.wf(),
            sc.fits(),
            hows.len() + i <= cli.max_pinch_loops,
            sweeps + i <= cli.max_pinch_loops,
            sc@ == swept_all(a, hows),
            intrpt is None ==> pinched(sc@, i as nat) == pinched(a, cli.max_pinch_loops as nat),
        ensures
            intrpt is None ==> i == 0,
        decreases i,
    {
        if is_set(intrpt) {
            break ;
        }
        let ghost before = sc@;
        let more = sc.pinch(intrpt);
        proof {
            let how = if exists|fuel: Option<nat>| pinch_outcome(before, fuel, sc@, more) {
                Sweep::Ran(choose|fuel: Option<nat>| pinch_outcome(before, fuel, sc@, more))
            } else {
                Sweep::Skipped
            };
            assert(sc@ == swept(before, how));
            assert(hows.push(how).drop_last() =~= hows);
            hows = hows.push(how);
            if intrpt is None {
                let r = run(before, edge_table(before), 0, 0, None, false);
                assert(sc@ == finish(r.0, r.2) && more == r.1);
                assert(pinched(before, i as nat) == if more {
                    pinched(sc@, (i - 1) as nat)
                } else {
                    sc@
                });
                assert(pinched(sc@, 0) == sc@);
            }
        }
        sweeps += 1;
        if !more {
            i = 0;
        } else {
            i -= 1;
        }
    }
    if cli.max_pinch_loops > 0 {
        report(Event::PinchEnds { sweeps, vertices: sc.vertex_set().len(), facets: sc.len() });
    }
    proof {
        if intrpt is None {
            assert(pinched(sc@, 0) == sc@);
        }
    }
    let ghost b = sc@;
    let paired = !(cli.no_pair || is_set(intrpt));
    let out = if !paired {
        Simplified::Single(sc)
    } else if sc.height() == 0 {
        Simplified::Nothing
    } else {
        report(Event::AccretionBegins);
        let sub = sc.contractible_subcomplex();
        report(Event::AccretionEnds { vertices: sub.vertex_set().len(), facets: sub.len() });
        if cli.skip_minimize_pair {
            Simplified::Pair(sc, sub)
        } else {
            report(Event::MinimizeBegins);
            let (rest, bnd) = sc.minimize_pair(sub);
            report(
                Event::MinimizeEnds {
                    vertices: rest.vertex_set().len(),
                    facets: rest.len(),
                    sub_vertices: bnd.vertex_set().len(),
                    sub_facets: bnd.len(),
                },
            );
            Simplified::Pair(rest, bnd)
        }
    };
    proof {
        assert(out@ == assembled(b, *cli, paired));
        assert(out@ == scheduled(x, *cli, took, hows, paired));
    }
    out
}

/// Simplifies a complex: reduces it by nerves, pinches edges in at most
/// `max_pinch_loops` sweeps, and pairs the result with a contractible
/// subcomplex, as `cli` asks.
///
/// The cancellation flag is looked at before and between the stages and by
/// the pinching sweeps. Where it is found set the stage at hand is left out
/// or cut short, and in the end the complex as it stands is given alone.
/// Whatever the flag says, the result is that of a run that the options
/// allow; without a flag it is [`simplified`].
pub fn simplify(sc: SimplicialComplex, cli: &Cli, intrpt: &Option<Arc<AtomicBool>>) -> (out:
    Simplified)
    requires
        sc.wf(),
        sc.fits(),
    ensures
        out.wf(),
        possible(sc@, *cli, out@),
        intrpt is None ==> out@ == simplified(sc@, *cli),
{
    let silent = |event: Event| {};
    simplify_with(sc, cli, intrpt, &silent)
}

} // verus!
