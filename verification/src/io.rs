//! The text form of a complex: one line for each facet, the vertex labels
//! in decimal, separated by blanks.

use crate::complex::SimplicialComplex;
use crate::face::Face;
use crate::family::{face_views, faces_wf, vertices};
use crate::relabel::{face_of, lemma_face_of_seq};
use vstd::prelude::*;
use vstd::string::StringSliceAdditionalSpecFns;

verus! {

/// A line of the input that cannot be read.
#[derive(Debug, Clone, Copy, PartialEq, Eq)]
pub struct ParseError {
    /// The place of the line among the lines of the input, counted from 0.
    pub line: usize,
}

/// Blanks between labels: the space, the tabulator and the carriage return.
pub open spec fn is_blank(c: u8) -> bool {
    c == 32 || c == 9 || c == 13
}

/// The decimal digits.
pub open spec fn is_digit(c: u8) -> bool {
    48 <= c <= 57
}

/// The number that a sequence of decimal digits stands for.
pub open spec fn decimal(s: Seq<u8>) -> nat
    decreases s.len(),
{
    if s.len() == 0 {
        0
    } else {
        decimal(s.drop_last()) * 10 + (s.last() - 48) as nat
    }
}

/// The label that a stretch of decimal digits stands for: it holds a digit
/// at least, and its number is below 2^32.
pub open spec fn digits_value(d: Seq<u8>) -> Option<u32> {
    if d.len() > 0 && (forall|i: int| 0 <= i < d.len() ==> is_digit(#[trigger] d[i])) && decimal(d)
        <= u32::MAX {
        Some(decimal(d) as u32)
    } else {
        None
    }
}

/// The label that a word stands for: decimal digits, with `+` before them
/// or not.
pub open spec fn numeral(w: Seq<u8>) -> Option<u32> {
    if w.len() > 0 && w[0] == 43 {
        digits_value(w.skip(1))
    } else {
        digits_value(w)
    }
}

/// The bytes from `a` to `b` are a word of the line: a stretch without
/// blanks that cannot be made longer.
pub open spec fn is_word(line: Seq<u8>, a: int, b: int) -> bool {
    &&& 0 <= a < b <= line.len()
    &&& forall|m: int| a <= m < b ==> !is_blank(#[trigger] line[m])
    &&& (a == 0 || is_blank(line[a - 1]))
    &&& (b == line.len() || is_blank(line[b]))
}

/// Every word of the line is a label.
pub open spec fn line_ok(line: Seq<u8>) -> bool {
    forall|a: int, b: int| #[trigger] is_word(line, a, b) ==> numeral(line.subrange(a, b)) is Some
}

/// The labels that the words of the line stand for.
pub open spec fn labels(line: Seq<u8>) -> Set<u32> {
    Set::new(
        |v: u32|
            exists|a: int, b: int| #[trigger] is_word(line, a, b) && numeral(line.subrange(a, b)) == Some(v),
    )
}

/// The end of the line that holds the place `a`: the place of the next line
/// feed, or the end of the text.
pub open spec fn line_end(text: Seq<u8>, a: int) -> int
    decreases text.len() - a,
{
    if a < 0 || a >= text.len() || text[a] == 10 {
        a
    } else {
        line_end(text, a + 1)
    }
}

/// The lines of the text from the place `a` on. A text that ends in a line
/// feed has an empty last line.
pub open spec fn lines_from(text: Seq<u8>, a: int) -> Seq<Seq<u8>>
    decreases text.len() - a,
    when 0 <= a <= text.len()
    via lines_from_decreases
{
    let b = line_end(text, a);
    if b >= text.len() {
        seq![text.subrange(a, text.len() as int)]
    } else {
        seq![text.subrange(a, b)] + lines_from(text, b + 1)
    }
}

#[via_fn]
proof fn lines_from_decreases(text: Seq<u8>, a: int) {
    lemma_line_end(text, a);
}

/// The end of a line lies between its start and the end of the text, and
/// there is no line feed before it.
pub proof fn lemma_line_end(text: Seq<u8>, a: int)
    requires
        0 <= a <= text.len(),
    ensures
        a <= line_end(text, a) <= text.len(),
        line_end(text, a) < text.len() ==> text[line_end(text, a)] == 10,
        forall|m: int| a <= m < line_end(text, a) ==> text[m] != 10,
    decreases text.len() - a,
{
    if a < text.len() && text[a] != 10 {
        lemma_line_end(text, a + 1);
    }
}

/// The faces that the lines stand for, in the order of the lines. Lines
/// without a label stand for no face.
pub open spec fn faces_in(lines: Seq<Seq<u8>>) -> Seq<Seq<u32>>
    decreases lines.len(),
{
    if lines.len() == 0 {
        Seq::empty()
    } else {
        let before = faces_in(lines.drop_last());
        let f = face_of(labels(lines.last()));
        if f.len() > 0 {
            before.push(f)
        } else {
            before
        }
    }
}

/// A longer stretch of digits does not stand for a smaller number.
pub proof fn lemma_decimal_monotone(s: Seq<u8>, k: int)
    requires
        0 <= k <= s.len(),
        forall|i: int| 0 <= i < s.len() ==> is_digit(#[trigger] s[i]),
    ensures
        decimal(s.take(k)) <= decimal(s),
    decreases s.len() - k,
{
    if k < s.len() {
        lemma_decimal_monotone(s, k + 1);
        assert(s.take(k + 1).drop_last() =~= s.take(k));
    } else {
        assert(s.take(k) =~= s);
    }
}

/// Reads the word from `a` to `b` as a label.
fn read_numeral(text: &[u8], a: usize, b: usize) -> (r: Option<u32>)
    requires
        a < b <= text@.len(),
    ensures
        r == numeral(text@.subrange(a as int, b as int)),
{
    let ghost w = text@.subrange(a as int, b as int);
    let start: usize = if text[a] == 43 {
        a + 1
    } else {
        a
    };
    let ghost d = text@.subrange(start as int, b as int);
    proof {
        assert(w[0] == text@[a as int]);
        if text@[a as int] == 43 {
            assert(w.skip(1) =~= d);
        } else {
            assert(w =~= d);
        }
    }
    assert(numeral(w) == digits_value(d));
    if start >= b {
        return None;
    }
    let mut value: u64 = 0;
    let mut i: usize = start;
    assert(d.take(0) =~= Seq::<u8>::empty());
    while i < b
        invariant
            start <= i <= b <= text@.len(),
            start < b,
            d == text@.subrange(start as int, b as int),
            numeral(text@.subrange(a as int, b as int)) == digits_value(d),
            forall|m: int| 0 <= m < i - start ==> is_digit(#[trigger] d[m]),
            value == decimal(d.take(i - start)),
            value <= u32::MAX,
        decreases b - i,
    {
        let c = text[i];
        assert(d[i - start] == c);
        if c < 48 || c > 57 {
            return None;
        }
        let next: u64 = value * 10 + (c - 48) as u64;
        proof {
            assert(d.take(i - start + 1).drop_last() =~= d.take(i - start));
            assert(d.take(i - start + 1).last() == c);
            assert(next == decimal(d.take(i - start + 1)));
        }
        if next > 0xFFFF_FFFFu64 {
            proof {
                if forall|m: int| 0 <= m < d.len() ==> is_digit(#[trigger] d[m]) {
                    lemma_decimal_monotone(d, i - start + 1);
                }
            }
            return None;
        }
        value = next;
        i += 1;
    }
    assert(d.take(i - start) =~= d);
    Some(value as u32)
}

/// Reads the line from `from` to `to`: the face of its labels, or `None`
/// where a word is no label.
fn read_line(text: &[u8], from: usize, to: usize) -> (r: Option<Face>)
    requires
        from <= to <= text@.len(),
    ensures
        r is Some <==> line_ok(text@.subrange(from as int, to as int)),
        r matches Some(f) ==> f.wf() && f@ == face_of(labels(text@.subrange(from as int, to as int))),
{
    let ghost line = text@.subrange(from as int, to as int);
    let n = to - from;
    let mut face = Face::new();
    let mut i: usize = 0;
    while i < n
        invariant
            from <= to <= text@.len(),
            n == to - from,
            line == text@.subrange(from as int, to as int),
            i <= n,
            i == 0 || i == n || is_blank(line[i - 1]) || is_blank(line[i as int]),
            face.wf(),
            forall|a: int, b: int| #[trigger] is_word(line, a, b) && a < i ==> b <= i,
            forall|a: int, b: int| #[trigger]
                is_word(line, a, b) && b <= i ==> numeral(line.subrange(a, b)) is Some
                    && face.set().contains(numeral(line.subrange(a, b))->0),
            forall|v: u32|
                face.set().contains(v) ==> exists|a: int, b: int| #[trigger]
                    is_word(line, a, b) && b <= i && numeral(line.subrange(a, b)) == Some(v),
        decreases n - i,
    {
        let c = text[from + i];
        assert(line[i as int] == c);
        if c == 32 || c == 9 || c == 13 {
            i += 1;
        } else {
            let mut b: usize = i + 1;
            while b < n && !(text[from + b] == 32 || text[from + b] == 9 || text[from + b] == 13)
                invariant
                    from <= to <= text@.len(),
                    n == to - from,
                    line == text@.subrange(from as int, to as int),
                    i < b <= n,
                    forall|m: int| i <= m < b ==> !is_blank(#[trigger] line[m]),
                decreases n - b,
            {
                assert(line[b as int] == text@[from + b]);
                b += 1;
            }
            proof {
                if b < n {
                    assert(line[b as int] == text@[from + b]);
                }
                assert(is_word(line, i as int, b as int));
                assert(line.subrange(i as int, b as int) =~= text@.subrange(from + i, from + b));
            }
            let value = read_numeral(text, from + i, from + b);
            match value {
                None => {
                    return None;
                },
                Some(v) => {
                    let ghost before = face.set();
                    face.insert(v);
                    proof {
                        assert forall|a2: int, b2: int| #[trigger]
                            is_word(line, a2, b2) && a2 < b implies b2 <= b by {
                            if a2 >= i {
                                if a2 > i {
                                    assert(!is_blank(line[a2 - 1]));
                                }
                                if b2 > b {
                                    assert(!is_blank(line[b as int]));
                                }
                            }
                        }
                        assert forall|a2: int, b2: int| #[trigger]
                            is_word(line, a2, b2) && b2 <= b implies numeral(
                            line.subrange(a2, b2),
                        ) is Some && face.set().contains(numeral(line.subrange(a2, b2))->0) by {
                            if b2 > i {
                                // the word is the one that was read
                                if a2 > i {
                                    assert(!is_blank(line[a2 - 1]));
                                }
                                if a2 < i {
                                    assert(b2 <= i);
                                }
                                if b2 < b {
                                    assert(!is_blank(line[b2]));
                                }
                            } else {
                                assert(before.contains(numeral(line.subrange(a2, b2))->0));
                            }
                        }
                        assert forall|w: u32| face.set().contains(w) implies exists|a2: int, b2: int|
                         #[trigger]
                            is_word(line, a2, b2) && b2 <= b && numeral(line.subrange(a2, b2))
                                == Some(w) by {
                            if before.contains(w) {
                                let (a2, b2) = choose|a2: int, b2: int| #[trigger]
                                    is_word(line, a2, b2) && b2 <= i && numeral(
                                        line.subrange(a2, b2),
                                    ) == Some(w);
                                assert(is_word(line, a2, b2) && b2 <= b);
                            } else {
                                assert(is_word(line, i as int, b as int));
                            }
                        }
                    }
                },
            }
            i = b;
        }
    }
    proof {
        assert forall|a: int, b: int| #[trigger] is_word(line, a, b) implies numeral(
            line.subrange(a, b),
        ) is Some by {
            assert(b <= i);
        }
        assert(face.set() =~= labels(line)) by {
            assert forall|v: u32| face.set().contains(v) == labels(line).contains(v) by {
                if labels(line).contains(v) {
                    let (a, b) = choose|a: int, b: int| #[trigger]
                        is_word(line, a, b) && numeral(line.subrange(a, b)) == Some(v);
                    assert(b <= i);
                }
            }
        }
        lemma_face_of_seq(face@);
    }
    Some(face)
}

/// The place where the line that starts at `a` ends.
fn find_line_end(text: &[u8], a: usize) -> (b: usize)
    requires
        a <= text@.len(),
    ensures
        b == line_end(text@, a as int),
        a <= b <= text@.len(),
{
    let mut b: usize = a;
    while b < text.len() && text[b] != 10
        invariant
            a <= b <= text@.len(),
            line_end(text@, a as int) == line_end(text@, b as int),
        decreases text@.len() - b,
    {
        b += 1;
    }
    b
}

/// Reads the facets of a complex from a text.
///
/// Every line stands for a face: the set of the labels that its words
/// name. Lines without a word are passed over, so that the empty text
/// stands for no face at all. A word that is no label below 2^32 makes the
/// first line that holds such a word an error.
pub fn read_input(text: &[u8]) -> (r: Result<Vec<Face>, ParseError>)
    ensures
        match r {
            Ok(faces) => {
                &&& forall|k: int|
                    0 <= k < lines_from(text@, 0).len() ==> line_ok(#[trigger] lines_from(text@, 0)[k])
                &&& faces_wf(face_views(faces@))
                &&& face_views(faces@) == faces_in(lines_from(text@, 0))
            },
            Err(e) => {
                &&& e.line < lines_from(text@, 0).len()
                &&& !line_ok(lines_from(text@, 0)[e.line as int])
                &&& forall|k: int| 0 <= k < e.line ==> line_ok(#[trigger] lines_from(text@, 0)[k])
            },
        },
{
    let ghost all = lines_from(text@, 0);
    let mut faces: Vec<Face> = Vec::new();
    let mut a: usize = 0;
    let mut count: usize = 0;
    let ghost mut done: Seq<Seq<u8>> = Seq::empty();
    proof {
        assert(done + lines_from(text@, 0) =~= all);
    }
    loop
        invariant
            a <= text@.len(),
            count == done.len(),
            count <= a,
            all == lines_from(text@, 0),
            all == done + lines_from(text@, a as int),
            forall|k: int| 0 <= k < done.len() ==> line_ok(#[trigger] done[k]),
            faces_wf(face_views(faces@)),
            face_views(faces@) == faces_in(done),
        decreases text@.len() - a,
    {
        let b = find_line_end(text, a);
        let ghost line = text@.subrange(a as int, b as int);
        let ghost rest = lines_from(text@, a as int);
        proof {
            lemma_line_end(text@, a as int);
            assert(rest[0] == line) by {
                if b >= text@.len() {
                    assert(text@.subrange(a as int, text@.len() as int) == line);
                }
            }
            assert(all[count as int] == line);
        }
        match read_line(text, a, b) {
            None => {
                proof {
                    assert(count < all.len());
                    assert(!line_ok(all[count as int]));
                    assert forall|k: int| 0 <= k < count implies line_ok(#[trigger] all[k]) by {
                        assert(all[k] == done[k]);
                    }
                }
                return Err(ParseError { line: count });
            },
            Some(face) => {
                let ghost before = face_views(faces@);
                let ghost grown = done.push(line);
                proof {
                    assert(grown.drop_last() =~= done);
                    assert(grown.last() == line);
                    assert(faces_in(grown) == if face@.len() > 0 {
                        before.push(face@)
                    } else {
                        before
                    });
                    assert forall|k: int| 0 <= k < grown.len() implies line_ok(
                        #[trigger] grown[k],
                    ) by {
                        if k < done.len() {
                            assert(grown[k] == done[k]);
                        }
                    }
                }
                if !face.is_empty() {
                    proof {
                        assert(face_views(faces@.push(face)) =~= before.push(face@));
                        assert forall|k: int| 0 <= k < before.push(face@).len() implies crate::face::strictly_increasing(
                            #[trigger] before.push(face@)[k],
                        ) by {
                            if k < before.len() {
                                assert(before.push(face@)[k] == before[k]);
                            }
                        }
                    }
                    faces.push(face);
                }
                proof {
                    done = grown;
                }
            },
        }
        if b >= text.len() {
            proof {
                assert(rest =~= seq![line]);
                assert(all =~= done);
            }
            return Ok(faces);
        }
        proof {
            assert(rest =~= seq![line] + lines_from(text@, b + 1));
            assert(all =~= done + lines_from(text@, b + 1));
        }
        a = b + 1;
        count += 1;
    }
}

/// The decimal digits of a number, without leading zeros.
pub open spec fn digits(n: nat) -> Seq<u8>
    decreases n,
{
    if n < 10 {
        seq![(48 + n) as u8]
    } else {
        digits(n / 10).push((48 + n % 10) as u8)
    }
}

/// A stretch of `k` spaces; none where `k` is not positive.
pub open spec fn spaces(k: int) -> Seq<u8> {
    if k > 0 {
        Seq::new(k as nat, |i: int| 32u8)
    } else {
        Seq::empty()
    }
}

/// The digits of `n`, with spaces before them up to the given width.
pub open spec fn padded(n: nat, width: int) -> Seq<u8> {
    spaces(width - digits(n).len()) + digits(n)
}

/// The labels of a face, each padded to the width, with one space between
/// two of them.
pub open spec fn row(f: Seq<u32>, width: int) -> Seq<u8>
    decreases f.len(),
{
    if f.len() == 0 {
        Seq::empty()
    } else if f.len() == 1 {
        padded(f[0] as nat, width)
    } else {
        row(f.drop_last(), width) + seq![32u8] + padded(f.last() as nat, width)
    }
}

/// One row for each face, each ended by a line feed.
pub open spec fn rows(x: Seq<Seq<u32>>, width: int) -> Seq<u8>
    decreases x.len(),
{
    if x.len() == 0 {
        Seq::empty()
    } else {
        rows(x.drop_last(), width) + row(x.last(), width) + seq![10u8]
    }
}

/// The greatest vertex label of the family, 0 where it has no vertex.
pub open spec fn greatest_label(x: Seq<Seq<u32>>) -> nat {
    let vs = face_of(vertices(x));
    if vs.len() == 0 {
        0
    } else {
        vs.last() as nat
    }
}

/// The text of a complex: one line for each facet in the order of the
/// list, the labels of a facet in increasing order, each as wide as the
/// greatest label of the complex.
pub open spec fn rendered(x: Seq<Seq<u32>>) -> Seq<u8> {
    rows(x, digits(greatest_label(x)).len() as int)
}

/// The decimal digits of a label.
pub fn digits_of(n: u32) -> (v: Vec<u8>)
    ensures
        v@ == digits(n as nat),
    decreases n,
{
    if n < 10 {
        let mut v: Vec<u8> = Vec::new();
        v.push(48 + n as u8);
        assert(v@ =~= digits(n as nat));
        v
    } else {
        let mut v = digits_of(n / 10);
        v.push((48 + n % 10) as u8);
        v
    }
}

/// Appends a label, padded to the width.
fn push_padded(out: &mut Vec<u8>, n: u32, width: usize)
    ensures
        final(out)@ == old(out)@ + padded(n as nat, width as int),
{
    let d = digits_of(n);
    let ghost start = out@;
    let mut k: usize = d.len();
    while k < width
        invariant
            d@ == digits(n as nat),
            d@.len() <= k,
            k <= width || k == d@.len(),
            out@ == start + spaces(k - d@.len()),
        decreases width - k,
    {
        proof {
            assert(spaces(k - d@.len()).push(32u8) =~= spaces(k + 1 - d@.len()));
            assert(out@.push(32u8) =~= start + spaces(k + 1 - d@.len()));
        }
        out.push(32);
        k += 1;
    }
    let ghost mid = out@;
    proof {
        assert(spaces(k - d@.len()) =~= spaces(width - d@.len()));
    }
    let mut i: usize = 0;
    while i < d.len()
        invariant
            i <= d@.len(),
            out@ == mid + d@.take(i as int),
        decreases d@.len() - i,
    {
        proof {
            assert(d@.take(i + 1) =~= d@.take(i as int).push(d@[i as int]));
            assert(out@.push(d@[i as int]) =~= mid + d@.take(i + 1));
        }
        out.push(d[i]);
        i += 1;
    }
    proof {
        assert(d@.take(i as int) =~= d@);
        assert(out@ =~= start + padded(n as nat, width as int));
    }
}

/// Appends the row of a face.
fn push_row(out: &mut Vec<u8>, f: &Face, width: usize)
    ensures
        final(out)@ == old(out)@ + row(f@, width as int),
{
    let ghost start = out@;
    let n = f.len();
    let mut i: usize = 0;
    assert(out@ =~= start + row(f@.take(0), width as int));
    while i < n
        invariant
            n == f@.len(),
            i <= n,
            out@ == start + row(f@.take(i as int), width as int),
        decreases n - i,
    {
        let ghost before = out@;
        let ghost part = f@.take(i + 1);
        proof {
            assert(part.drop_last() =~= f@.take(i as int));
            assert(part.last() == f@[i as int]);
        }
        if i > 0 {
            out.push(32);
        }
        push_padded(out, f.get(i), width);
        proof {
            if i > 0 {
                assert(out@ =~= start + (row(f@.take(i as int), width as int) + seq![32u8] + padded(
                    f@[i as int] as nat,
                    width as int,
                )));
            } else {
                assert(row(f@.take(0), width as int) =~= Seq::<u8>::empty());
                assert(out@ =~= start + padded(f@[0] as nat, width as int));
            }
        }
        i += 1;
    }
    assert(f@.take(i as int) =~= f@);
}

/// Writes a complex as text: one line for each facet, larger facets first,
/// the labels of a line in increasing order and all as wide as the greatest
/// label of the complex.
pub fn write_sc(sc: &SimplicialComplex) -> (out: Vec<u8>)
    requires
        sc.valid(),
    ensures
        out@ == rendered(sc@),
{
    let vs = sc.vertex_set();
    proof {
        lemma_face_of_seq(vs@);
    }
    let top: u32 = if vs.len() == 0 {
        0
    } else {
        vs.get(vs.len() - 1)
    };
    let width = digits_of(top).len();
    let list = sc.facets();
    let mut out: Vec<u8> = Vec::new();
    let mut i: usize = 0;
    assert(out@ =~= rows(sc@.take(0), width as int));
    while i < list.len()
        invariant
            face_views(list@) == sc@,
            i <= list@.len(),
            out@ == rows(sc@.take(i as int), width as int),
        decreases list@.len() - i,
    {
        let ghost part = sc@.take(i + 1);
        proof {
            assert(part.drop_last() =~= sc@.take(i as int));
            assert(part.last() == list@[i as int]@);
        }
        push_row(&mut out, &list[i], width);
        out.push(10);
        proof {
            assert(out@ =~= rows(sc@.take(i as int), width as int) + row(
                list@[i as int]@,
                width as int,
            ) + seq![10u8]);
        }
        i += 1;
    }
    assert(sc@.take(i as int) =~= sc@);
    out
}

/// The text of a complex with a subcomplex: the two texts, with an empty
/// line between them.
pub open spec fn rendered_pair(x: Seq<Seq<u32>>, y: Seq<Seq<u32>>) -> Seq<u8> {
    rendered(x) + seq![10u8] + rendered(y)
}

/// Writes a complex and a subcomplex as text, an empty line between them.
pub fn write_pair(sc: &SimplicialComplex, bnd: &SimplicialComplex) -> (out: Vec<u8>)
    requires
        sc.valid(),
        bnd.valid(),
    ensures
        out@ == rendered_pair(sc@, bnd@),
{
    let mut out = write_sc(sc);
    out.push(10);
    let mut second = write_sc(bnd);
    let ghost a = out@;
    let ghost b = second@;
    out.append(&mut second);
    assert(out@ =~= a + b);
    out
}

/// What stands before the facets in the XML form.
pub open spec fn xml_head() -> &'static str {
    "<?xml version=\"1.0\" encoding=\"UTF-8\"?>\n<SimplicialComplexV2 type=\"SCSimplicialComplex\">\n<SCFacetsEx type=\"SCArray\">"
}

/// What stands behind the facets in the XML form.
pub open spec fn xml_tail() -> &'static str {
    "</SCFacetsEx>\n</SimplicialComplexV2>\n"
}

/// The labels of a face in decimal, with commas between them.
pub open spec fn listed(f: Seq<u32>) -> Seq<u8>
    decreases f.len(),
{
    if f.len() == 0 {
        Seq::empty()
    } else if f.len() == 1 {
        digits(f[0] as nat)
    } else {
        listed(f.drop_last()) + seq![44u8] + digits(f.last() as nat)
    }
}

/// The faces of a list, each in square brackets, with commas between them.
pub open spec fn bracketed(x: Seq<Seq<u32>>) -> Seq<u8>
    decreases x.len(),
{
    if x.len() == 0 {
        Seq::empty()
    } else if x.len() == 1 {
        seq![91u8] + listed(x[0]) + seq![93u8]
    } else {
        bracketed(x.drop_last()) + seq![44u8, 91u8] + listed(x.last()) + seq![93u8]
    }
}

/// The XML form of a complex: the list of its facets in square brackets,
/// between the head and the tail.
pub open spec fn rendered_xml(x: Seq<Seq<u32>>) -> Seq<u8> {
    xml_head().spec_bytes() + seq![91u8] + bracketed(x) + seq![93u8] + xml_tail().spec_bytes()
}

/// Appends the bytes of a string.
fn push_str(out: &mut Vec<u8>, text: &str)
    ensures
        final(out)@ == old(out)@ + text.spec_bytes(),
{
    let bytes = text.as_bytes();
    let ghost start = out@;
    let mut i: usize = 0;
    assert(out@ =~= start + bytes@.take(0));
    while i < bytes.len()
        invariant
            i <= bytes@.len(),
            out@ == start + bytes@.take(i as int),
        decreases bytes@.len() - i,
    {
        proof {
            assert(bytes@.take(i + 1) =~= bytes@.take(i as int).push(bytes@[i as int]));
            assert(out@.push(bytes@[i as int]) =~= start + bytes@.take(i + 1));
        }
        out.push(bytes[i]);
        i += 1;
    }
    assert(bytes@.take(i as int) =~= bytes@);
}

/// Appends the labels of a face with commas between them.
fn push_listed(out: &mut Vec<u8>, f: &Face)
    ensures
        final(out)@ == old(out)@ + listed(f@),
{
    let ghost start = out@;
    let n = f.len();
    let mut i: usize = 0;
    assert(out@ =~= start + listed(f@.take(0)));
    while i < n
        invariant
            n == f@.len(),
            i <= n,
            out@ == start + listed(f@.take(i as int)),
        decreases n - i,
    {
        let ghost part = f@.take(i + 1);
        proof {
            assert(part.drop_last() =~= f@.take(i as int));
            assert(part.last() == f@[i as int]);
        }
        if i > 0 {
            out.push(44);
        }
        push_padded(out, f.get(i), 0);
        proof {
            assert(padded(f@[i as int] as nat, 0) =~= digits(f@[i as int] as nat));
            if i > 0 {
                assert(out@ =~= start + (listed(f@.take(i as int)) + seq![44u8] + digits(
                    f@[i as int] as nat,
                )));
            } else {
                assert(listed(f@.take(0)) =~= Seq::<u8>::empty());
                assert(out@ =~= start + digits(f@[0] as nat));
            }
        }
        i += 1;
    }
    assert(f@.take(i as int) =~= f@);
}

/// Writes a complex in the XML form that the GAP package simpcomp reads.
pub fn write_xml(sc: &SimplicialComplex) -> (out: Vec<u8>)
    ensures
        out@ == rendered_xml(sc@),
{
    let list = sc.facets();
    let mut out: Vec<u8> = Vec::new();
    push_str(
        &mut out,
        "<?xml version=\"1.0\" encoding=\"UTF-8\"?>\n<SimplicialComplexV2 type=\"SCSimplicialComplex\">\n<SCFacetsEx type=\"SCArray\">",
    );
    out.push(91);
    let ghost start = out@;
    assert(start =~= xml_head().spec_bytes() + seq![91u8]);
    let mut i: usize = 0;
    assert(out@ =~= start + bracketed(sc@.take(0)));
    while i < list.len()
        invariant
            face_views(list@) == sc@,
            i <= list@.len(),
            out@ == start + bracketed(sc@.take(i as int)),
        decreases list@.len() - i,
    {
        let ghost part = sc@.take(i + 1);
        let ghost before = out@;
        proof {
            assert(part.drop_last() =~= sc@.take(i as int));
            assert(part.last() == list@[i as int]@);
            assert(part[0] == sc@[0]);
        }
        if i > 0 {
            out.push(44);
        }
        out.push(91);
        push_listed(&mut out, &list[i]);
        out.push(93);
        proof {
            let f = list@[i as int]@;
            if i > 0 {
                assert(out@ =~= start + (bracketed(sc@.take(i as int)) + seq![44u8, 91u8] + listed(f)
                    + seq![93u8]));
            } else {
                assert(bracketed(sc@.take(0)) =~= Seq::<u8>::empty());
                assert(out@ =~= start + (seq![91u8] + listed(f) + seq![93u8]));
            }
        }
        i += 1;
    }
    assert(sc@.take(i as int) =~= sc@);
    out.push(93);
    let ghost body = out@;
    push_str(&mut out, "</SCFacetsEx>\n</SimplicialComplexV2>\n");
    assert(out@ =~= rendered_xml(sc@));
    out
}

} // verus!
