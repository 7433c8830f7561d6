//! The layout of a matrix in Matrix Market text: its dimensions and the entries to add,
//! each entry also added at its mirrored position. The entries' values are kept as text.

use vstd::prelude::*;
use crate::text::chars_of;
use crate::tokens::{tokens, token_spans, read_lines, read_line_spans, usize_value, read_usize};
use crate::text::string_of;

verus! {

/// Why a matrix text was refused.
#[derive(PartialEq, Eq, Structural, Clone, Copy, Debug)]
pub enum MtxFault {
    /// The size line has too few numbers.
    MissingDimensions,
    /// A number does not read as a `usize` (the token is reported).
    BadNumber,
    /// An index of an entry is 0 where indices count from 1 (the token is reported).
    ZeroIndex,
}

/// A refused matrix text: the fault and the token at fault (empty for missing dimensions).
#[derive(Debug)]
pub struct MtxError {
    pub fault: MtxFault,
    pub token: String,
}

/// One addition to the matrix: at `(row, col)`, counted from 0, the value written in the
/// text (`None` when the line has none).
#[derive(Debug)]
pub struct MtxEntry {
    pub row: usize,
    pub col: usize,
    pub value: Option<String>,
}

/// The dimensions of the matrix and the additions to make to it, in order.
#[derive(Debug)]
pub struct MtxLayout {
    pub rows: usize,
    pub cols: usize,
    pub entries: Vec<MtxEntry>,
}

/// An addition as plain values.
pub open spec fn entry_view(e: MtxEntry) -> (nat, nat, Option<Seq<char>>) {
    (
        e.row as nat,
        e.col as nat,
        match e.value {
            Some(v) => Some(v@),
            None => None,
        },
    )
}

pub open spec fn entries_view(es: Seq<MtxEntry>) -> Seq<(nat, nat, Option<Seq<char>>)> {
    es.map_values(|e: MtxEntry| entry_view(e))
}

/// A comment line starts with `'%'`.
pub open spec fn is_comment(l: Seq<char>) -> bool {
    l.len() > 0 && l[0] == '%'
}

/// Index of the first line that is not a comment.
pub open spec fn first_data_line(ls: Seq<Seq<char>>) -> Option<int>
    decreases ls.len(),
{
    if ls.len() == 0 {
        None
    } else if !is_comment(ls[0]) {
        Some(0)
    } else {
        match first_data_line(ls.drop_first()) {
            Some(i) => Some(i + 1),
            None => None,
        }
    }
}

pub proof fn lemma_first_data_line(ls: Seq<Seq<char>>)
    ensures
        match first_data_line(ls) {
            Some(i) => 0 <= i < ls.len() && !is_comment(ls[i]) && forall|j: int|
                0 <= j < i ==> is_comment(#[trigger] ls[j]),
            None => forall|j: int| 0 <= j < ls.len() ==> is_comment(#[trigger] ls[j]),
        },
    decreases ls.len(),
{
    if ls.len() > 0 && is_comment(ls[0]) {
        let t = ls.drop_first();
        lemma_first_data_line(t);
        match first_data_line(t) {
            Some(i) => {
                assert(ls[i + 1] == t[i]);
                assert forall|j: int| 0 <= j < i + 1 implies is_comment(#[trigger] ls[j]) by {
                    if j > 0 {
                        assert(ls[j] == t[j - 1]);
                    }
                }
            },
            None => {
                assert forall|j: int| 0 <= j < ls.len() implies is_comment(#[trigger] ls[j]) by {
                    if j > 0 {
                        assert(ls[j] == t[j - 1]);
                    }
                }
            },
        }
    }
}

/// The index of the size line: the first line that is not a comment, or the last line when
/// all are comments.
pub open spec fn header_index(ls: Seq<Seq<char>>) -> int {
    match first_data_line(ls) {
        Some(h) => h,
        None => ls.len() - 1,
    }
}

/// The size line (empty text when there are no lines).
pub open spec fn header_line(ls: Seq<Seq<char>>) -> Seq<char> {
    if ls.len() == 0 {
        seq![]
    } else {
        ls[header_index(ls)]
    }
}

/// The lines after the size line.
pub open spec fn body_lines(ls: Seq<Seq<char>>) -> Seq<Seq<char>> {
    if ls.len() == 0 {
        seq![]
    } else {
        ls.skip(header_index(ls) + 1)
    }
}

/// The additions an entry at `(i, j)` (from 0) makes when it lies in the matrix: the
/// entry, and its mirror unless it is on the diagonal.
pub open spec fn mirrored(i: nat, j: nat, value: Option<Seq<char>>) -> Seq<(nat, nat, Option<Seq<char>>)> {
    if i != j {
        seq![(i, j, value), (j, i, value)]
    } else {
        seq![(i, j, value)]
    }
}

/// The additions of an entry line with words `ws`. Lines with fewer than two words add
/// nothing. With `strict`, the indices must not be 0 and an entry outside the matrix is
/// skipped; without, any index outside `1..=rows` or `1..=cols` skips the entry.
pub open spec fn line_adds(ws: Seq<Seq<char>>, rows: nat, cols: nat, strict: bool) -> Result<
    Seq<(nat, nat, Option<Seq<char>>)>,
    (MtxFault, Seq<char>),
> {
    if ws.len() < 2 {
        Ok(seq![])
    } else {
        let value = if ws.len() >= 3 { Some(ws[2]) } else { None };
        match usize_value(ws[0]) {
            None => Err((MtxFault::BadNumber, ws[0])),
            Some(r) => if strict && r == 0 {
                Err((MtxFault::ZeroIndex, ws[0]))
            } else {
                match usize_value(ws[1]) {
                    None => Err((MtxFault::BadNumber, ws[1])),
                    Some(c) => if strict && c == 0 {
                        Err((MtxFault::ZeroIndex, ws[1]))
                    } else if 0 < r <= rows && 0 < c <= cols {
                        Ok(mirrored((r - 1) as nat, (c - 1) as nat, value))
                    } else {
                        Ok(seq![])
                    },
                }
            },
        }
    }
}

/// The additions of the entry lines `ls`, in order, or the first fault.
pub open spec fn body_adds(ls: Seq<Seq<char>>, rows: nat, cols: nat, strict: bool) -> Result<
    Seq<(nat, nat, Option<Seq<char>>)>,
    (MtxFault, Seq<char>),
>
    decreases ls.len(),
{
    if ls.len() == 0 {
        Ok(seq![])
    } else {
        match body_adds(ls.drop_last(), rows, cols, strict) {
            Err(e) => Err(e),
            Ok(a) => match line_adds(tokens(ls.last()), rows, cols, strict) {
                Err(e) => Err(e),
                Ok(b) => Ok(a + b),
            },
        }
    }
}

/// The size line's number of rows and columns, or the fault. Without `strict`, a size line
/// of fewer than two words is refused before anything is read; with `strict`, the rows are
/// read first.
pub open spec fn dimensions(ws: Seq<Seq<char>>, strict: bool) -> Result<(nat, nat), (MtxFault, Seq<char>)> {
    if (!strict && ws.len() < 2) || ws.len() == 0 {
        Err((MtxFault::MissingDimensions, seq![]))
    } else {
        match usize_value(ws[0]) {
            None => Err((MtxFault::BadNumber, ws[0])),
            Some(rows) => if ws.len() < 2 {
                Err((MtxFault::MissingDimensions, seq![]))
            } else {
                match usize_value(ws[1]) {
                    None => Err((MtxFault::BadNumber, ws[1])),
                    Some(cols) => Ok((rows, cols)),
                }
            },
        }
    }
}

/// The layout that matrix text `text` describes: the size line gives the rows, the columns
/// and (as an optional third number) how many entry lines follow it; each of those lines
/// that is present is read.
pub open spec fn mtx_layout(text: Seq<char>, strict: bool) -> Result<
    (nat, nat, Seq<(nat, nat, Option<Seq<char>>)>),
    (MtxFault, Seq<char>),
> {
    let ls = read_lines(text);
    let ws = tokens(header_line(ls));
    match dimensions(ws, strict) {
        Err(e) => Err(e),
        Ok((rows, cols)) => {
            let count = if ws.len() > 2 { usize_value(ws[2]) } else { Some(0nat) };
            match count {
                None => Err((MtxFault::BadNumber, ws[2])),
                Some(nnz) => {
                    let body = body_lines(ls);
                    let k = if nnz < body.len() { nnz as int } else { body.len() as int };
                    match body_adds(body.take(k), rows, cols, strict) {
                        Err(e) => Err(e),
                        Ok(a) => Ok((rows, cols, a)),
                    }
                },
            }
        },
    }
}

/// `adds` has the mirror image of `e`: the same value at the transposed position.
pub open spec fn has_partner(adds: Seq<(nat, nat, Option<Seq<char>>)>, e: (nat, nat, Option<Seq<char>>)) -> bool {
    exists|m: int| 0 <= m < adds.len() && adds[m] == (e.1, e.0, e.2)
}

/// Every addition off the diagonal has a partner of the same value at the mirrored position.
pub open spec fn mirror_closed(adds: Seq<(nat, nat, Option<Seq<char>>)>) -> bool {
    forall|k: int| 0 <= k < adds.len() && adds[k].0 != adds[k].1 ==> #[trigger] has_partner(adds, adds[k])
}

pub proof fn lemma_mirror_closed_concat(a: Seq<(nat, nat, Option<Seq<char>>)>, b: Seq<(nat, nat, Option<Seq<char>>)>)
    requires
        mirror_closed(a),
        mirror_closed(b),
    ensures
        mirror_closed(a + b),
{
    let c = a + b;
    assert forall|k: int| 0 <= k < c.len() && c[k].0 != c[k].1 implies #[trigger] has_partner(c, c[k]) by {
        if k < a.len() {
            assert(c[k] == a[k]);
            assert(has_partner(a, a[k]));
            let m = choose|m: int| 0 <= m < a.len() && a[m] == (a[k].1, a[k].0, a[k].2);
            assert(c[m] == a[m]);
        } else {
            let j = k - a.len();
            assert(c[k] == b[j]);
            assert(has_partner(b, b[j]));
            let m = choose|m: int| 0 <= m < b.len() && b[m] == (b[j].1, b[j].0, b[j].2);
            assert(c[m + a.len()] == b[m]);
        }
    }
}

pub proof fn lemma_body_adds_mirrored(ls: Seq<Seq<char>>, rows: nat, cols: nat, strict: bool)
    ensures
        body_adds(ls, rows, cols, strict) matches Ok(a) ==> mirror_closed(a),
    decreases ls.len(),
{
    if ls.len() > 0 {
        lemma_body_adds_mirrored(ls.drop_last(), rows, cols, strict);
        match body_adds(ls.drop_last(), rows, cols, strict) {
            Ok(a) => match line_adds(tokens(ls.last()), rows, cols, strict) {
                Ok(b) => {
                    assert(mirror_closed(b)) by {
                        if b.len() == 2 {
                            assert(b[1] == (b[0].1, b[0].0, b[0].2));
                            assert(b[0] == (b[1].1, b[1].0, b[1].2));
                            assert(has_partner(b, b[0]));
                            assert(has_partner(b, b[1]));
                        }
                    }
                    lemma_mirror_closed_concat(a, b);
                },
                Err(_) => {},
            },
            Err(_) => {},
        }
    }
}

/// Off the diagonal, the additions a matrix text describes come in mirrored pairs: every
/// addition at `(i, j)` with `i != j` is matched by an addition of the same value at `(j, i)`.
pub proof fn law_additions_mirrored(text: Seq<char>, strict: bool)
    ensures
        mtx_layout(text, strict) matches Ok((rows, cols, adds)) ==> mirror_closed(adds),
{
    let ls = read_lines(text);
    let ws = tokens(header_line(ls));
    if let Ok((rows, cols)) = dimensions(ws, strict) {
        let body = body_lines(ls);
        let count = if ws.len() > 2 { usize_value(ws[2]) } else { Some(0nat) };
        if let Some(nnz) = count {
            let k = if nnz < body.len() { nnz as int } else { body.len() as int };
            lemma_body_adds_mirrored(body.take(k), rows, cols, strict);
        }
    }
}

/// The result as plain values.
pub open spec fn result_view(r: Result<MtxLayout, MtxError>) -> Result<
    (nat, nat, Seq<(nat, nat, Option<Seq<char>>)>),
    (MtxFault, Seq<char>),
> {
    match r {
        Ok(l) => Ok((l.rows as nat, l.cols as nat, entries_view(l.entries@))),
        Err(e) => Err((e.fault, e.token@)),
    }
}

/// The fault `fault` at token `v[lo..hi]`.
fn fault_at(v: &Vec<char>, lo: usize, hi: usize, fault: MtxFault) -> (e: MtxError)
    requires
        lo <= hi <= v@.len(),
    ensures
        e.fault == fault,
        e.token@ == v@.subrange(lo as int, hi as int),
{
    MtxError { fault, token: string_of(v, lo, hi) }
}

/// The additions of one entry line, whose words are `spans` in `v`, appended to `out`.
fn add_line(
    v: &Vec<char>,
    spans: &Vec<(usize, usize)>,
    rows: usize,
    cols: usize,
    strict: bool,
    out: &mut Vec<MtxEntry>,
) -> (r: Result<(), MtxError>)
    requires
        forall|t: int| 0 <= t < spans@.len() ==> (#[trigger] spans@[t]).0 <= spans@[t].1 <= v@.len(),
    ensures
        ({
            let ws = Seq::new(spans@.len(), |t: int| v@.subrange(spans@[t].0 as int, spans@[t].1 as int));
            match line_adds(ws, rows as nat, cols as nat, strict) {
                Ok(a) => r is Ok && entries_view(final(out)@) == entries_view(old(out)@) + a,
                Err(e) => r matches Err(x) && (x.fault, x.token@) == e,
            }
        }),
{
    let ghost ws = Seq::new(spans@.len(), |t: int| v@.subrange(spans@[t].0 as int, spans@[t].1 as int));
    let ghost before = entries_view(out@);
    if spans.len() < 2 {
        proof {
            assert(entries_view(out@) =~= before + Seq::<(nat, nat, Option<Seq<char>>)>::empty());
        }
        return Ok(());
    }
    let (a0, b0) = spans[0];
    let (a1, b1) = spans[1];
    let r = match read_usize(v, a0, b0) {
        Some(r) => r,
        None => {
            return Err(fault_at(v, a0, b0, MtxFault::BadNumber));
        },
    };
    if strict && r == 0 {
        return Err(fault_at(v, a0, b0, MtxFault::ZeroIndex));
    }
    let c = match read_usize(v, a1, b1) {
        Some(c) => c,
        None => {
            return Err(fault_at(v, a1, b1, MtxFault::BadNumber));
        },
    };
    if strict && c == 0 {
        return Err(fault_at(v, a1, b1, MtxFault::ZeroIndex));
    }
    if 0 < r && r <= rows && 0 < c && c <= cols {
        let (a2, b2) = if spans.len() >= 3 { spans[2] } else { (0, 0) };
        let has_value = spans.len() >= 3;
        let ghost value = if ws.len() >= 3 { Some(ws[2]) } else { None::<Seq<char>> };
        let first = if has_value { Some(string_of(v, a2, b2)) } else { None };
        out.push(MtxEntry { row: r - 1, col: c - 1, value: first });
        if r != c {
            let second = if has_value { Some(string_of(v, a2, b2)) } else { None };
            out.push(MtxEntry { row: c - 1, col: r - 1, value: second });
        }
        proof {
            assert(entries_view(out@) =~= before + mirrored((r - 1) as nat, (c - 1) as nat, value));
        }
    } else {
        proof {
            assert(entries_view(out@) =~= before + Seq::<(nat, nat, Option<Seq<char>>)>::empty());
        }
    }
    Ok(())
}

/// Reads the layout of matrix text; `strict` selects the reading of [`parse_mtx_strict`].
fn read_layout(text: &str, strict: bool) -> (r: Result<MtxLayout, MtxError>)
    ensures
        result_view(r) == mtx_layout(text@, strict),
{
    let v = chars_of(text);
    let lines = read_line_spans(&v);
    let ghost ls = read_lines(v@);
    let n = lines.len();
    let mut h: usize = 0;
    while h < n && lines[h].0 < lines[h].1 && v[lines[h].0] == '%'
        invariant
            h <= n == lines@.len() == ls.len(),
            ls == read_lines(v@),
            forall|t: int| 0 <= t < lines@.len() ==> {
                &&& (#[trigger] lines@[t]).0 <= lines@[t].1 <= v@.len()
                &&& v@.subrange(lines@[t].0 as int, lines@[t].1 as int) == ls[t]
            },
            forall|j: int| 0 <= j < h ==> is_comment(#[trigger] ls[j]),
        decreases n - h,
    {
        proof {
            assert(ls[h as int][0] == v@[lines@[h as int].0 as int]);
        }
        h += 1;
    }
    proof {
        lemma_first_data_line(ls);
        if h < n {
            assert(ls[h as int].len() > 0 ==> ls[h as int][0] == v@[lines@[h as int].0 as int]);
            assert(!is_comment(ls[h as int]));
            match first_data_line(ls) {
                Some(i) => {
                    if i < h {
                    } else if i > h {
                        assert(is_comment(ls[h as int]));
                    }
                },
                None => {
                    assert(is_comment(ls[h as int]));
                },
            }
        } else {
            match first_data_line(ls) {
                Some(i) => {
                    assert(is_comment(ls[i]));
                },
                None => {},
            }
        }
    }
    // the size line and the index of the first line after it
    let (hl, hh, next) = if n == 0 {
        (0, 0, 0)
    } else if h < n {
        (lines[h].0, lines[h].1, h + 1)
    } else {
        (lines[n - 1].0, lines[n - 1].1, n)
    };
    proof {
        if n > 0 {
            assert(header_index(ls) + 1 == next);
            assert(v@.subrange(hl as int, hh as int) == header_line(ls));
        } else {
            assert(v@.subrange(0, 0) =~= header_line(ls));
        }
    }
    let ws = token_spans(&v, hl, hh);
    let ghost wv = tokens(v@.subrange(hl as int, hh as int));
    let m = ws.len();
    if (!strict && m < 2) || m == 0 {
        return Err(MtxError { fault: MtxFault::MissingDimensions, token: String::new() });
    }
    let rows = match read_usize(&v, ws[0].0, ws[0].1) {
        Some(x) => x,
        None => {
            return Err(fault_at(&v, ws[0].0, ws[0].1, MtxFault::BadNumber));
        },
    };
    if m < 2 {
        return Err(MtxError { fault: MtxFault::MissingDimensions, token: String::new() });
    }
    let cols = match read_usize(&v, ws[1].0, ws[1].1) {
        Some(x) => x,
        None => {
            return Err(fault_at(&v, ws[1].0, ws[1].1, MtxFault::BadNumber));
        },
    };
    let nnz = if m > 2 {
        match read_usize(&v, ws[2].0, ws[2].1) {
            Some(x) => x,
            None => {
                return Err(fault_at(&v, ws[2].0, ws[2].1, MtxFault::BadNumber));
            },
        }
    } else {
        0
    };
    let ghost body = body_lines(ls);
    let avail = n - next;
    let k = if nnz < avail { nnz } else { avail };
    proof {
        assert(body.len() == avail);
    }
    let mut entries: Vec<MtxEntry> = Vec::new();
    let mut t: usize = 0;
    proof {
        assert(mtx_layout(text@, strict) == match body_adds(body.take(k as int), rows as nat, cols as nat, strict) {
            Err(e) => Err(e),
            Ok(a) => Ok((rows as nat, cols as nat, a)),
        });
        assert(body.take(0) =~= Seq::<Seq<char>>::empty());
        assert(entries_view(entries@) =~= Seq::<(nat, nat, Option<Seq<char>>)>::empty());
    }
    while t < k
        invariant
            t <= k <= avail,
            avail == n - next,
            next <= n == lines@.len() == ls.len(),
            body == ls.skip(next as int),
            mtx_layout(text@, strict) == match body_adds(body.take(k as int), rows as nat, cols as nat, strict) {
                Err(e) => Err(e),
                Ok(a) => Ok((rows as nat, cols as nat, a)),
            },
            forall|i: int| 0 <= i < lines@.len() ==> {
                &&& (#[trigger] lines@[i]).0 <= lines@[i].1 <= v@.len()
                &&& v@.subrange(lines@[i].0 as int, lines@[i].1 as int) == ls[i]
            },
            body_adds(body.take(t as int), rows as nat, cols as nat, strict) == Ok::<
                Seq<(nat, nat, Option<Seq<char>>)>,
                (MtxFault, Seq<char>),
            >(entries_view(entries@)),
        decreases k - t,
    {
        let (a, b) = lines[next + t];
        let spans = token_spans(&v, a, b);
        let ghost line = v@.subrange(a as int, b as int);
        proof {
            assert(line == body[t as int]);
            assert(body.take(t + 1).drop_last() =~= body.take(t as int));
            assert(body.take(t + 1).last() == line);
            let w = Seq::new(spans@.len(), |i: int| v@.subrange(spans@[i].0 as int, spans@[i].1 as int));
            assert(line.subrange(0, line.len() as int) =~= line);
            assert(w =~= tokens(line));
        }
        match add_line(&v, &spans, rows, cols, strict, &mut entries) {
            Ok(()) => {},
            Err(e) => {
                proof {
                    assert(body_adds(body.take(t + 1), rows as nat, cols as nat, strict) == Err::<
                        Seq<(nat, nat, Option<Seq<char>>)>,
                        (MtxFault, Seq<char>),
                    >((e.fault, e.token@)));
                    lemma_body_adds_err(body, t + 1, k as int, rows as nat, cols as nat, strict);
                }
                return Err(e);
            },
        }
        t += 1;
    }
    Ok(MtxLayout { rows, cols, entries })
}

/// A fault in the first `j` lines is the fault of the first `k >= j` lines.
pub proof fn lemma_body_adds_err(ls: Seq<Seq<char>>, j: int, k: int, rows: nat, cols: nat, strict: bool)
    requires
        0 <= j <= k <= ls.len(),
        body_adds(ls.take(j), rows, cols, strict) is Err,
    ensures
        body_adds(ls.take(k), rows, cols, strict) == body_adds(ls.take(j), rows, cols, strict),
    decreases k - j,
{
    if k > j {
        lemma_body_adds_err(ls, j, k - 1, rows, cols, strict);
        assert(ls.take(k).drop_last() =~= ls.take(k - 1));
    }
}

/// Reads the layout of a matrix in Matrix Market text. Lines starting with `'%'` before
/// the size line are comments. The size line must have at least two numbers, rows and
/// columns, and may give the number of entry lines as a third (else none are read). Each
/// entry line with at least two numbers `i j` whose indices lie in `1..=rows` and
/// `1..=cols` adds its value (its third word, if any) at `(i - 1, j - 1)` and, off the
/// diagonal, at `(j - 1, i - 1)`; other entries are skipped.
pub fn parse_mtx(text: &str) -> (r: Result<MtxLayout, MtxError>)
    ensures
        result_view(r) == mtx_layout(text@, false),
{
    read_layout(text, false)
}

/// Reads the layout of a matrix in Matrix Market text as [`parse_mtx`] does, except that
/// the size line is read number by number (so a missing column count is found after the
/// row count is read), and that an entry index of 0 is refused; an entry whose indices,
/// less one, lie outside the matrix is skipped.
pub fn parse_mtx_strict(text: &str) -> (r: Result<MtxLayout, MtxError>)
    ensures
        result_view(r) == mtx_layout(text@, true),
{
    read_layout(text, true)
}

} // verus!
