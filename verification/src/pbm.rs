//! Plain PBM (`P1`) bitmaps: reading one, cutting a character cell out of a scanned page,
//! and writing one back as text.

use vstd::prelude::*;
use crate::text::{chars_of, trimmed, trim_range, decimal, push_decimal, push_char};
use crate::tokens::{tokens, token_spans, read_lines, read_line_spans, usize_value, read_usize, joined,
    lemma_joined_push, lemma_read_lines_joined, lemma_tokens_concat, lemma_tokens_word,
    lemma_decimal_digits, lemma_decimal_value, lemma_digit_char, lemma_word_len_of_run};
use crate::text::is_white_space;
use vstd::string::StringExecFns;

verus! {

/// Why PBM text was refused.
#[derive(PartialEq, Eq, Structural, Clone, Copy, Debug)]
pub enum PbmError {
    /// The first line, trimmed, does not start with `P1`.
    NotP1,
    /// No line after the first is a size line (neither blank nor a `#` comment).
    NoDimensions,
    /// A word of the size line does not read as a `usize`.
    BadDimension,
    /// The size line does not hold exactly two numbers.
    DimensionCount,
    /// `width * height` does not fit in a `usize`.
    SizeOverflow,
    /// The number of `0` and `1` words after the size line is not `width * height`.
    PixelCount,
}

/// A bitmap of `width * height` pixels, row by row; 1 is black.
#[derive(Debug)]
pub struct Bitmap {
    pub width: usize,
    pub height: usize,
    pub pixels: Vec<u8>,
}

/// A size line is neither blank nor a `#` comment.
pub open spec fn is_size_line(l: Seq<char>) -> bool {
    let t = trimmed(l);
    t.len() > 0 && t[0] != '#'
}

/// Index of the first size line among `ls[from..]`.
pub open spec fn size_line_from(ls: Seq<Seq<char>>, from: int) -> Option<int>
    decreases ls.len() - from,
{
    if from < 0 || from >= ls.len() {
        None
    } else if is_size_line(ls[from]) {
        Some(from)
    } else {
        size_line_from(ls, from + 1)
    }
}

/// The pixels that the words `ws` give: `0` and `1` in order, other words skipped.
pub open spec fn bits_in(ws: Seq<Seq<char>>) -> Seq<u8>
    decreases ws.len(),
{
    if ws.len() == 0 {
        seq![]
    } else {
        let w = ws.last();
        bits_in(ws.drop_last()) + if w == seq!['0'] {
            seq![0u8]
        } else if w == seq!['1'] {
            seq![1u8]
        } else {
            Seq::<u8>::empty()
        }
    }
}

/// The pixels of the lines `ls`, in order.
pub open spec fn bits_of(ls: Seq<Seq<char>>) -> Seq<u8>
    decreases ls.len(),
{
    if ls.len() == 0 {
        seq![]
    } else {
        bits_of(ls.drop_last()) + bits_in(tokens(ls.last()))
    }
}

/// The numbers of a size line, or `None` when a word does not read as a `usize`.
pub open spec fn size_numbers(ws: Seq<Seq<char>>) -> Option<Seq<nat>>
    decreases ws.len(),
{
    if ws.len() == 0 {
        Some(seq![])
    } else {
        match (size_numbers(ws.drop_last()), usize_value(ws.last())) {
            (Some(ns), Some(x)) => Some(ns.push(x)),
            _ => None,
        }
    }
}

/// What PBM text holds: a first line starting with `P1`, then a size line `width height`
/// after any blank or `#` lines, then the pixels as `0` and `1` words (other words are
/// skipped), exactly `width * height` of them.
pub open spec fn pbm_image(text: Seq<char>) -> Result<(nat, nat, Seq<u8>), PbmError> {
    let ls = read_lines(text);
    let first = if ls.len() == 0 { seq![] } else { trimmed(ls[0]) };
    if !(first.len() >= 2 && first[0] == 'P' && first[1] == '1') {
        Err(PbmError::NotP1)
    } else {
        match size_line_from(ls, 1) {
            None => Err(PbmError::NoDimensions),
            Some(d) => from_size_line(ls, d),
        }
    }
}

/// What the lines hold from the size line `ls[d]` on.
pub open spec fn from_size_line(ls: Seq<Seq<char>>, d: int) -> Result<(nat, nat, Seq<u8>), PbmError> {
    match size_numbers(tokens(ls[d])) {
        None => Err(PbmError::BadDimension),
        Some(ns) => if ns.len() != 2 {
            Err(PbmError::DimensionCount)
        } else if ns[0] * ns[1] > usize::MAX {
            Err(PbmError::SizeOverflow)
        } else {
            let bits = bits_of(ls.skip(d + 1));
            if bits.len() != ns[0] * ns[1] {
                Err(PbmError::PixelCount)
            } else {
                Ok((ns[0], ns[1], bits))
            }
        },
    }
}

/// The pixels of the words `spans` of `v`, appended to `out`.
fn push_bits(v: &Vec<char>, spans: &Vec<(usize, usize)>, out: &mut Vec<u8>)
    requires
        forall|t: int| 0 <= t < spans@.len() ==> (#[trigger] spans@[t]).0 <= spans@[t].1 <= v@.len(),
    ensures
        final(out)@ == old(out)@ + bits_in(
            Seq::new(spans@.len(), |t: int| v@.subrange(spans@[t].0 as int, spans@[t].1 as int)),
        ),
{
    let ghost ws = Seq::new(spans@.len(), |t: int| v@.subrange(spans@[t].0 as int, spans@[t].1 as int));
    let ghost start = out@;
    let mut k: usize = 0;
    proof {
        assert(ws.take(0) =~= Seq::<Seq<char>>::empty());
        assert(out@ =~= start + bits_in(ws.take(0)));
    }
    while k < spans.len()
        invariant
            k <= spans@.len(),
            ws == Seq::new(spans@.len(), |t: int| v@.subrange(spans@[t].0 as int, spans@[t].1 as int)),
            forall|t: int| 0 <= t < spans@.len() ==> (#[trigger] spans@[t]).0 <= spans@[t].1 <= v@.len(),
            out@ == start + bits_in(ws.take(k as int)),
        decreases spans@.len() - k,
    {
        let (a, b) = spans[k];
        let ghost w = v@.subrange(a as int, b as int);
        let ghost before = out@;
        proof {
            assert(ws.take(k + 1).drop_last() =~= ws.take(k as int));
            assert(ws.take(k + 1).last() == w);
        }
        if b - a == 1 && v[a] == '0' {
            out.push(0);
            proof {
                assert(w =~= seq!['0']);
                assert(out@ =~= start + bits_in(ws.take(k + 1)));
            }
        } else if b - a == 1 && v[a] == '1' {
            out.push(1);
            proof {
                assert(w =~= seq!['1']);
                assert(w[0] != seq!['0'][0]);
                assert(out@ =~= start + bits_in(ws.take(k + 1)));
            }
        } else {
            proof {
                if w == seq!['0'] || w == seq!['1'] {
                    assert(w.len() == 1 && w[0] == v@[a as int]);
                }
                assert(out@ =~= start + bits_in(ws.take(k + 1)));
            }
        }
        k += 1;
    }
    proof {
        assert(ws.take(k as int) =~= ws);
    }
}

pub proof fn lemma_size_numbers_none(ws: Seq<Seq<char>>, j: int, k: int)
    requires
        0 <= j <= k <= ws.len(),
        size_numbers(ws.take(j)) is None,
    ensures
        size_numbers(ws.take(k)) is None,
    decreases k - j,
{
    if k > j {
        lemma_size_numbers_none(ws, j, k - 1);
        assert(ws.take(k).drop_last() =~= ws.take(k - 1));
    }
}

/// `v[lo..hi]` is a size line.
fn size_line_at(v: &Vec<char>, lo: usize, hi: usize) -> (r: bool)
    requires
        lo <= hi <= v@.len(),
    ensures
        r == is_size_line(v@.subrange(lo as int, hi as int)),
{
    let (a, b) = trim_range(v, lo, hi);
    proof {
        if a < b {
            assert(trimmed(v@.subrange(lo as int, hi as int))[0] == v@[a as int]);
        }
    }
    a < b && v[a] != '#'
}

/// Reads a plain PBM bitmap from its text.
pub fn parse_pbm(text: &str) -> (r: Result<Bitmap, PbmError>)
    ensures
        match pbm_image(text@) {
            Ok((w, h, bits)) => r matches Ok(bm) && bm.width == w && bm.height == h && bm.pixels@ == bits,
            Err(e) => r matches Err(x) && x == e,
        },
{
    let v = chars_of(text);
    let lines = read_line_spans(&v);
    let ghost ls = read_lines(v@);
    let n = lines.len();
    let is_p1 = if n == 0 {
        false
    } else {
        let (a, b) = trim_range(&v, lines[0].0, lines[0].1);
        proof {
            assert(v@.subrange(lines@[0].0 as int, lines@[0].1 as int) == ls[0]);
        }
        b - a >= 2 && v[a] == 'P' && v[a + 1] == '1'
    };
    if !is_p1 {
        return Err(PbmError::NotP1);
    }
    let mut d: usize = 1;
    while d < n && !size_line_at(&v, lines[d].0, lines[d].1)
        invariant
            1 <= d <= n == lines@.len() == ls.len(),
            ls == read_lines(v@),
            forall|t: int| 0 <= t < lines@.len() ==> {
                &&& (#[trigger] lines@[t]).0 <= lines@[t].1 <= v@.len()
                &&& v@.subrange(lines@[t].0 as int, lines@[t].1 as int) == ls[t]
            },
            size_line_from(ls, 1) == size_line_from(ls, d as int),
        decreases n - d,
    {
        proof {
            assert(!is_size_line(ls[d as int]));
        }
        d += 1;
    }
    proof {
        if d < n {
            assert(is_size_line(ls[d as int]));
        }
    }
    if d == n {
        return Err(PbmError::NoDimensions);
    }
    let (a, b) = lines[d];
    let ws = token_spans(&v, a, b);
    let ghost words = tokens(ls[d as int]);
    proof {
        assert(v@.subrange(a as int, b as int) == ls[d as int]);
        assert(words.len() == ws@.len());
    }
    let mut nums: Vec<usize> = Vec::new();
    let mut k: usize = 0;
    proof {
        assert(words.take(0) =~= Seq::<Seq<char>>::empty());
    }
    while k < ws.len()
        invariant
            k <= ws@.len() == words.len(),
            words == tokens(v@.subrange(a as int, b as int)),
            words == tokens(ls[d as int]),
            pbm_image(text@) == from_size_line(ls, d as int),
            forall|t: int| 0 <= t < ws@.len() ==> {
                &&& (#[trigger] ws@[t]).0 <= ws@[t].1 <= v@.len()
                &&& v@.subrange(ws@[t].0 as int, ws@[t].1 as int) == words[t]
            },
            size_numbers(words.take(k as int)) == Some(nums@.map_values(|x: usize| x as nat)),
        decreases ws@.len() - k,
    {
        proof {
            assert(words.take(k + 1).drop_last() =~= words.take(k as int));
            assert(words.take(k + 1).last() == words[k as int]);
        }
        match read_usize(&v, ws[k].0, ws[k].1) {
            Some(x) => {
                let ghost before = nums@;
                nums.push(x);
                proof {
                    assert(nums@.map_values(|x: usize| x as nat) =~= before.map_values(|x: usize| x as nat).push(x as nat));
                }
            },
            None => {
                proof {
                    lemma_size_numbers_none(words, k + 1, words.len() as int);
                    assert(words.take(words.len() as int) =~= words);
                }
                return Err(PbmError::BadDimension);
            },
        }
        k += 1;
    }
    proof {
        assert(words.take(k as int) =~= words);
    }
    if nums.len() != 2 {
        return Err(PbmError::DimensionCount);
    }
    let width = nums[0];
    let height = nums[1];
    let size = match width.checked_mul(height) {
        Some(s) => s,
        None => {
            return Err(PbmError::SizeOverflow);
        },
    };
    let mut pixels: Vec<u8> = Vec::new();
    let mut t: usize = d + 1;
    let ghost rest = ls.skip(d + 1);
    proof {
        assert(rest.take(0) =~= Seq::<Seq<char>>::empty());
    }
    while t < n
        invariant
            d + 1 <= t <= n == lines@.len() == ls.len(),
            rest == ls.skip(d + 1),
            forall|i: int| 0 <= i < lines@.len() ==> {
                &&& (#[trigger] lines@[i]).0 <= lines@[i].1 <= v@.len()
                &&& v@.subrange(lines@[i].0 as int, lines@[i].1 as int) == ls[i]
            },
            pixels@ == bits_of(rest.take(t - d - 1)),
        decreases n - t,
    {
        let spans = token_spans(&v, lines[t].0, lines[t].1);
        proof {
            let line = v@.subrange(lines@[t as int].0 as int, lines@[t as int].1 as int);
            assert(line.subrange(0, line.len() as int) =~= line);
            assert(Seq::new(spans@.len(), |i: int| v@.subrange(spans@[i].0 as int, spans@[i].1 as int)) =~= tokens(line));
            assert(rest.take(t - d).drop_last() =~= rest.take(t - d - 1));
            assert(rest.take(t - d).last() == ls[t as int]);
        }
        push_bits(&v, &spans, &mut pixels);
        t += 1;
    }
    proof {
        assert(rest.take(t - d - 1) =~= rest);
    }
    if pixels.len() != size {
        return Err(PbmError::PixelCount);
    }
    Ok(Bitmap { width, height, pixels })
}

/// Rows of characters on a scanned page.
pub const ROWS: usize = 16;

/// Characters per row on a scanned page.
pub const COLS: usize = 30;

/// Side of a character cell written out, in pixels.
pub const CHAR_SIZE: usize = 128;

/// The pixel of the character cell `(row, col)` of a `w * h` page at `(y, x)` of the cell,
/// scaled to `CHAR_SIZE` by nearest neighbour: the page splits into `ROWS` rows of height
/// `h / ROWS` and `COLS` columns of width `w / COLS`.
pub open spec fn cell_pixel(w: nat, h: nat, px: Seq<u8>, row: nat, col: nat, y: nat, x: nat) -> u8 {
    let cw = w / COLS as nat;
    let ch = h / ROWS as nat;
    px[((row * ch + y * ch / CHAR_SIZE as nat) * w + col * cw + x * cw / CHAR_SIZE as nat) as int]
}

proof fn lemma_scaled_index(n: nat, k: nat, y: nat, total: nat)
    requires
        y < 128,
        k * n <= total,
        k >= 1,
    ensures
        y * n / 128 < n || n == 0,
        n > 0 ==> (k - 1) * n + y * n / 128 < total,
{
    if n > 0 {
        assert(y * n < 128 * n) by (nonlinear_arith)
            requires
                y < 128,
                n > 0,
        ;
        assert(y * n / 128 < n) by (nonlinear_arith)
            requires
                y * n < 128 * n,
        ;
        assert((k - 1) * n + n == k * n) by (nonlinear_arith);
    }
}

/// The character cell `(row, col)` of a scanned page, scaled to `CHAR_SIZE * CHAR_SIZE`
/// pixels, row by row.
pub fn char_cell(page: &Bitmap, row: usize, col: usize) -> (cell: Vec<u8>)
    requires
        row < ROWS,
        col < COLS,
        page.width > 0,
        page.height > 0,
        page.pixels@.len() == page.width * page.height,
        127 * (page.width / COLS) <= usize::MAX,
        127 * (page.height / ROWS) <= usize::MAX,
    ensures
        cell@.len() == CHAR_SIZE * CHAR_SIZE,
        forall|y: int, x: int|
            0 <= y < CHAR_SIZE && 0 <= x < CHAR_SIZE ==> #[trigger] cell@[y * CHAR_SIZE + x] == cell_pixel(
                page.width as nat,
                page.height as nat,
                page.pixels@,
                row as nat,
                col as nat,
                y as nat,
                x as nat,
            ),
{
    let w = page.width;
    let h = page.height;
    let total = page.pixels.len();
    let cw = w / COLS;
    let ch = h / ROWS;
    let mut cell: Vec<u8> = Vec::new();
    let mut y: usize = 0;
    while y < CHAR_SIZE
        invariant
            row < ROWS,
            col < COLS,
            w == page.width > 0,
            h == page.height > 0,
            cw == w / COLS,
            ch == h / ROWS,
            127 * cw <= usize::MAX,
            127 * ch <= usize::MAX,
            page.pixels@.len() == w * h,
            total == w * h,
            y <= CHAR_SIZE,
            cell@.len() == y * CHAR_SIZE,
            forall|yy: int, x: int|
                0 <= yy < y && 0 <= x < CHAR_SIZE ==> #[trigger] cell@[yy * CHAR_SIZE + x] == cell_pixel(
                    w as nat,
                    h as nat,
                    page.pixels@,
                    row as nat,
                    col as nat,
                    yy as nat,
                    x as nat,
                ),
        decreases CHAR_SIZE - y,
    {
        proof {
            assert((row + 1) * ch <= h) by (nonlinear_arith)
                requires
                    row + 1 <= 16,
                    ch == h / 16,
            ;
            lemma_scaled_index(ch as nat, (row + 1) as nat, y as nat, h as nat);
            assert(y * ch <= 127 * ch) by (nonlinear_arith)
                requires
                    y < 128,
            ;
        }
        let src_y = row * ch + y * ch / CHAR_SIZE;
        assert(src_y < h);
        let mut x: usize = 0;
        while x < CHAR_SIZE
            invariant
                row < ROWS,
                col < COLS,
                w == page.width > 0,
                h == page.height > 0,
                cw == w / COLS,
                ch == h / ROWS,
                127 * cw <= usize::MAX,
                127 * ch <= usize::MAX,
                page.pixels@.len() == w * h,
                total == w * h,
                y < CHAR_SIZE,
                src_y == row * ch + y * ch / 128,
                src_y < h,
                x <= CHAR_SIZE,
                cell@.len() == y * CHAR_SIZE + x,
                forall|yy: int, xx: int|
                    0 <= yy < y && 0 <= xx < CHAR_SIZE ==> #[trigger] cell@[yy * CHAR_SIZE + xx] == cell_pixel(
                        w as nat,
                        h as nat,
                        page.pixels@,
                        row as nat,
                        col as nat,
                        yy as nat,
                        xx as nat,
                    ),
                forall|xx: int|
                    0 <= xx < x ==> #[trigger] cell@[y * CHAR_SIZE + xx] == cell_pixel(
                        w as nat,
                        h as nat,
                        page.pixels@,
                        row as nat,
                        col as nat,
                        y as nat,
                        xx as nat,
                    ),
            decreases CHAR_SIZE - x,
        {
            proof {
                assert((col + 1) * cw <= w) by (nonlinear_arith)
                    requires
                        col + 1 <= 30,
                        cw == w / 30,
                ;
                lemma_scaled_index(cw as nat, (col + 1) as nat, x as nat, w as nat);
                assert(x * cw <= 127 * cw) by (nonlinear_arith)
                    requires
                        x < 128,
                ;
                assert(col * cw <= w) by (nonlinear_arith)
                    requires
                        (col + 1) * cw <= w,
                ;
            }
            let src_x = col * cw + x * cw / CHAR_SIZE;
            assert(src_x < w);
            proof {
                assert(src_y * w + src_x < w * h) by (nonlinear_arith)
                    requires
                        src_y < h,
                        src_x < w,
                ;
            }
            let ghost before = cell@;
            cell.push(page.pixels[src_y * w + src_x]);
            proof {
                assert forall|yy: int, xx: int|
                    0 <= yy < y && 0 <= xx < CHAR_SIZE implies #[trigger] cell@[yy * CHAR_SIZE + xx] == cell_pixel(
                        w as nat,
                        h as nat,
                        page.pixels@,
                        row as nat,
                        col as nat,
                        yy as nat,
                        xx as nat,
                    ) by {
                    assert(yy * CHAR_SIZE + xx < y * CHAR_SIZE) by (nonlinear_arith)
                        requires
                            yy < y,
                            xx < 128,
                    ;
                    assert(cell@[yy * CHAR_SIZE + xx] == before[yy * CHAR_SIZE + xx]);
                }
            }
            x += 1;
        }
        proof {
            assert((y + 1) * CHAR_SIZE == y * CHAR_SIZE + CHAR_SIZE) by (nonlinear_arith);
        }
        y += 1;
    }
    cell
}

/// The number of 1s in `s`.
pub open spec fn count_ones(s: Seq<u8>) -> nat
    decreases s.len(),
{
    if s.len() == 0 {
        0
    } else {
        count_ones(s.drop_last()) + if s.last() == 1 { 1nat } else { 0nat }
    }
}

/// The number of black pixels of a cell.
pub fn black_count(cell: &Vec<u8>) -> (n: usize)
    ensures
        n == count_ones(cell@),
{
    let mut n: usize = 0;
    let mut i: usize = 0;
    while i < cell.len()
        invariant
            i <= cell@.len(),
            n == count_ones(cell@.take(i as int)),
            n <= i,
        decreases cell@.len() - i,
    {
        proof {
            assert(cell@.take(i + 1).drop_last() =~= cell@.take(i as int));
        }
        if cell[i] == 1 {
            n += 1;
        }
        i += 1;
    }
    proof {
        assert(cell@.take(i as int) =~= cell@);
    }
    n
}

/// One row of pixels as written out: each value followed by a space.
pub open spec fn pbm_row(ps: Seq<u8>) -> Seq<char>
    decreases ps.len(),
{
    if ps.len() == 0 {
        seq![]
    } else {
        pbm_row(ps.drop_last()) + decimal(ps.last() as nat) + seq![' ']
    }
}

/// The first `rows` rows of width `w`, each ended by a newline.
pub open spec fn pbm_rows(ps: Seq<u8>, w: nat, rows: nat) -> Seq<char>
    decreases rows,
{
    if rows == 0 {
        seq![]
    } else {
        pbm_rows(ps, w, (rows - 1) as nat) + pbm_row(ps.subrange((rows - 1) * w, (rows * w) as int)) + seq!['\n']
    }
}

/// A bitmap written out as plain PBM text: `P1`, the size line `w h`, then the rows.
pub open spec fn pbm_document(w: nat, h: nat, ps: Seq<u8>) -> Seq<char> {
    seq!['P', '1', '\n'] + decimal(w) + seq![' '] + decimal(h) + seq!['\n'] + pbm_rows(ps, w, h)
}

/// Writes a `width * height` bitmap as plain PBM text.
pub fn pbm_text(width: usize, height: usize, pixels: &Vec<u8>) -> (s: String)
    requires
        pixels@.len() == width * height,
    ensures
        s@ == pbm_document(width as nat, height as nat, pixels@),
{
    let total = pixels.len();
    let mut s = String::new();
    push_char(&mut s, 'P');
    push_char(&mut s, '1');
    push_char(&mut s, '\n');
    push_decimal(&mut s, width);
    push_char(&mut s, ' ');
    push_decimal(&mut s, height);
    push_char(&mut s, '\n');
    let ghost head = s@;
    proof {
        assert(head =~= seq!['P', '1', '\n'] + decimal(width as nat) + seq![' '] + decimal(height as nat) + seq!['\n']);
    }
    let mut y: usize = 0;
    while y < height
        invariant
            pixels@.len() == width * height,
            total == pixels@.len(),
            y <= height,
            head == seq!['P', '1', '\n'] + decimal(width as nat) + seq![' '] + decimal(height as nat) + seq!['\n'],
            s@ == head + pbm_rows(pixels@, width as nat, y as nat),
        decreases height - y,
    {
        let ghost before = s@;
        let mut x: usize = 0;
        proof {
            assert(y * width + width <= width * height) by (nonlinear_arith)
                requires
                    y < height,
            ;
            assert(y * width <= total);
            assert(pixels@.subrange(y * width, y * width + 0) =~= Seq::<u8>::empty());
        }
        let base = y * width;
        while x < width
            invariant
                pixels@.len() == width * height,
                total == pixels@.len(),
                base == y * width,
                base + width <= pixels@.len(),
                x <= width,
                s@ == before + pbm_row(pixels@.subrange(base as int, base + x)),
            decreases width - x,
        {
            push_decimal(&mut s, pixels[base + x] as usize);
            push_char(&mut s, ' ');
            proof {
                assert(pixels@.subrange(base as int, base + x + 1).drop_last() =~= pixels@.subrange(base as int, base + x));
            }
            x += 1;
        }
        push_char(&mut s, '\n');
        proof {
            assert((y + 1) * width == base + width) by (nonlinear_arith)
                requires
                    base == y * width,
            ;
            assert(s@ =~= head + pbm_rows(pixels@, width as nat, (y + 1) as nat));
        }
        y += 1;
    }
    s
}

/// The first `k` rows of a `w`-wide bitmap, each as the line `pbm_row` writes.
pub open spec fn row_lines(ps: Seq<u8>, w: nat, k: nat) -> Seq<Seq<char>> {
    Seq::new(k, |i: int| pbm_row(ps.subrange(i * w, (i + 1) * w)))
}

proof fn lemma_rows_joined(ps: Seq<u8>, w: nat, k: nat)
    ensures
        pbm_rows(ps, w, k) == joined(row_lines(ps, w, k)),
    decreases k,
{
    if k == 0 {
        assert(row_lines(ps, w, 0) =~= Seq::<Seq<char>>::empty());
    } else {
        let k1 = (k - 1) as nat;
        lemma_rows_joined(ps, w, k1);
        assert(row_lines(ps, w, k) =~= row_lines(ps, w, k1).push(pbm_row(ps.subrange((k1 * w) as int, ((k1 + 1) * w) as int))));
        assert((k1 + 1) * w == k * w);
        lemma_joined_push(row_lines(ps, w, k1), pbm_row(ps.subrange((k1 * w) as int, ((k1 + 1) * w) as int)));
    }
}

proof fn lemma_row_chars(ps: Seq<u8>)
    ensures
        forall|i: int| 0 <= i < pbm_row(ps).len() ==> #[trigger] pbm_row(ps)[i] != '\n',
        pbm_row(ps).len() == 0 || pbm_row(ps).last() == ' ',
    decreases ps.len(),
{
    if ps.len() > 0 {
        lemma_row_chars(ps.drop_last());
        lemma_decimal_digits(ps.last() as nat);
        let a = pbm_row(ps.drop_last());
        let d = decimal(ps.last() as nat);
        let r = pbm_row(ps);
        assert forall|i: int| 0 <= i < r.len() implies #[trigger] r[i] != '\n' by {
            if i < a.len() {
                assert(r[i] == a[i]);
            } else if i < a.len() + d.len() {
                assert(r[i] == d[i - a.len()]);
            }
        }
    }
}

proof fn lemma_tokens_word_space(x: Seq<char>)
    requires
        x.len() > 0,
        forall|i: int| 0 <= i < x.len() ==> !is_white_space(#[trigger] x[i]),
    ensures
        tokens(x.push(' ')) == seq![x],
{
    let s = x.push(' ');
    assert forall|i: int| 0 <= i < x.len() implies !is_white_space(#[trigger] s[i]) by {
        assert(s[i] == x[i]);
    }
    lemma_word_len_of_run(s, x.len() as int);
    assert(s.take(x.len() as int) =~= x);
    assert(s.skip(x.len() as int) =~= seq![' ']);
    assert(seq![' '].drop_first() =~= Seq::<char>::empty());
    assert(is_white_space(seq![' '][0]));
    assert(tokens(Seq::<char>::empty()) =~= Seq::<Seq<char>>::empty());
    assert(tokens(seq![' ']) =~= Seq::<Seq<char>>::empty());
    assert(tokens(s) =~= seq![x]);
}

proof fn lemma_row_bits(ps: Seq<u8>)
    requires
        forall|i: int| 0 <= i < ps.len() ==> #[trigger] ps[i] <= 1,
    ensures
        bits_in(tokens(pbm_row(ps))) == ps,
    decreases ps.len(),
{
    if ps.len() == 0 {
        assert(tokens(Seq::<char>::empty()) =~= Seq::<Seq<char>>::empty());
    } else {
        let l = ps.last();
        let a = pbm_row(ps.drop_last());
        let d = decimal(l as nat);
        lemma_row_chars(ps.drop_last());
        lemma_row_bits(ps.drop_last());
        lemma_digit_char(l as nat);
        assert(d =~= seq![crate::text::digit_char(l as nat)]);
        assert(pbm_row(ps) =~= a + d.push(' '));
        lemma_tokens_concat(a, d.push(' '));
        lemma_tokens_word_space(d);
        let ws = tokens(a) + seq![d];
        assert(ws.drop_last() =~= tokens(a));
        assert(ws.last() == d);
        if l == 0 {
            assert(d =~= seq!['0']);
        } else {
            assert(d =~= seq!['1']);
            assert(d != seq!['0']) by {
                assert(d[0] != seq!['0'][0]);
            }
        }
        assert(bits_in(ws) =~= ps);
    }
}

proof fn lemma_rows_bits(ps: Seq<u8>, w: nat, k: nat)
    requires
        k * w <= ps.len(),
        forall|i: int| 0 <= i < ps.len() ==> #[trigger] ps[i] <= 1,
    ensures
        bits_of(row_lines(ps, w, k)) == ps.take((k * w) as int),
    decreases k,
{
    if k == 0 {
        assert(row_lines(ps, w, 0) =~= Seq::<Seq<char>>::empty());
        assert(k * w == 0) by (nonlinear_arith)
            requires
                k == 0,
        ;
        assert(ps.take(0) =~= Seq::<u8>::empty());
    } else {
        let k1 = (k - 1) as nat;
        assert(k1 * w + w == k * w) by (nonlinear_arith)
            requires
                k1 == k - 1,
        ;
        lemma_rows_bits(ps, w, k1);
        let row = ps.subrange((k1 * w) as int, (k * w) as int);
        assert forall|i: int| 0 <= i < row.len() implies #[trigger] row[i] <= 1 by {
            assert(row[i] == ps[k1 * w + i]);
        }
        lemma_row_bits(row);
        assert(row_lines(ps, w, k).drop_last() =~= row_lines(ps, w, k1));
        assert(row_lines(ps, w, k).last() == pbm_row(ps.subrange((k1 * w) as int, ((k1 + 1) * w) as int)));
        assert((k1 + 1) * w == k * w);
        assert(ps.take((k1 * w) as int) + row =~= ps.take((k * w) as int));
    }
}

/// A bitmap of `0` and `1` pixels, written out as PBM text, reads back as the same
/// width, height and pixels.
pub proof fn law_written_pbm_reads_back(w: nat, h: nat, ps: Seq<u8>)
    requires
        w <= usize::MAX,
        h <= usize::MAX,
        w * h <= usize::MAX,
        ps.len() == w * h,
        forall|i: int| 0 <= i < ps.len() ==> #[trigger] ps[i] <= 1,
    ensures
        pbm_image(pbm_document(w, h, ps)) == Ok::<(nat, nat, Seq<u8>), PbmError>((w, h, ps)),
{
    let dw = decimal(w);
    let dh = decimal(h);
    let l1 = seq!['P', '1'];
    let l2 = dw.push(' ') + dh;
    let rows = row_lines(ps, w, h);
    let ls = seq![l1, l2] + rows;
    lemma_decimal_digits(w);
    lemma_decimal_digits(h);
    lemma_rows_joined(ps, w, h);
    assert(ls.drop_first() =~= seq![l2] + rows);
    assert(ls.drop_first().drop_first() =~= rows);
    assert(joined(ls) == l1 + seq!['\n'] + joined(ls.drop_first()));
    assert(joined(ls.drop_first()) == l2 + seq!['\n'] + joined(rows));
    assert(pbm_document(w, h, ps) =~= joined(ls));
    assert forall|t: int, i: int| 0 <= t < ls.len() && 0 <= i < ls[t].len() implies #[trigger] ls[t][i] != '\n' by {
        if t == 1 {
            if i < dw.len() {
                assert(l2[i] == dw[i]);
            } else if i > dw.len() {
                assert(l2[i] == dh[i - dw.len() - 1]);
            }
        } else if t >= 2 {
            assert(ls[t] == rows[t - 2]);
            lemma_row_chars(ps.subrange((t - 2) * w, (t - 2 + 1) * w));
        }
    }
    lemma_read_lines_joined(ls);
    // the first line
    assert(trimmed(l1) == l1);
    // the size line
    assert(l2[0] == dw[0]);
    assert(l2.last() == dh.last());
    assert(trimmed(l2) == l2);
    assert(crate::pbm::size_line_from(ls, 1) == Some(1int));
    lemma_tokens_concat(dw.push(' '), dh);
    lemma_tokens_word_space(dw);
    lemma_tokens_word(dh);
    let ws = seq![dw, dh];
    assert(tokens(l2) =~= ws);
    lemma_decimal_value(w);
    lemma_decimal_value(h);
    assert(usize_value(dw) == Some(w));
    assert(usize_value(dh) == Some(h));
    assert(ws.drop_last() =~= seq![dw]);
    assert(seq![dw].drop_last() =~= Seq::<Seq<char>>::empty());
    assert(size_numbers(Seq::<Seq<char>>::empty()) == Some(Seq::<nat>::empty()));
    assert(seq![dw].last() == dw);
    assert(Seq::<nat>::empty().push(w) =~= seq![w]);
    assert(seq![w].push(h) =~= seq![w, h]);
    assert(size_numbers(seq![dw]) == Some(seq![w]));
    assert(size_numbers(ws) == Some(seq![w, h]));
    // the pixels
    assert(ls.skip(2) =~= rows);
    assert(h * w == w * h) by (nonlinear_arith);
    lemma_rows_bits(ps, w, h);
    assert(ps.take((h * w) as int) =~= ps);
}

/// The pixels of a grey image that count as black: darker than 180.
pub fn dark_pixels(grey: &Vec<u8>) -> (r: Vec<u8>)
    ensures
        r@.len() == grey@.len(),
        forall|i: int| 0 <= i < grey@.len() ==> #[trigger] r@[i] == (if grey@[i] < 180 { 1u8 } else { 0u8 }),
{
    let mut r: Vec<u8> = Vec::new();
    let mut i: usize = 0;
    while i < grey.len()
        invariant
            i <= grey@.len(),
            r@.len() == i,
            forall|j: int| 0 <= j < i ==> #[trigger] r@[j] == (if grey@[j] < 180 { 1u8 } else { 0u8 }),
        decreases grey@.len() - i,
    {
        r.push(if grey[i] < 180 { 1 } else { 0 });
        i += 1;
    }
    r
}

/// `n` in decimal, padded with leading zeros to at least `width` digits.
pub open spec fn zero_padded(n: nat, width: nat) -> Seq<char> {
    let d = decimal(n);
    if d.len() >= width {
        d
    } else {
        Seq::new((width - d.len()) as nat, |i: int| '0') + d
    }
}

/// Appends `n` padded with zeros to `width` digits (`format!("{:0width$}", n)`).
fn push_padded(s: &mut String, n: usize, width: usize)
    ensures
        final(s)@ == old(s)@ + zero_padded(n as nat, width as nat),
{
    let mut digits = String::new();
    push_decimal(&mut digits, n);
    proof {
        assert(digits@ =~= decimal(n as nat));
    }
    let len = digits.as_str().unicode_len();
    let ghost start = s@;
    let mut k: usize = len;
    while k < width
        invariant
            len == decimal(n as nat).len(),
            digits@ == decimal(n as nat),
            len <= k,
            k <= width || len > width,
            len >= width ==> k == len,
            s@ == start + Seq::new((k - len) as nat, |i: int| '0'),
        decreases width - k,
    {
        push_char(s, '0');
        proof {
            assert(s@ =~= start + Seq::new((k + 1 - len) as nat, |i: int| '0'));
        }
        k += 1;
    }
    s.append(digits.as_str());
    proof {
        if len >= width {
            assert(Seq::new((k - len) as nat, |i: int| '0') =~= Seq::<char>::empty());
            assert(s@ =~= start + zero_padded(n as nat, width as nat));
        } else {
            assert(s@ =~= start + zero_padded(n as nat, width as nat));
        }
    }
}

/// The file a character cell is written to: `output/` then the character and the column
/// counted from 1 in two digits, then `.pbm`.
pub fn cell_file_name(c: char, col: usize) -> (name: String)
    requires
        col < COLS,
    ensures
        name@ == "output/"@ + seq![c] + zero_padded((col + 1) as nat, 2) + ".pbm"@,
{
    let mut name = "output/".to_owned();
    push_char(&mut name, c);
    push_padded(&mut name, col + 1, 2);
    name.append(".pbm");
    name
}

/// The file the `index`-th split character, labelled `label`, is written to:
/// `data/split/`, the label, `_`, the index in five digits, then `.pbm`.
pub fn split_file_name(label: char, index: usize) -> (name: String)
    ensures
        name@ == "data/split/"@ + seq![label, '_'] + zero_padded(index as nat, 5) + ".pbm"@,
{
    let mut name = "data/split/".to_owned();
    push_char(&mut name, label);
    push_char(&mut name, '_');
    push_padded(&mut name, index, 5);
    name.append(".pbm");
    name
}

} // verus!
