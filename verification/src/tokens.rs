//! Splitting text into lines and white-space separated tokens, and reading integers
//! the way `str::parse` does.

use vstd::prelude::*;
use crate::text::{is_white_space, white_space, decimal, digit_char};

verus! {

/// Length of the initial run of non-white-space characters.
pub open spec fn word_len(s: Seq<char>) -> nat
    decreases s.len(),
{
    if s.len() == 0 || is_white_space(s[0]) { 0 } else { 1 + word_len(s.drop_first()) }
}

/// The white-space separated tokens of `s`, in order (`str::split_whitespace`).
pub open spec fn tokens(s: Seq<char>) -> Seq<Seq<char>>
    decreases s.len(),
{
    if s.len() == 0 {
        seq![]
    } else if is_white_space(s[0]) {
        tokens(s.drop_first())
    } else {
        let k = word_len(s);
        proof {
            lemma_word_len_bound(s);
        }
        seq![s.take(k as int)] + tokens(s.skip(k as int))
    }
}

/// Position of the first `'\n'` in `s`, or its length.
pub open spec fn line_len(s: Seq<char>) -> nat
    decreases s.len(),
{
    if s.len() == 0 || s[0] == '\n' { 0 } else { 1 + line_len(s.drop_first()) }
}

/// The pieces of `s` between `'\n'` characters (`str::split('\n')`): always at least one.
pub open spec fn lines(s: Seq<char>) -> Seq<Seq<char>>
    decreases s.len(),
{
    let k = line_len(s);
    proof {
        lemma_line_len_bound(s);
    }
    if k >= s.len() {
        seq![s]
    } else {
        seq![s.take(k as int)] + lines(s.skip(k as int + 1))
    }
}

pub proof fn lemma_word_len_bound(s: Seq<char>)
    ensures
        word_len(s) <= s.len(),
        forall|i: int| 0 <= i < word_len(s) ==> !is_white_space(#[trigger] s[i]),
        word_len(s) < s.len() ==> is_white_space(s[word_len(s) as int]),
    decreases s.len(),
{
    if s.len() > 0 && !is_white_space(s[0]) {
        lemma_word_len_bound(s.drop_first());
        assert forall|i: int| 0 <= i < word_len(s) implies !is_white_space(#[trigger] s[i]) by {
            if i > 0 {
                assert(s[i] == s.drop_first()[i - 1]);
            }
        }
    }
}

pub proof fn lemma_line_len_bound(s: Seq<char>)
    ensures
        line_len(s) <= s.len(),
        forall|i: int| 0 <= i < line_len(s) ==> #[trigger] s[i] != '\n',
        line_len(s) < s.len() ==> s[line_len(s) as int] == '\n',
    decreases s.len(),
{
    if s.len() > 0 && s[0] != '\n' {
        lemma_line_len_bound(s.drop_first());
        assert forall|i: int| 0 <= i < line_len(s) implies #[trigger] s[i] != '\n' by {
            if i > 0 {
                assert(s[i] == s.drop_first()[i - 1]);
            }
        }
    }
}

pub proof fn lemma_word_len_of_run(s: Seq<char>, k: int)
    requires
        0 <= k <= s.len(),
        forall|i: int| 0 <= i < k ==> !is_white_space(#[trigger] s[i]),
        k == s.len() || is_white_space(s[k]),
    ensures
        word_len(s) == k,
    decreases k,
{
    if k > 0 {
        assert forall|i: int| 0 <= i < k - 1 implies !is_white_space(#[trigger] s.drop_first()[i]) by {
            assert(s.drop_first()[i] == s[i + 1]);
        }
        if k < s.len() {
            assert(s.drop_first()[k - 1] == s[k]);
        }
        lemma_word_len_of_run(s.drop_first(), k - 1);
    }
}

pub proof fn lemma_line_len_of_run(s: Seq<char>, k: int)
    requires
        0 <= k <= s.len(),
        forall|i: int| 0 <= i < k ==> #[trigger] s[i] != '\n',
        k == s.len() || s[k] == '\n',
    ensures
        line_len(s) == k,
    decreases k,
{
    if k > 0 {
        assert forall|i: int| 0 <= i < k - 1 implies #[trigger] s.drop_first()[i] != '\n' by {
            assert(s.drop_first()[i] == s[i + 1]);
        }
        if k < s.len() {
            assert(s.drop_first()[k - 1] == s[k]);
        }
        lemma_line_len_of_run(s.drop_first(), k - 1);
    }
}

/// The tokens of `s[lo..hi]`, as index ranges into `s`.
pub fn token_spans(s: &Vec<char>, lo: usize, hi: usize) -> (r: Vec<(usize, usize)>)
    requires
        lo <= hi <= s@.len(),
    ensures
        r@.len() == tokens(s@.subrange(lo as int, hi as int)).len(),
        forall|t: int| 0 <= t < r@.len() ==> {
            &&& lo <= (#[trigger] r@[t]).0 <= r@[t].1 <= hi
            &&& s@.subrange(r@[t].0 as int, r@[t].1 as int) == tokens(s@.subrange(lo as int, hi as int))[t]
        },
{
    let mut r: Vec<(usize, usize)> = Vec::new();
    let mut i: usize = lo;
    let ghost whole = s@.subrange(lo as int, hi as int);
    assert(s@.subrange(i as int, hi as int) =~= whole);
    while i < hi
        invariant
            lo <= i <= hi <= s@.len(),
            whole == s@.subrange(lo as int, hi as int),
            r@ .len() + tokens(s@.subrange(i as int, hi as int)).len() == tokens(whole).len(),
            forall|t: int| 0 <= t < r@.len() ==> {
                &&& lo <= (#[trigger] r@[t]).0 <= r@[t].1 <= i
                &&& s@.subrange(r@[t].0 as int, r@[t].1 as int) == tokens(whole)[t]
            },
            forall|t: int| 0 <= t < tokens(s@.subrange(i as int, hi as int)).len()
                ==> tokens(whole)[r@.len() + t] == #[trigger] tokens(s@.subrange(i as int, hi as int))[t],
        decreases hi - i,
    {
        let ghost rest = s@.subrange(i as int, hi as int);
        if white_space(s[i]) {
            assert(rest.drop_first() =~= s@.subrange(i + 1, hi as int));
            assert(rest[0] == s@[i as int]);
            i += 1;
        } else {
            let start = i;
            while i < hi && !white_space(s[i])
                invariant
                    start <= i <= hi <= s@.len(),
                    forall|k: int| start <= k < i ==> !is_white_space(#[trigger] s@[k]),
                decreases hi - i,
            {
                i += 1;
            }
            proof {
                assert forall|k: int| 0 <= k < i - start implies !is_white_space(#[trigger] rest[k]) by {
                    assert(rest[k] == s@[start + k]);
                }
                if i < hi {
                    assert(rest[i - start] == s@[i as int]);
                }
                lemma_word_len_of_run(rest, i - start);
                assert(rest[0] == s@[start as int]);
                assert(rest.take(i - start) =~= s@.subrange(start as int, i as int));
                assert(rest.skip(i - start) =~= s@.subrange(i as int, hi as int));
                assert(tokens(rest) == seq![rest.take(i - start)] + tokens(rest.skip(i - start)));
            }
            let ghost before = r@;
            proof {
                assert(tokens(rest)[0] == rest.take(i - start));
                assert(tokens(whole)[before.len() as int] == tokens(rest)[0]);
            }
            r.push((start, i));
            proof {
                assert forall|t: int| 0 <= t < tokens(s@.subrange(i as int, hi as int)).len()
                    implies tokens(whole)[r@.len() + t] == #[trigger] tokens(s@.subrange(i as int, hi as int))[t] by {
                    assert(tokens(rest)[t + 1] == tokens(s@.subrange(i as int, hi as int))[t]);
                    assert(tokens(whole)[before.len() + (t + 1)] == tokens(rest)[t + 1]);
                }
                assert forall|t: int| 0 <= t < r@.len() implies {
                    &&& lo <= (#[trigger] r@[t]).0 <= r@[t].1 <= i
                    &&& s@.subrange(r@[t].0 as int, r@[t].1 as int) == tokens(whole)[t]
                } by {
                    if t < before.len() {
                        assert(r@[t] == before[t]);
                    }
                }
            }
        }
    }
    r
}

/// The lines of `s`, as index ranges into `s`.
pub fn line_spans(s: &Vec<char>) -> (r: Vec<(usize, usize)>)
    ensures
        r@.len() == lines(s@).len(),
        forall|t: int| 0 <= t < r@.len() ==> {
            &&& (#[trigger] r@[t]).0 <= r@[t].1 <= s@.len()
            &&& s@.subrange(r@[t].0 as int, r@[t].1 as int) == lines(s@)[t]
        },
{
    let mut r: Vec<(usize, usize)> = Vec::new();
    let mut i: usize = 0;
    let n = s.len();
    assert(s@.subrange(0, n as int) =~= s@);
    loop
        invariant
            i <= n,
            n == s@.len(),
            r@.len() + lines(s@.subrange(i as int, n as int)).len() == lines(s@).len(),
            forall|t: int| 0 <= t < r@.len() ==> {
                &&& (#[trigger] r@[t]).0 <= r@[t].1 <= n
                &&& s@.subrange(r@[t].0 as int, r@[t].1 as int) == lines(s@)[t]
            },
            forall|t: int| 0 <= t < lines(s@.subrange(i as int, n as int)).len()
                ==> lines(s@)[r@.len() + t] == #[trigger] lines(s@.subrange(i as int, n as int))[t],
        decreases n - i,
    {
        let ghost rest = s@.subrange(i as int, n as int);
        let start = i;
        while i < n && s[i] != '\n'
            invariant
                start <= i <= n,
                n == s@.len(),
                forall|k: int| start <= k < i ==> #[trigger] s@[k] != '\n',
            decreases n - i,
        {
            i += 1;
        }
        proof {
            assert forall|k: int| 0 <= k < i - start implies #[trigger] rest[k] != '\n' by {
                assert(rest[k] == s@[start + k]);
            }
            if i < n {
                assert(rest[i - start] == s@[i as int]);
            }
            lemma_line_len_of_run(rest, i - start);
            assert(rest.take(i - start) =~= s@.subrange(start as int, i as int));
        }
        let ghost before = r@;
        proof {
            if i < n {
                assert(lines(rest) == seq![rest.take(i - start)] + lines(rest.skip(i - start + 1)));
                assert(lines(rest)[0] == rest.take(i - start));
            } else {
                assert(lines(rest) == seq![rest]);
                assert(rest =~= rest.take(i - start));
            }
            assert(lines(s@)[before.len() as int] == lines(rest)[0]);
        }
        r.push((start, i));
        proof {
            assert forall|t: int| 0 <= t < r@.len() implies {
                &&& (#[trigger] r@[t]).0 <= r@[t].1 <= n
                &&& s@.subrange(r@[t].0 as int, r@[t].1 as int) == lines(s@)[t]
            } by {
                if t < before.len() {
                    assert(r@[t] == before[t]);
                }
            }
        }
        if i == n {
            return r;
        }
        proof {
            assert(rest.skip(i - start + 1) =~= s@.subrange(i + 1, n as int));
            assert(lines(rest) == seq![rest.take(i - start)] + lines(rest.skip(i - start + 1)));
            assert forall|t: int| 0 <= t < lines(s@.subrange(i + 1, n as int)).len()
                implies lines(s@)[r@.len() + t] == #[trigger] lines(s@.subrange(i + 1, n as int))[t] by {
                assert(lines(rest)[t + 1] == lines(s@.subrange(i + 1, n as int))[t]);
                assert(lines(s@)[before.len() + (t + 1)] == lines(rest)[t + 1]);
            }
        }
        i += 1;
    }
}

/// The lines that reading `s` line by line gives (`BufRead::lines`, `str::lines` without
/// the removal of `'\r'`): the pieces between `'\n'` characters, without the empty piece
/// after a final `'\n'`; none for empty text.
pub open spec fn read_lines(s: Seq<char>) -> Seq<Seq<char>> {
    if s.len() == 0 {
        seq![]
    } else if s.last() == '\n' {
        lines(s.drop_last())
    } else {
        lines(s)
    }
}

pub proof fn lemma_lines_final_newline(s: Seq<char>)
    requires
        s.len() > 0,
        s.last() == '\n',
    ensures
        lines(s) == lines(s.drop_last()).push(seq![]),
    decreases s.len(),
{
    let k = line_len(s) as int;
    lemma_line_len_bound(s);
    lemma_line_len_bound(s.drop_last());
    if k == s.len() - 1 {
        assert forall|i: int| 0 <= i < k implies #[trigger] s.drop_last()[i] != '\n' by {
            assert(s.drop_last()[i] == s[i]);
        }
        lemma_line_len_of_run(s.drop_last(), k);
        assert(s.take(k) =~= s.drop_last());
        assert(s.skip(k + 1) =~= Seq::<char>::empty());
        assert(lines(Seq::<char>::empty()) == seq![Seq::<char>::empty()]);
        assert(lines(s) =~= lines(s.drop_last()).push(seq![]));
    } else {
        assert(k < s.len() - 1);
        assert forall|i: int| 0 <= i < k implies #[trigger] s.drop_last()[i] != '\n' by {
            assert(s.drop_last()[i] == s[i]);
        }
        assert(s.drop_last()[k] == s[k]);
        lemma_line_len_of_run(s.drop_last(), k);
        let rest = s.skip(k + 1);
        assert(rest.last() == '\n');
        lemma_lines_final_newline(rest);
        assert(rest.drop_last() =~= s.drop_last().skip(k + 1));
        assert(s.drop_last().take(k) =~= s.take(k));
        assert(lines(s) =~= lines(s.drop_last()).push(seq![]));
    }
}

/// The lines of `s` as `read_lines` gives them, as index ranges into `s`.
pub fn read_line_spans(s: &Vec<char>) -> (r: Vec<(usize, usize)>)
    ensures
        r@.len() == read_lines(s@).len(),
        forall|t: int| 0 <= t < r@.len() ==> {
            &&& (#[trigger] r@[t]).0 <= r@[t].1 <= s@.len()
            &&& s@.subrange(r@[t].0 as int, r@[t].1 as int) == read_lines(s@)[t]
        },
{
    let mut r = line_spans(s);
    let n = s.len();
    if n == 0 || s[n - 1] == '\n' {
        proof {
            if n > 0 {
                lemma_lines_final_newline(s@);
            } else {
                assert(lines(s@) == seq![s@]);
            }
        }
        r.pop();
    }
    r
}

/// Value of a non-empty string of decimal digits, or `None`.
pub open spec fn digits_value(d: Seq<char>) -> Option<nat>
    decreases d.len(),
{
    if d.len() == 0 {
        None
    } else {
        let c = d.last();
        if !(48 <= c as u32 <= 57) {
            None
        } else if d.len() == 1 {
            Some((c as u32 - 48) as nat)
        } else {
            match digits_value(d.drop_last()) {
                Some(v) => Some(v * 10 + (c as u32 - 48) as nat),
                None => None,
            }
        }
    }
}

/// The number an unsigned integer parse reads: an optional `'+'`, then decimal digits.
pub open spec fn unsigned_value(t: Seq<char>) -> Option<nat> {
    if t.len() > 0 && t[0] == '+' { digits_value(t.drop_first()) } else { digits_value(t) }
}

/// The number a signed integer parse reads: an optional `'+'` or `'-'`, then decimal digits.
pub open spec fn signed_value(t: Seq<char>) -> Option<int> {
    if t.len() > 0 && t[0] == '-' {
        match digits_value(t.drop_first()) {
            Some(v) => Some(-v),
            None => None,
        }
    } else {
        match unsigned_value(t) {
            Some(v) => Some(v as int),
            None => None,
        }
    }
}

/// Reads `s[lo..hi]` as decimal digits, with value at most `max`.
pub fn parse_digits(s: &Vec<char>, lo: usize, hi: usize, max: u64) -> (r: Option<u64>)
    requires
        lo <= hi <= s@.len(),
    ensures
        r == (match digits_value(s@.subrange(lo as int, hi as int)) {
            Some(v) => if v <= max { Some(v as u64) } else { None },
            None => None,
        }),
{
    let ghost d = s@.subrange(lo as int, hi as int);
    if lo == hi {
        return None;
    }
    let mut value: u64 = 0;
    let mut i = lo;
    while i < hi
        invariant
            lo < hi <= s@.len(),
            lo <= i <= hi,
            d == s@.subrange(lo as int, hi as int),
            i > lo ==> digits_value(s@.subrange(lo as int, i as int)) == Some(value as nat),
            i == lo ==> value == 0,
            value <= max,
        decreases hi - i,
    {
        let c = s[i];
        let u = c as u32;
        let ghost p = s@.subrange(lo as int, i + 1);
        proof {
            assert(p.drop_last() =~= s@.subrange(lo as int, i as int));
            assert(p.last() == c);
            assert(d[i - lo] == c);
        }
        if u < 48 || u > 57 {
            proof {
                lemma_digits_prefix_fails(d, i - lo);
            }
            return None;
        }
        let digit = (u - 48) as u64;
        let next = (value as u128) * 10 + digit as u128;
        proof {
            assert(digits_value(p) == Some(next as nat));
            assert(d.take(i - lo + 1) =~= p);
        }
        if next > max as u128 {
            proof {
                lemma_digits_prefix_exceeds(d, i - lo + 1, max as nat);
            }
            return None;
        }
        value = next as u64;
        i += 1;
    }
    proof {
        assert(s@.subrange(lo as int, hi as int) =~= d);
    }
    Some(value)
}

/// Reads `s[lo..hi]` as an unsigned integer no larger than `max`, like `str::parse` for
/// `u32`, `u64` or `usize` with that maximum.
pub fn parse_unsigned(s: &Vec<char>, lo: usize, hi: usize, max: u64) -> (r: Option<u64>)
    requires
        lo <= hi <= s@.len(),
    ensures
        r == (match unsigned_value(s@.subrange(lo as int, hi as int)) {
            Some(v) => if v <= max { Some(v as u64) } else { None },
            None => None,
        }),
{
    let ghost t = s@.subrange(lo as int, hi as int);
    if lo < hi && s[lo] == '+' {
        assert(t.drop_first() =~= s@.subrange(lo + 1, hi as int));
        parse_digits(s, lo + 1, hi, max)
    } else {
        parse_digits(s, lo, hi, max)
    }
}

/// `t` read as a `usize`.
pub open spec fn usize_value(t: Seq<char>) -> Option<nat> {
    match unsigned_value(t) {
        Some(v) => if v <= usize::MAX { Some(v) } else { None },
        None => None,
    }
}

/// `v[lo..hi]` read as a `usize`, like `str::parse::<usize>`.
pub fn read_usize(v: &Vec<char>, lo: usize, hi: usize) -> (r: Option<usize>)
    requires
        lo <= hi <= v@.len(),
    ensures
        match r {
            Some(x) => usize_value(v@.subrange(lo as int, hi as int)) == Some(x as nat),
            None => usize_value(v@.subrange(lo as int, hi as int)) is None,
        },
{
    match parse_unsigned(v, lo, hi, usize::MAX as u64) {
        Some(x) => Some(x as usize),
        None => None,
    }
}

/// `t` read as a `u32`.
pub open spec fn u32_value(t: Seq<char>) -> Option<nat> {
    match unsigned_value(t) {
        Some(v) => if v <= u32::MAX { Some(v) } else { None },
        None => None,
    }
}

/// `v[lo..hi]` read as a `u32`, like `str::parse::<u32>`.
pub fn read_u32(v: &Vec<char>, lo: usize, hi: usize) -> (r: Option<u32>)
    requires
        lo <= hi <= v@.len(),
    ensures
        match r {
            Some(x) => u32_value(v@.subrange(lo as int, hi as int)) == Some(x as nat),
            None => u32_value(v@.subrange(lo as int, hi as int)) is None,
        },
{
    match parse_unsigned(v, lo, hi, 0xffff_ffff) {
        Some(x) => Some(x as u32),
        None => None,
    }
}

/// Reads `s[lo..hi]` as an `i64`, like `str::parse::<i64>`.
pub fn parse_signed(s: &Vec<char>, lo: usize, hi: usize) -> (r: Option<i64>)
    requires
        lo <= hi <= s@.len(),
    ensures
        r == (match signed_value(s@.subrange(lo as int, hi as int)) {
            Some(v) => if i64::MIN <= v <= i64::MAX { Some(v as i64) } else { None },
            None => None,
        }),
{
    let ghost t = s@.subrange(lo as int, hi as int);
    if lo < hi && s[lo] == '-' {
        assert(t.drop_first() =~= s@.subrange(lo + 1, hi as int));
        match parse_digits(s, lo + 1, hi, 0x8000_0000_0000_0000) {
            Some(v) => {
                if v == 0x8000_0000_0000_0000 {
                    Some(i64::MIN)
                } else {
                    Some(-(v as i64))
                }
            },
            None => None,
        }
    } else {
        match parse_unsigned(s, lo, hi, 0x7fff_ffff_ffff_ffff) {
            Some(v) => Some(v as i64),
            None => None,
        }
    }
}

/// Reads `s[lo..hi]` as an `i32`, like `str::parse::<i32>`.
pub fn parse_i32(s: &Vec<char>, lo: usize, hi: usize) -> (r: Option<i32>)
    requires
        lo <= hi <= s@.len(),
    ensures
        r == (match signed_value(s@.subrange(lo as int, hi as int)) {
            Some(v) => if i32::MIN <= v <= i32::MAX { Some(v as i32) } else { None },
            None => None,
        }),
{
    match parse_signed(s, lo, hi) {
        Some(v) => {
            if -2147483648 <= v && v <= 2147483647 {
                Some(v as i32)
            } else {
                None
            }
        },
        None => None,
    }
}

pub proof fn lemma_digits_prefix_fails(d: Seq<char>, k: int)
    requires
        0 <= k < d.len(),
        !(48 <= d[k] as u32 <= 57),
    ensures
        digits_value(d) is None,
    decreases d.len(),
{
    if k < d.len() - 1 {
        lemma_digits_prefix_fails(d.drop_last(), k);
    }
}

pub proof fn lemma_digits_value_grows(d: Seq<char>, k: int)
    requires
        1 <= k <= d.len(),
        digits_value(d) is Some,
    ensures
        digits_value(d.take(k)) is Some,
        digits_value(d.take(k)).unwrap() <= digits_value(d).unwrap(),
    decreases d.len(),
{
    if k < d.len() {
        assert(d.drop_last().take(k) =~= d.take(k));
        lemma_digits_value_grows(d.drop_last(), k);
    } else {
        assert(d.take(k) =~= d);
    }
}

pub proof fn lemma_digits_prefix_exceeds(d: Seq<char>, k: int, max: nat)
    requires
        1 <= k <= d.len(),
        digits_value(d.take(k)) is Some,
        digits_value(d.take(k)).unwrap() > max,
    ensures
        digits_value(d) is None || digits_value(d).unwrap() > max,
{
    if digits_value(d) is Some {
        lemma_digits_value_grows(d, k);
    }
}


/// Lines written out one after another, each ended by a `'\n'`.
pub open spec fn joined(ls: Seq<Seq<char>>) -> Seq<char>
    decreases ls.len(),
{
    if ls.len() == 0 {
        seq![]
    } else {
        ls[0] + seq!['\n'] + joined(ls.drop_first())
    }
}

pub proof fn lemma_joined_push(ls: Seq<Seq<char>>, x: Seq<char>)
    ensures
        joined(ls.push(x)) == joined(ls) + x + seq!['\n'],
    decreases ls.len(),
{
    if ls.len() == 0 {
        assert(ls.push(x).drop_first() =~= Seq::<Seq<char>>::empty());
        assert(joined(ls.push(x).drop_first()) =~= Seq::<char>::empty());
        assert(ls.push(x)[0] == x);
        assert(joined(ls) =~= Seq::<char>::empty());
        assert(joined(ls.push(x)) =~= x + seq!['\n']);
    } else {
        assert(ls.push(x).drop_first() =~= ls.drop_first().push(x));
        lemma_joined_push(ls.drop_first(), x);
        assert(joined(ls.push(x)) =~= joined(ls) + x + seq!['\n']);
    }
}

pub proof fn lemma_lines_after_line(x: Seq<char>, y: Seq<char>)
    requires
        forall|i: int| 0 <= i < x.len() ==> #[trigger] x[i] != '\n',
    ensures
        lines(x + seq!['\n'] + y) == seq![x] + lines(y),
{
    let s = x + seq!['\n'] + y;
    assert forall|i: int| 0 <= i < x.len() implies #[trigger] s[i] != '\n' by {
        assert(s[i] == x[i]);
    }
    assert(s[x.len() as int] == '\n');
    lemma_line_len_of_run(s, x.len() as int);
    assert(s.take(x.len() as int) =~= x);
    assert(s.skip(x.len() as int + 1) =~= y);
}

/// Lines without `'\n'`, written out by `joined`, read back as themselves.
pub proof fn lemma_read_lines_joined(ls: Seq<Seq<char>>)
    requires
        forall|t: int, i: int| 0 <= t < ls.len() && 0 <= i < ls[t].len() ==> #[trigger] ls[t][i] != '\n',
    ensures
        read_lines(joined(ls)) == ls,
{
    lemma_lines_joined(ls);
    if ls.len() > 0 {
        let s = joined(ls);
        assert(s.len() > 0);
        lemma_joined_ends(ls);
        lemma_lines_final_newline(s);
        assert(lines(s.drop_last()) =~= lines(s).drop_last());
        assert(read_lines(s) =~= ls);
    }
}

proof fn lemma_joined_ends(ls: Seq<Seq<char>>)
    requires
        ls.len() > 0,
    ensures
        joined(ls).len() > 0,
        joined(ls).last() == '\n',
    decreases ls.len(),
{
    let j = joined(ls);
    if ls.len() > 1 {
        lemma_joined_ends(ls.drop_first());
        assert(j.last() == joined(ls.drop_first()).last());
    } else {
        assert(ls.drop_first() =~= Seq::<Seq<char>>::empty());
        assert(joined(ls.drop_first()) =~= Seq::<char>::empty());
        assert(j =~= ls[0] + seq!['\n']);
    }
}

proof fn lemma_lines_joined(ls: Seq<Seq<char>>)
    requires
        forall|t: int, i: int| 0 <= t < ls.len() && 0 <= i < ls[t].len() ==> #[trigger] ls[t][i] != '\n',
    ensures
        lines(joined(ls)) == ls.push(seq![]),
    decreases ls.len(),
{
    if ls.len() == 0 {
        assert(lines(Seq::<char>::empty()) == seq![Seq::<char>::empty()]);
        assert(ls.push(seq![]) =~= seq![Seq::<char>::empty()]);
    } else {
        let rest = ls.drop_first();
        assert forall|t: int, i: int| 0 <= t < rest.len() && 0 <= i < rest[t].len() implies #[trigger] rest[t][i] != '\n' by {
            assert(rest[t] == ls[t + 1]);
        }
        lemma_lines_joined(rest);
        assert forall|i: int| 0 <= i < ls[0].len() implies #[trigger] ls[0][i] != '\n' by {
            assert(ls[0][i] != '\n');
        }
        lemma_lines_after_line(ls[0], joined(rest));
        assert(ls.push(seq![]) =~= seq![ls[0]] + rest.push(seq![]));
    }
}

/// Splitting at white space splits a concatenation at its seam, when the first part
/// is empty or ends with white space.
pub proof fn lemma_tokens_concat(x: Seq<char>, y: Seq<char>)
    requires
        x.len() == 0 || is_white_space(x.last()),
    ensures
        tokens(x + y) == tokens(x) + tokens(y),
    decreases x.len(),
{
    if x.len() == 0 {
        assert(x + y =~= y);
        assert(tokens(x) =~= Seq::<Seq<char>>::empty());
        assert(tokens(x) + tokens(y) =~= tokens(y));
    } else if is_white_space(x[0]) {
        assert((x + y).drop_first() =~= x.drop_first() + y);
        lemma_tokens_concat(x.drop_first(), y);
    } else {
        let k = word_len(x);
        lemma_word_len_bound(x);
        assert(k < x.len()) by {
            if k >= x.len() {
                assert(!is_white_space(x[x.len() - 1]));
            }
        }
        let s = x + y;
        assert forall|i: int| 0 <= i < k implies !is_white_space(#[trigger] s[i]) by {
            assert(s[i] == x[i]);
        }
        assert(s[k as int] == x[k as int]);
        lemma_word_len_of_run(s, k as int);
        assert(k > 0);
        assert(s.take(k as int) =~= x.take(k as int));
        assert(s.skip(k as int) =~= x.skip(k as int) + y);
        assert(x.skip(k as int).last() == x.last());
        lemma_tokens_concat(x.skip(k as int), y);
        assert(tokens(x + y) =~= tokens(x) + tokens(y));
    }
}

/// The tokens of a run of non-white-space characters: the run itself.
pub proof fn lemma_tokens_word(x: Seq<char>)
    requires
        x.len() > 0,
        forall|i: int| 0 <= i < x.len() ==> !is_white_space(#[trigger] x[i]),
    ensures
        tokens(x) == seq![x],
{
    lemma_word_len_of_run(x, x.len() as int);
    assert(x.take(x.len() as int) =~= x);
    assert(x.skip(x.len() as int) =~= Seq::<char>::empty());
    assert(tokens(Seq::<char>::empty()) =~= Seq::<Seq<char>>::empty());
    assert(tokens(x) =~= seq![x]);
}

pub proof fn lemma_digit_char(d: nat)
    requires
        d < 10,
    ensures
        digit_char(d) as u32 == 48 + d,
        !is_white_space(digit_char(d)),
        digit_char(d) != '\n',
        digit_char(d) != '#',
        digit_char(d) != '+',
{
}

/// Every character of `decimal(n)` is a digit.
pub proof fn lemma_decimal_digits(n: nat)
    ensures
        decimal(n).len() > 0,
        forall|i: int| 0 <= i < decimal(n).len() ==> {
            &&& 48 <= #[trigger] decimal(n)[i] as u32 <= 57
            &&& !is_white_space(decimal(n)[i])
            &&& decimal(n)[i] != '\n'
        },
    decreases n,
{
    if n < 10 {
        lemma_digit_char(n);
    } else {
        lemma_decimal_digits(n / 10);
        lemma_digit_char(n % 10);
        let d = decimal(n);
        assert forall|i: int| 0 <= i < d.len() implies {
            &&& 48 <= #[trigger] d[i] as u32 <= 57
            &&& !is_white_space(d[i])
            &&& d[i] != '\n'
        } by {
            if i < d.len() - 1 {
                assert(d[i] == decimal(n / 10)[i]);
            }
        }
    }
}

/// The decimal representation of `n` reads back as `n`.
pub proof fn lemma_decimal_value(n: nat)
    ensures
        digits_value(decimal(n)) == Some(n),
    decreases n,
{
    lemma_digit_char(n % 10);
    if n >= 10 {
        lemma_decimal_value(n / 10);
        lemma_decimal_digits(n / 10);
        assert(decimal(n).drop_last() =~= decimal(n / 10));
        assert(n == (n / 10) * 10 + n % 10);
    }
}

} // verus!
