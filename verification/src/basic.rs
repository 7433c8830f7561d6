//! Control flow and statement parsing of a small line-numbered BASIC interpreter.
//!
//! Variables hold floating-point values, so evaluating arithmetic is left to the caller:
//! executing a line updates the control state (current line, `GOSUB` return stack, running
//! flag) and hands back an [`Action`] that says which arithmetic or I/O the statement asks for.

use std::collections::HashMap;
use vstd::prelude::*;
use crate::text::{is_white_space, white_space, trimmed, trimmed_start, trim_bounds, trim_start_from, chars_of, string_of};
use crate::text::trim_range;
use crate::tokens::{signed_value, parse_i32, lines, line_spans, tokens, token_spans, word_len, lemma_word_len_of_run};

verus! {

broadcast use vstd::std_specs::hash::group_hash_axioms;

/// Index of the first occurrence of `x` in `s`.
pub open spec fn first_index(s: Seq<i32>, x: i32) -> Option<int>
    decreases s.len(),
{
    if s.len() == 0 {
        None
    } else if s[0] == x {
        Some(0)
    } else {
        match first_index(s.drop_first(), x) {
            Some(i) => Some(i + 1),
            None => None,
        }
    }
}

/// The line executed after `cur` in program order, if there is one: the entry after the
/// first occurrence of `cur` in the sorted line numbers.
pub open spec fn line_after(nums: Seq<i32>, cur: i32) -> Option<i32> {
    match first_index(nums, cur) {
        Some(i) => if i + 1 < nums.len() { Some(nums[i + 1]) } else { None },
        None => None,
    }
}

/// What `GOSUB` pushes on the return stack when executed at line `cur`: the following line,
/// or `0` at the last line; nothing when `cur` is not a line of the program.
pub open spec fn return_address(nums: Seq<i32>, cur: i32) -> Option<i32> {
    match first_index(nums, cur) {
        Some(i) => Some(if i + 1 < nums.len() { nums[i + 1] } else { 0 }),
        None => None,
    }
}

pub proof fn lemma_first_index(s: Seq<i32>, x: i32)
    ensures
        match first_index(s, x) {
            Some(i) => 0 <= i < s.len() && s[i] == x && forall|j: int| 0 <= j < i ==> s[j] != x,
            None => forall|j: int| 0 <= j < s.len() ==> s[j] != x,
        },
    decreases s.len(),
{
    if s.len() > 0 && s[0] != x {
        lemma_first_index(s.drop_first(), x);
        match first_index(s.drop_first(), x) {
            Some(i) => {
                assert forall|j: int| 0 <= j < i + 1 implies s[j] != x by {
                    if j > 0 {
                        assert(s[j] == s.drop_first()[j - 1]);
                    }
                }
            },
            None => {
                assert forall|j: int| 0 <= j < s.len() implies s[j] != x by {
                    if j > 0 {
                        assert(s[j] == s.drop_first()[j - 1]);
                    }
                }
            },
        }
    }
}

/// Position of the first occurrence of `x` in `v`.
fn position(v: &Vec<i32>, x: i32) -> (r: Option<usize>)
    ensures
        match r {
            Some(i) => first_index(v@, x) == Some(i as int),
            None => first_index(v@, x) is None,
        },
{
    let mut i: usize = 0;
    while i < v.len()
        invariant
            i <= v@.len(),
            forall|j: int| 0 <= j < i ==> v@[j] != x,
        decreases v@.len() - i,
    {
        if v[i] == x {
            proof {
                lemma_first_index(v@, x);
                match first_index(v@, x) {
                    Some(k) => {
                        if k < i {
                        } else if k > i {
                            assert(v@[i as int] != x);
                        }
                    },
                    None => {
                        assert(v@[i as int] != x);
                    },
                }
            }
            return Some(i);
        }
        i += 1;
    }
    proof {
        lemma_first_index(v@, x);
        match first_index(v@, x) {
            Some(k) => {
                assert(v@[k] != x);
            },
            None => {},
        }
    }
    None
}

/// Index of the first occurrence of `c` in `s`.
pub open spec fn char_index(s: Seq<char>, c: char) -> Option<int>
    decreases s.len(),
{
    if s.len() == 0 {
        None
    } else if s[0] == c {
        Some(0)
    } else {
        match char_index(s.drop_first(), c) {
            Some(i) => Some(i + 1),
            None => None,
        }
    }
}

pub proof fn lemma_char_index(s: Seq<char>, c: char)
    ensures
        match char_index(s, c) {
            Some(i) => 0 <= i < s.len() && s[i] == c && forall|j: int| 0 <= j < i ==> s[j] != c,
            None => forall|j: int| 0 <= j < s.len() ==> s[j] != c,
        },
    decreases s.len(),
{
    if s.len() > 0 && s[0] != c {
        lemma_char_index(s.drop_first(), c);
        match char_index(s.drop_first(), c) {
            Some(i) => {
                assert forall|j: int| 0 <= j < i + 1 implies s[j] != c by {
                    if j > 0 {
                        assert(s[j] == s.drop_first()[j - 1]);
                    }
                }
            },
            None => {
                assert forall|j: int| 0 <= j < s.len() implies s[j] != c by {
                    if j > 0 {
                        assert(s[j] == s.drop_first()[j - 1]);
                    }
                }
            },
        }
    }
}

/// `char_index` is determined by the first occurrence.
pub proof fn lemma_char_index_at(s: Seq<char>, c: char, k: int)
    requires
        0 <= k <= s.len(),
        forall|j: int| 0 <= j < k ==> s[j] != c,
        k == s.len() || s[k] == c,
    ensures
        char_index(s, c) == (if k < s.len() { Some(k) } else { None::<int> }),
{
    lemma_char_index(s, c);
    match char_index(s, c) {
        Some(i) => {
            if i < k {
            } else if i > k {
                assert(s[k] == c);
            }
        },
        None => {
            if k < s.len() {
                assert(s[k] == c);
            }
        },
    }
}

/// Position of the first `c` in `v[lo..hi]`, or `hi`.
fn find_char(v: &Vec<char>, lo: usize, hi: usize, c: char) -> (r: usize)
    requires
        lo <= hi <= v@.len(),
    ensures
        lo <= r <= hi,
        char_index(v@.subrange(lo as int, hi as int), c) == (if r < hi { Some(r - lo) } else { None::<int> }),
{
    let mut i = lo;
    while i < hi && v[i] != c
        invariant
            lo <= i <= hi <= v@.len(),
            forall|j: int| lo <= j < i ==> v@[j] != c,
        decreases hi - i,
    {
        i += 1;
    }
    proof {
        let t = v@.subrange(lo as int, hi as int);
        assert forall|j: int| 0 <= j < i - lo implies t[j] != c by {
            assert(t[j] == v@[lo + j]);
        }
        if i < hi {
            assert(t[i - lo] == c);
        }
        lemma_char_index_at(t, c, i - lo);
    }
    i
}

/// The line number and code of a trimmed program line: the text before its first space
/// must read as an `i32`; the code is everything after that space.
pub open spec fn numbered(t: Seq<char>) -> Option<(i32, Seq<char>)> {
    match char_index(t, ' ') {
        Some(p) => match signed_value(t.take(p)) {
            Some(v) => if i32::MIN <= v <= i32::MAX {
                Some((v as i32, t.skip(p + 1)))
            } else {
                None
            },
            None => None,
        },
        None => None,
    }
}

/// The numbered lines of a program text, in the order they appear.
pub open spec fn program_entries(ls: Seq<Seq<char>>) -> Seq<(i32, Seq<char>)>
    decreases ls.len(),
{
    if ls.len() == 0 {
        seq![]
    } else {
        let rest = program_entries(ls.drop_last());
        match numbered(trimmed(ls.last())) {
            Some(e) => rest.push(e),
            None => rest,
        }
    }
}

/// The code stored under each line number: a later line with the same number replaces an
/// earlier one.
pub open spec fn entry_map(es: Seq<(i32, Seq<char>)>) -> Map<i32, Seq<char>>
    decreases es.len(),
{
    if es.len() == 0 {
        Map::empty()
    } else {
        entry_map(es.drop_last()).insert(es.last().0, es.last().1)
    }
}

/// The line numbers of the entries, duplicates included.
pub open spec fn entry_numbers(es: Seq<(i32, Seq<char>)>) -> Seq<i32> {
    es.map_values(|e: (i32, Seq<char>)| e.0)
}

/// `s` is in non-decreasing order.
pub open spec fn sorted(s: Seq<i32>) -> bool {
    forall|i: int, j: int| 0 <= i < j < s.len() ==> s[i] <= s[j]
}

/// Inserts `x` into the sorted `v`, after the entries not greater than it.
fn insert_sorted(v: &mut Vec<i32>, x: i32)
    requires
        sorted(old(v)@),
    ensures
        sorted(final(v)@),
        final(v)@.to_multiset() == old(v)@.to_multiset().insert(x),
{
    let mut i: usize = 0;
    while i < v.len() && v[i] <= x
        invariant
            i <= v@.len(),
            forall|j: int| 0 <= j < i ==> v@[j] <= x,
        decreases v@.len() - i,
    {
        i += 1;
    }
    let ghost before = v@;
    v.insert(i, x);
    proof {
        vstd::seq_lib::to_multiset_insert(before, i as int, x);
        assert forall|a: int, b: int| 0 <= a < b < v@.len() implies v@[a] <= v@[b] by {
            if b < i {
            } else if b == i {
            } else if a < i {
                assert(v@[b] == before[b - 1]);
                assert(before[a] <= x);
                assert(before[i as int] > x);
                if b - 1 > i {
                    assert(before[i as int] <= before[b - 1]);
                }
            } else if a == i {
                assert(before[i as int] > x);
                if b - 1 > i {
                    assert(before[i as int] <= before[b - 1]);
                }
            } else {
                assert(v@[a] == before[a - 1]);
                assert(v@[b] == before[b - 1]);
            }
        }
    }
}

/// First index at which `pat` occurs in `s`.
pub open spec fn sub_index(s: Seq<char>, pat: Seq<char>) -> Option<int>
    decreases s.len(),
{
    if s.len() < pat.len() {
        None
    } else if s.take(pat.len() as int) == pat {
        Some(0)
    } else if s.len() == 0 {
        None
    } else {
        match sub_index(s.drop_first(), pat) {
            Some(i) => Some(i + 1),
            None => None,
        }
    }
}

/// `pat` occurs in `s` at index `i`.
pub open spec fn occurs_at(s: Seq<char>, pat: Seq<char>, i: int) -> bool {
    0 <= i && i + pat.len() <= s.len() && s.subrange(i, i + pat.len()) == pat
}

pub proof fn lemma_sub_index(s: Seq<char>, pat: Seq<char>)
    ensures
        match sub_index(s, pat) {
            Some(i) => occurs_at(s, pat, i) && forall|j: int| 0 <= j < i ==> !occurs_at(s, pat, j),
            None => forall|j: int| !occurs_at(s, pat, j),
        },
    decreases s.len(),
{
    if s.len() < pat.len() {
    } else if s.take(pat.len() as int) == pat {
        assert(s.subrange(0, pat.len() as int) =~= s.take(pat.len() as int));
    } else if s.len() == 0 {
        assert(pat.len() == 0);
        assert(s.take(0) =~= pat);
    } else {
        let t = s.drop_first();
        lemma_sub_index(t, pat);
        assert(!occurs_at(s, pat, 0)) by {
            assert(s.subrange(0, pat.len() as int) =~= s.take(pat.len() as int));
        }
        assert forall|j: int| 1 <= j implies occurs_at(s, pat, j) == occurs_at(t, pat, j - 1) by {
            if j + pat.len() <= s.len() {
                assert(s.subrange(j, j + pat.len()) =~= t.subrange(j - 1, j - 1 + pat.len()));
            }
        }
    }
}

/// Position of the first occurrence of `pat` in `v[lo..hi]`, or `hi`.
fn find_sub(v: &Vec<char>, lo: usize, hi: usize, pat: &Vec<char>) -> (r: usize)
    requires
        lo <= hi <= v@.len(),
        pat@.len() > 0,
    ensures
        lo <= r <= hi,
        sub_index(v@.subrange(lo as int, hi as int), pat@) == (if r < hi {
            Some(r - lo)
        } else {
            None::<int>
        }),
{
    let ghost t = v@.subrange(lo as int, hi as int);
    let m = pat.len();
    let mut i = lo;
    while i < hi
        invariant
            lo <= i <= hi <= v@.len(),
            m == pat@.len(),
            m > 0,
            t == v@.subrange(lo as int, hi as int),
            forall|j: int| 0 <= j < i - lo ==> !occurs_at(t, pat@, j),
        decreases hi - i,
    {
        if hi - i < m {
            proof {
                assert forall|j: int| i - lo <= j implies !occurs_at(t, pat@, j) by {}
                lemma_sub_index(t, pat@);
                match sub_index(t, pat@) {
                    Some(x) => {
                        assert(occurs_at(t, pat@, x));
                    },
                    None => {},
                }
            }
            return hi;
        }
        let mut k: usize = 0;
        while k < m && v[i + k] == pat[k]
            invariant
                lo <= i < hi <= v@.len(),
                m == pat@.len(),
                i + m <= hi,
                k <= m,
                forall|j: int| 0 <= j < k ==> v@[i + j] == pat@[j],
            decreases m - k,
        {
            k += 1;
        }
        if k == m {
            proof {
                assert(t.subrange(i - lo, i - lo + m) =~= pat@);
                assert(occurs_at(t, pat@, i - lo));
                lemma_sub_index(t, pat@);
                match sub_index(t, pat@) {
                    Some(x) => {
                        if x < i - lo {
                        } else if x > i - lo {
                        }
                    },
                    None => {},
                }
            }
            return i;
        }
        proof {
            assert(!occurs_at(t, pat@, i - lo)) by {
                if occurs_at(t, pat@, i - lo) {
                    assert(t.subrange(i - lo, i - lo + m)[k as int] == pat@[k as int]);
                }
            }
        }
        i += 1;
    }
    proof {
        lemma_sub_index(t, pat@);
        match sub_index(t, pat@) {
            Some(x) => {
                assert(occurs_at(t, pat@, x));
            },
            None => {},
        }
    }
    hi
}

/// `s` with every `' '` removed, as `str::replace(' ', "")` returns it.
pub open spec fn without_spaces(s: Seq<char>) -> Seq<char>
    decreases s.len(),
{
    if s.len() == 0 {
        seq![]
    } else if s.last() == ' ' {
        without_spaces(s.drop_last())
    } else {
        without_spaces(s.drop_last()).push(s.last())
    }
}

/// The number of bytes `c` takes in UTF-8.
pub open spec fn utf8_width(c: char) -> nat {
    let u = c as u32;
    if u < 0x80 {
        1
    } else if u < 0x800 {
        2
    } else if u < 0x10000 {
        3
    } else {
        4
    }
}

/// The byte offset in UTF-8 of the character at index `k` of `s`.
pub open spec fn byte_offset(s: Seq<char>, k: int) -> nat
    decreases k,
{
    if k <= 0 {
        0
    } else {
        byte_offset(s, k - 1) + utf8_width(s[k - 1])
    }
}

pub proof fn lemma_byte_offset_grows(s: Seq<char>, j: int, k: int)
    requires
        0 <= j <= k,
    ensures
        byte_offset(s, j) + (k - j) <= byte_offset(s, k),
    decreases k - j,
{
    if j < k {
        lemma_byte_offset_grows(s, j, k - 1);
    }
}

/// The comparison operators of an `IF` condition.
#[derive(PartialEq, Eq, Structural, Clone, Copy, Debug)]
pub enum Relation {
    /// `<>`
    Ne,
    /// `<=`
    Le,
    /// `<`
    Lt,
    /// `>=`
    Ge,
    /// `>`
    Gt,
    /// `=`
    Eq,
}

/// A comparison of two arithmetic expressions.
#[derive(Debug)]
pub struct Comparison {
    pub op: Relation,
    pub left: String,
    pub right: String,
}

/// The character just before the one at index `p`, looked up the way the interpreter
/// does it: the UTF-8 byte offset of index `p`, minus one, taken as a character index.
/// For text of ASCII characters this is `s[p - 1]`.
pub open spec fn char_before(s: Seq<char>, p: int) -> Option<char> {
    let n = byte_offset(s, p) - 1;
    if 0 <= n < s.len() {
        Some(s[n])
    } else {
        None
    }
}

/// The first `'<'` of `c` marks a `<` comparison.
pub open spec fn lt_at(c: Seq<char>) -> Option<int> {
    match char_index(c, '<') {
        Some(p) => if p == 0 || char_before(c, p) != Some('=') { Some(p) } else { None },
        None => None,
    }
}

/// The first `'>'` of `c` marks a `>` comparison.
pub open spec fn gt_at(c: Seq<char>) -> Option<int> {
    match char_index(c, '>') {
        Some(p) => if p == 0 || char_before(c, p) != Some('=') { Some(p) } else { None },
        None => None,
    }
}

/// The first `'='` of `c` marks an `=` comparison.
pub open spec fn eq_at(c: Seq<char>) -> Option<int> {
    match char_index(c, '=') {
        Some(p) => if p > 0 && char_before(c, p) != Some('<') && char_before(c, p) != Some('>') {
            Some(p)
        } else {
            None
        },
        None => None,
    }
}

/// How an `IF` condition with its spaces removed splits into an operator and two sides.
/// The operators are tried in the order `<>`, `<=`, `<`, `>=`, `>`, `=`; with none of
/// them the condition is false.
pub open spec fn comparison(c: Seq<char>) -> Option<(Relation, Seq<char>, Seq<char>)> {
    if let Some(p) = sub_index(c, seq!['<', '>']) {
        Some((Relation::Ne, c.take(p), c.skip(p + 2)))
    } else if let Some(p) = sub_index(c, seq!['<', '=']) {
        Some((Relation::Le, c.take(p), c.skip(p + 2)))
    } else if let Some(p) = lt_at(c) {
        Some((Relation::Lt, c.take(p), c.skip(p + 1)))
    } else if let Some(p) = sub_index(c, seq!['>', '=']) {
        Some((Relation::Ge, c.take(p), c.skip(p + 2)))
    } else if let Some(p) = gt_at(c) {
        Some((Relation::Gt, c.take(p), c.skip(p + 1)))
    } else if let Some(p) = eq_at(c) {
        Some((Relation::Eq, c.take(p), c.skip(p + 1)))
    } else {
        None
    }
}

/// The characters of `v[lo..hi]` other than `' '`.
fn remove_spaces(v: &Vec<char>, lo: usize, hi: usize) -> (r: Vec<char>)
    requires
        lo <= hi <= v@.len(),
    ensures
        r@ == without_spaces(v@.subrange(lo as int, hi as int)),
{
    let mut r: Vec<char> = Vec::new();
    let mut i = lo;
    while i < hi
        invariant
            lo <= i <= hi <= v@.len(),
            r@ == without_spaces(v@.subrange(lo as int, i as int)),
        decreases hi - i,
    {
        proof {
            assert(v@.subrange(lo as int, i + 1).drop_last() =~= v@.subrange(lo as int, i as int));
            assert(v@.subrange(lo as int, i + 1).last() == v@[i as int]);
        }
        if v[i] != ' ' {
            r.push(v[i]);
        }
        i += 1;
    }
    r
}

/// The UTF-8 width of `c`.
fn width_of(c: char) -> (w: usize)
    ensures
        w == utf8_width(c),
{
    let u = c as u32;
    if u < 0x80 {
        1
    } else if u < 0x800 {
        2
    } else if u < 0x10000 {
        3
    } else {
        4
    }
}

/// `char_before(c, p)`, computed.
fn lookup_before(c: &Vec<char>, p: usize) -> (r: Option<char>)
    requires
        0 < p <= c@.len(),
    ensures
        r == char_before(c@, p as int),
{
    let n = c.len();
    let mut b: usize = 0;
    let mut i: usize = 0;
    while i < p
        invariant
            i <= p <= n,
            n == c@.len(),
            b == byte_offset(c@, i as int),
            b <= n,
        decreases p - i,
    {
        let w = width_of(c[i]);
        if w > n - b {
            proof {
                lemma_byte_offset_grows(c@, i + 1, p as int);
            }
            return None;
        }
        b += w;
        i += 1;
    }
    proof {
        lemma_byte_offset_grows(c@, 0, p as int);
    }
    if b - 1 < n {
        Some(c[b - 1])
    } else {
        None
    }
}

/// Splits an `IF` condition, `v[lo..hi]`, into a comparison; `None` when it has no operator
/// (the condition is then false).
pub fn split_condition(v: &Vec<char>, lo: usize, hi: usize) -> (r: Option<Comparison>)
    requires
        lo <= hi <= v@.len(),
    ensures
        match r {
            Some(found) => comparison(without_spaces(v@.subrange(lo as int, hi as int))) == Some(
                (found.op, found.left@, found.right@),
            ),
            None => comparison(without_spaces(v@.subrange(lo as int, hi as int))) is None,
        },
{
    let c = remove_spaces(v, lo, hi);
    let n = c.len();
    proof {
        assert(c@.subrange(0, n as int) =~= c@);
    }
    let ne = vec!['<', '>'];
    let le = vec!['<', '='];
    let ge = vec!['>', '='];
    proof {
        assert(ne@ =~= seq!['<', '>']);
        assert(le@ =~= seq!['<', '=']);
        assert(ge@ =~= seq!['>', '=']);
    }
    let p = find_sub(&c, 0, n, &ne);
    proof {
        lemma_sub_index(c@, ne@);
    }
    if p < n {
        return Some(Comparison { op: Relation::Ne, left: string_of(&c, 0, p), right: string_of(&c, p + 2, n) });
    }
    let p = find_sub(&c, 0, n, &le);
    proof {
        lemma_sub_index(c@, le@);
    }
    if p < n {
        return Some(Comparison { op: Relation::Le, left: string_of(&c, 0, p), right: string_of(&c, p + 2, n) });
    }
    let p = find_char(&c, 0, n, '<');
    if p < n && (p == 0 || lookup_before(&c, p) != Some('=')) {
        return Some(Comparison { op: Relation::Lt, left: string_of(&c, 0, p), right: string_of(&c, p + 1, n) });
    }
    let p = find_sub(&c, 0, n, &ge);
    proof {
        lemma_sub_index(c@, ge@);
    }
    if p < n {
        return Some(Comparison { op: Relation::Ge, left: string_of(&c, 0, p), right: string_of(&c, p + 2, n) });
    }
    let p = find_char(&c, 0, n, '>');
    if p < n && (p == 0 || lookup_before(&c, p) != Some('=')) {
        return Some(Comparison { op: Relation::Gt, left: string_of(&c, 0, p), right: string_of(&c, p + 1, n) });
    }
    let p = find_char(&c, 0, n, '=');
    if p < n && p > 0 {
        let before = lookup_before(&c, p);
        if before != Some('<') && before != Some('>') {
            return Some(Comparison { op: Relation::Eq, left: string_of(&c, 0, p), right: string_of(&c, p + 1, n) });
        }
    }
    None
}

/// A piece of `PRINT` output: literal text, or a name that prints as the variable's value
/// when there is such a variable and as itself otherwise.
#[derive(Debug)]
pub enum PrintPart {
    Text(String),
    Name(String),
}

/// A part as a flag (`true` for a name) and its characters.
pub open spec fn part_view(p: PrintPart) -> (bool, Seq<char>) {
    match p {
        PrintPart::Text(t) => (false, t@),
        PrintPart::Name(n) => (true, n@),
    }
}

pub open spec fn parts_view(ps: Seq<PrintPart>) -> Seq<(bool, Seq<char>)> {
    ps.map_values(|p: PrintPart| part_view(p))
}

/// Length of the initial run of `s` without `';'` or `'"'`.
pub open spec fn item_len(s: Seq<char>) -> nat
    decreases s.len(),
{
    if s.len() == 0 || s[0] == ';' || s[0] == '"' {
        0
    } else {
        1 + item_len(s.drop_first())
    }
}

pub proof fn lemma_item_len_bound(s: Seq<char>)
    ensures
        item_len(s) <= s.len(),
    decreases s.len(),
{
    if s.len() > 0 && s[0] != ';' && s[0] != '"' {
        lemma_item_len_bound(s.drop_first());
    }
}

pub proof fn lemma_item_len_of_run(s: Seq<char>, k: int)
    requires
        0 <= k <= s.len(),
        forall|i: int| 0 <= i < k ==> #[trigger] s[i] != ';' && s[i] != '"',
        k == s.len() || s[k] == ';' || s[k] == '"',
    ensures
        item_len(s) == k,
    decreases k,
{
    if k > 0 {
        assert forall|i: int| 0 <= i < k - 1 implies #[trigger] s.drop_first()[i] != ';'
            && s.drop_first()[i] != '"' by {
            assert(s.drop_first()[i] == s[i + 1]);
        }
        if k < s.len() {
            assert(s.drop_first()[k - 1] == s[k]);
        }
        lemma_item_len_of_run(s.drop_first(), k - 1);
    }
}

/// The parts of the text after `PRINT`: quoted text is printed as it stands (an
/// unterminated quote runs to the end), `';'` separates, and every other run up to a `';'`
/// or `'"'` is trimmed and, when not empty, names a variable.
pub open spec fn print_parts(s: Seq<char>) -> Seq<(bool, Seq<char>)>
    decreases s.len(),
{
    if s.len() == 0 {
        seq![]
    } else if s[0] == '"' {
        let body = s.drop_first();
        match char_index(body, '"') {
            Some(k) => {
                proof {
                    lemma_char_index(body, '"');
                }
                seq![(false, body.take(k))] + print_parts(body.skip(k + 1))
            },
            None => seq![(false, body)],
        }
    } else if s[0] == ';' {
        print_parts(s.drop_first())
    } else {
        let k = item_len(s);
        let name = trimmed(s.take(k as int));
        proof {
            lemma_item_len_bound(s);
            assert(item_len(s) == 1 + item_len(s.drop_first()));
        }
        (if name.len() > 0 {
            seq![(true, name)]
        } else {
            seq![]
        }) + print_parts(s.skip(k as int))
    }
}

/// The parts of `PRINT` output `v[lo..hi]`.
fn print_parts_of(v: &Vec<char>, lo: usize, hi: usize) -> (r: Vec<PrintPart>)
    requires
        lo <= hi <= v@.len(),
    ensures
        parts_view(r@) == print_parts(v@.subrange(lo as int, hi as int)),
{
    let mut r: Vec<PrintPart> = Vec::new();
    let mut i = lo;
    proof {
        assert(parts_view(r@) + print_parts(v@.subrange(lo as int, hi as int)) =~= print_parts(
            v@.subrange(lo as int, hi as int),
        ));
    }
    while i < hi
        invariant
            lo <= i <= hi <= v@.len(),
            parts_view(r@) + print_parts(v@.subrange(i as int, hi as int)) == print_parts(
                v@.subrange(lo as int, hi as int),
            ),
        decreases hi - i,
    {
        let ghost s = v@.subrange(i as int, hi as int);
        let ghost before = r@;
        if v[i] == '"' {
            let e = find_char(v, i + 1, hi, '"');
            let text = string_of(v, i + 1, e);
            r.push(PrintPart::Text(text));
            proof {
                assert(s.drop_first() =~= v@.subrange(i + 1, hi as int));
                assert(parts_view(r@) =~= parts_view(before).push((false, text@)));
                if e < hi {
                    assert(s.drop_first().take(e - i - 1) =~= text@);
                    assert(s.drop_first().skip(e - i) =~= v@.subrange(e + 1, hi as int));
                    assert(parts_view(r@) + print_parts(v@.subrange(e + 1, hi as int)) =~= parts_view(
                        before,
                    ) + print_parts(s));
                } else {
                    assert(print_parts(s) == seq![(false, text@)]);
                    assert(v@.subrange(hi as int, hi as int) =~= Seq::<char>::empty());
                    assert(parts_view(r@) + print_parts(v@.subrange(hi as int, hi as int)) =~= parts_view(
                        before,
                    ) + print_parts(s));
                }
            }
            i = if e < hi { e + 1 } else { hi };
        } else if v[i] == ';' {
            proof {
                assert(s.drop_first() =~= v@.subrange(i + 1, hi as int));
            }
            i += 1;
        } else {
            let mut e = i;
            while e < hi && v[e] != ';' && v[e] != '"'
                invariant
                    i <= e <= hi <= v@.len(),
                    forall|j: int| i <= j < e ==> v@[j] != ';' && v@[j] != '"',
                decreases hi - e,
            {
                e += 1;
            }
            proof {
                assert forall|j: int| 0 <= j < e - i implies #[trigger] s[j] != ';' && s[j] != '"' by {
                    assert(s[j] == v@[i + j]);
                }
                if e < hi {
                    assert(s[e - i] == v@[e as int]);
                }
                lemma_item_len_of_run(s, e - i);
                assert(s.take(e - i) =~= v@.subrange(i as int, e as int));
                assert(s.skip(e - i) =~= v@.subrange(e as int, hi as int));
            }
            let (a, b) = trim_range(v, i, e);
            if a < b {
                let name = string_of(v, a, b);
                r.push(PrintPart::Name(name));
                proof {
                    assert(parts_view(r@) =~= parts_view(before) + seq![(true, name@)]);
                    assert(parts_view(r@) + print_parts(v@.subrange(e as int, hi as int)) =~= parts_view(
                        before,
                    ) + print_parts(s));
                }
            } else {
                proof {
                    assert(parts_view(r@) + print_parts(v@.subrange(e as int, hi as int)) =~= parts_view(
                        before,
                    ) + print_parts(s));
                }
            }
            i = e;
        }
    }
    proof {
        assert(print_parts(v@.subrange(hi as int, hi as int)) =~= Seq::<(bool, Seq<char>)>::empty());
        assert(parts_view(r@) + Seq::<(bool, Seq<char>)>::empty() =~= parts_view(r@));
    }
    r
}

/// What follows `INPUT`, trimmed: an optional quoted prompt, then the variable's name. After
/// a prompt, leading white space and one `';'` are dropped from the name; an unterminated
/// quote makes the whole text the name.
pub open spec fn input_target(t: Seq<char>) -> (Option<Seq<char>>, Seq<char>) {
    if t.len() > 0 && t[0] == '"' {
        match char_index(t.drop_first(), '"') {
            Some(e) => {
                let after = trimmed_start(t.skip(e + 2));
                (
                    Some(t.subrange(1, e + 1)),
                    if after.len() > 0 && after[0] == ';' { after.drop_first() } else { after },
                )
            },
            None => (None, t),
        }
    } else {
        (None, t)
    }
}

pub open spec fn opt_view(o: Option<String>) -> Option<Seq<char>> {
    match o {
        Some(s) => Some(s@),
        None => None,
    }
}

/// The prompt and variable name of `INPUT` text `v[lo..hi]`.
fn input_of(v: &Vec<char>, lo: usize, hi: usize) -> (r: (Option<String>, String))
    requires
        lo <= hi <= v@.len(),
    ensures
        (opt_view(r.0), r.1@) == input_target(v@.subrange(lo as int, hi as int)),
{
    let ghost t = v@.subrange(lo as int, hi as int);
    if lo < hi && v[lo] == '"' {
        let e = find_char(v, lo + 1, hi, '"');
        proof {
            assert(t.drop_first() =~= v@.subrange(lo + 1, hi as int));
        }
        if e < hi {
            let prompt = string_of(v, lo + 1, e);
            let a = trim_start_from(v, e + 1, hi);
            proof {
                assert(t.subrange(1, e - lo) =~= prompt@);
                assert(t.skip(e - lo + 1) =~= v@.subrange(e + 1, hi as int));
            }
            let name = if a < hi && v[a] == ';' {
                let n = string_of(v, a + 1, hi);
                proof {
                    assert(v@.subrange(a as int, hi as int).drop_first() =~= n@);
                }
                n
            } else {
                string_of(v, a, hi)
            };
            (Some(prompt), name)
        } else {
            (None, string_of(v, lo, hi))
        }
    } else {
        (None, string_of(v, lo, hi))
    }
}

/// What the caller has to do for a line the interpreter executed.
#[derive(Debug)]
pub enum Action {
    /// Nothing: the statement only moved the control state.
    Continue,
    /// Print the parts on one line.
    Print(Vec<PrintPart>),
    /// Evaluate `expr` and store the value in the variable `name`; when `at_least_zero`
    /// holds, a negative value is stored as zero.
    Assign { name: String, expr: String, at_least_zero: bool },
    /// Show the prompt (`"? "` when there is none), read a number and store it in `name`;
    /// when `capped_by_fuel` holds, a value above the variable `F` is lowered to it.
    Input { prompt: Option<String>, name: String, capped_by_fuel: bool },
    /// Evaluate the comparison (false when there is none), then call
    /// [`BasicInterpreter::branch`] with the outcome and `target`.
    Test { comparison: Option<Comparison>, target: i32 },
}

/// The comparison as its operator and two sides.
pub open spec fn comparison_view(c: Option<Comparison>) -> Option<(Relation, Seq<char>, Seq<char>)> {
    match c {
        Some(x) => Some((x.op, x.left@, x.right@)),
        None => None,
    }
}

/// `t` read as an `i32`, as `str::parse::<i32>` reads it.
pub open spec fn i32_value(t: Seq<char>) -> Option<i32> {
    match signed_value(t) {
        Some(v) => if i32::MIN <= v <= i32::MAX { Some(v as i32) } else { None },
        None => None,
    }
}

/// The line a `GOTO` or `GOSUB` statement names: its second word, read as an `i32`.
pub open spec fn jump_target(ws: Seq<Seq<char>>) -> Option<i32> {
    if ws.len() > 1 { i32_value(ws[1]) } else { None }
}

/// The assignment `name = expr` that an `=` at index `e` of `t` makes, with the name taken
/// from index `from` on.
pub open spec fn assigns(act: Action, t: Seq<char>, from: int, e: int) -> bool {
    act matches Action::Assign { name, expr, at_least_zero } && name@ == trimmed(t.subrange(from, e))
        && expr@ == trimmed(t.skip(e + 1)) && at_least_zero == (name@ == seq!['H'])
}

/// `v[a..b]` is the word `w`.
fn word_is(v: &Vec<char>, a: usize, b: usize, w: &Vec<char>) -> (r: bool)
    requires
        a <= b <= v@.len(),
    ensures
        r == (v@.subrange(a as int, b as int) == w@),
{
    if b - a != w.len() {
        proof {
            if v@.subrange(a as int, b as int) == w@ {
                assert(v@.subrange(a as int, b as int).len() == w@.len());
            }
        }
        return false;
    }
    let mut k: usize = 0;
    while k < w.len()
        invariant
            a <= b <= v@.len(),
            b - a == w@.len(),
            k <= w@.len(),
            forall|j: int| 0 <= j < k ==> v@[a + j] == w@[j],
        decreases w@.len() - k,
    {
        if v[a + k] != w[k] {
            proof {
                if v@.subrange(a as int, b as int) == w@ {
                    assert(v@.subrange(a as int, b as int)[k as int] == v@[a + k]);
                }
            }
            return false;
        }
        k += 1;
    }
    proof {
        assert(v@.subrange(a as int, b as int) =~= w@);
    }
    true
}

/// `s` is the one-character string `c`.
fn is_single(s: &String, c: char) -> (r: bool)
    ensures
        r == (s@ == seq![c]),
{
    let t = s.as_str();
    if t.unicode_len() == 1 {
        let r = t.get_char(0) == c;
        proof {
            if r {
                assert(s@ =~= seq![c]);
            }
        }
        r
    } else {
        proof {
            if s@ == seq![c] {
                assert(s@.len() == 1);
            }
        }
        false
    }
}

/// The assignment of `v[from..q]` to `v[q + 1..hi]` (`v[q]` is the `=`), both trimmed.
fn assignment(v: &Vec<char>, lo: usize, from: usize, q: usize, hi: usize) -> (act: Action)
    requires
        lo <= from <= q < hi <= v@.len(),
    ensures
        assigns(act, v@.subrange(lo as int, hi as int), from - lo, q - lo),
{
    let ghost t = v@.subrange(lo as int, hi as int);
    let (a, b) = trim_range(v, from, q);
    let name = string_of(v, a, b);
    let (c, d) = trim_range(v, q + 1, hi);
    let expr = string_of(v, c, d);
    let at_least_zero = is_single(&name, 'H');
    proof {
        assert(t.subrange(from - lo, q - lo) =~= v@.subrange(from as int, q as int));
        assert(t.skip(q - lo + 1) =~= v@.subrange(q + 1, hi as int));
    }
    Action::Assign { name, expr, at_least_zero }
}

pub proof fn lemma_entry_map_dom(es: Seq<(i32, Seq<char>)>, n: i32)
    ensures
        entry_map(es).contains_key(n) <==> entry_numbers(es).contains(n),
    decreases es.len(),
{
    if es.len() > 0 {
        lemma_entry_map_dom(es.drop_last(), n);
        assert(entry_numbers(es).drop_last() =~= entry_numbers(es.drop_last()));
        if entry_numbers(es.drop_last()).contains(n) {
            let k = choose|k: int| 0 <= k < entry_numbers(es.drop_last()).len() && entry_numbers(es.drop_last())[k] == n;
            assert(entry_numbers(es)[k] == n);
        }
        if entry_numbers(es).contains(n) {
            let k = choose|k: int| 0 <= k < entry_numbers(es).len() && entry_numbers(es)[k] == n;
            if k < es.len() - 1 {
                assert(entry_numbers(es.drop_last())[k] == n);
            }
        }
        assert(entry_numbers(es)[es.len() - 1] == es.last().0);
    }
}

/// The program that `load_program` stores has code for exactly its line numbers: a line
/// number occurs in the sorted list if and only if the program holds code under it.
pub proof fn law_loaded_lines_have_code(text: Seq<char>, nums: Seq<i32>, code: Map<i32, Seq<char>>)
    requires
        nums.to_multiset() == entry_numbers(program_entries(lines(text))).to_multiset(),
        code == entry_map(program_entries(lines(text))),
    ensures
        forall|n: i32| #[trigger] code.contains_key(n) <==> nums.contains(n),
{
    broadcast use vstd::seq_lib::to_multiset_contains;
    let es = program_entries(lines(text));
    assert forall|n: i32| #[trigger] code.contains_key(n) <==> nums.contains(n) by {
        lemma_entry_map_dom(es, n);
        assert(nums.to_multiset().count(n) == entry_numbers(es).to_multiset().count(n));
    }
}

/// Lines run in ascending order: in a sorted list of line numbers, the line after `cur` is
/// not below it.
pub proof fn law_lines_run_in_order(nums: Seq<i32>, cur: i32)
    requires
        sorted(nums),
    ensures
        line_after(nums, cur) matches Some(n) ==> cur <= n,
{
    lemma_first_index(nums, cur);
}

/// The state of a running program, without its variables: the sorted line numbers, the
/// code of each line, the line being executed, the `GOSUB` return stack and whether the
/// program runs.
pub struct BasicInterpreter {
    pub line_numbers: Vec<i32>,
    pub program: HashMap<i32, String>,
    pub current_line: i32,
    pub return_stack: Vec<i32>,
    pub running: bool,
}

/// The code of each line, as character sequences.
pub open spec fn code_of(m: Map<i32, String>) -> Map<i32, Seq<char>> {
    m.map_values(|s: String| s@)
}

impl BasicInterpreter {
    /// Both states hold the same program.
    pub open spec fn same_program(self, other: Self) -> bool {
        &&& self.line_numbers@ == other.line_numbers@
        &&& self.program@ == other.program@
    }

    /// `other` is this state after moving to the next line in program order.
    pub open spec fn advanced(self, other: Self) -> bool {
        &&& self.same_program(other)
        &&& other.return_stack@ == self.return_stack@
        &&& match line_after(self.line_numbers@, self.current_line) {
            Some(n) => other.current_line == n && other.running == self.running,
            None => other.current_line == self.current_line && !other.running,
        }
    }

    /// `other` is this state after jumping to line `target`.
    pub open spec fn jumped(self, other: Self, target: i32) -> bool {
        &&& self.same_program(other)
        &&& other.return_stack@ == self.return_stack@
        &&& other.current_line == target
        &&& other.running == self.running
    }

    /// Neither the program nor the control state changed.
    pub open spec fn unchanged(self, other: Self) -> bool {
        &&& self.same_program(other)
        &&& other.return_stack@ == self.return_stack@
        &&& other.current_line == self.current_line
        &&& other.running == self.running
    }

    /// `other` is this state after `RETURN`: it pops the return stack and continues at the
    /// popped line; popping `0`, or an empty stack, stops the program.
    pub open spec fn returned(self, other: Self) -> bool {
        &&& self.same_program(other)
        &&& if self.return_stack@.len() == 0 {
            other.return_stack@ == self.return_stack@ && other.current_line == self.current_line
                && !other.running
        } else {
            let r = self.return_stack@.last();
            &&& other.return_stack@ == self.return_stack@.drop_last()
            &&& if r == 0 {
                other.current_line == self.current_line && !other.running
            } else {
                other.current_line == r && other.running == self.running
            }
        }
    }

    /// `other` is this state after `GOSUB` to `target`.
    pub open spec fn called(self, other: Self, target: i32) -> bool {
        &&& self.same_program(other)
        &&& other.current_line == target
        &&& other.running == self.running
        &&& other.return_stack@ == match return_address(self.line_numbers@, self.current_line) {
            Some(a) => self.return_stack@.push(a),
            None => self.return_stack@,
        }
    }

    /// Executing `IF` line `t` takes this state to `other` and asks for `act`: when the
    /// text after `THEN` reads as a line number, the caller evaluates the condition before
    /// the text's first `THEN`; otherwise the statement moves to the next line.
    pub open spec fn if_step(self, t: Seq<char>, other: Self, act: Action) -> bool {
        let body = trimmed(t.skip(2));
        match sub_index(body, seq!['T', 'H', 'E', 'N']) {
            Some(q) => match i32_value(trimmed(body.skip(q + 4))) {
                Some(n) => self.unchanged(other) && (act matches Action::Test {
                    comparison: found,
                    target,
                } && target == n && comparison_view(found) == comparison(
                    without_spaces(trimmed(body.take(q))),
                )),
                None => self.advanced(other) && act is Continue,
            },
            None => self.advanced(other) && act is Continue,
        }
    }

    /// Executing the trimmed line `t` takes this state to `other` and asks for `act`.
    pub open spec fn executes(self, t: Seq<char>, other: Self, act: Action) -> bool {
        if t.len() == 0 {
            self.advanced(other) && act is Continue
        } else {
            let ws = tokens(t);
            let cmd = ws[0];
            if cmd == seq!['R', 'E', 'M'] {
                self.advanced(other) && act is Continue
            } else if cmd == seq!['P', 'R', 'I', 'N', 'T'] {
                self.advanced(other) && (act matches Action::Print(parts) && parts_view(parts@)
                    == print_parts(trimmed_start(t.skip(5))))
            } else if cmd == seq!['L', 'E', 'T'] {
                self.advanced(other) && match char_index(t, '=') {
                    Some(e) => assigns(act, t, 3, e),
                    None => act is Continue,
                }
            } else if cmd == seq!['G', 'O', 'T', 'O'] {
                act is Continue && match jump_target(ws) {
                    Some(n) => self.jumped(other, n),
                    None => self.advanced(other),
                }
            } else if cmd == seq!['G', 'O', 'S', 'U', 'B'] {
                act is Continue && match jump_target(ws) {
                    Some(n) => self.called(other, n),
                    None => self.advanced(other),
                }
            } else if cmd == seq!['R', 'E', 'T', 'U', 'R', 'N'] {
                act is Continue && self.returned(other)
            } else if cmd == seq!['I', 'F'] {
                self.if_step(t, other, act)
            } else if cmd == seq!['I', 'N', 'P', 'U', 'T'] {
                self.advanced(other) && (act matches Action::Input { prompt, name, capped_by_fuel }
                    && (opt_view(prompt), name@) == input_target(trimmed(t.skip(5)))
                    && capped_by_fuel == (name@ == seq!['U']))
            } else if cmd == seq!['E', 'N', 'D'] {
                &&& act is Continue
                &&& self.same_program(other)
                &&& other.return_stack@ == self.return_stack@
                &&& other.current_line == self.current_line
                &&& !other.running
            } else {
                self.advanced(other) && match char_index(t, '=') {
                    Some(e) => assigns(act, t, 0, e),
                    None => act is Continue,
                }
            }
        }
    }

    /// An interpreter with no program, stopped at line 0.
    pub fn new() -> (r: Self)
        ensures
            r.line_numbers@ == Seq::<i32>::empty(),
            r.program@ == Map::<i32, String>::empty(),
            r.current_line == 0,
            r.return_stack@ == Seq::<i32>::empty(),
            !r.running,
    {
        BasicInterpreter {
            line_numbers: Vec::new(),
            program: HashMap::new(),
            current_line: 0,
            return_stack: Vec::new(),
            running: false,
        }
    }

    /// Moves to the line after the current one in program order; stops the program when
    /// there is none, or when the current line is not one of the program.
    pub fn goto_next_line(&mut self)
        ensures
            old(self).advanced(*final(self)),
    {
        match position(&self.line_numbers, self.current_line) {
            Some(pos) => {
                let n = self.line_numbers.len();
                proof {
                    lemma_first_index(self.line_numbers@, self.current_line);
                }
                if pos + 1 < n {
                    self.current_line = self.line_numbers[pos + 1];
                } else {
                    self.running = false;
                }
            },
            None => {
                self.running = false;
            },
        }
    }

    /// Replaces the program by the numbered lines of `text`: each line is trimmed, and a
    /// line whose text before its first space reads as an `i32` is stored under that number.
    /// The line numbers are kept in sorted order, duplicates included.
    pub fn load_program(&mut self, text: &str)
        ensures
            code_of(final(self).program@) == entry_map(program_entries(lines(text@))),
            sorted(final(self).line_numbers@),
            final(self).line_numbers@.to_multiset() == entry_numbers(
                program_entries(lines(text@)),
            ).to_multiset(),
            final(self).current_line == old(self).current_line,
            final(self).return_stack@ == old(self).return_stack@,
            final(self).running == old(self).running,
    {
        self.program.clear();
        self.line_numbers.clear();
        let chars = chars_of(text);
        let spans = line_spans(&chars);
        let ghost ls = lines(chars@);
        let mut k: usize = 0;
        proof {
            assert(ls.take(0) =~= Seq::<Seq<char>>::empty());
            assert(code_of(self.program@) =~= Map::<i32, Seq<char>>::empty());
            assert(entry_numbers(program_entries(ls.take(0))) =~= Seq::<i32>::empty());
        }
        while k < spans.len()
            invariant
                k <= spans@.len(),
                chars@ == text@,
                ls == lines(chars@),
                spans@.len() == ls.len(),
                forall|t: int| 0 <= t < spans@.len() ==> {
                    &&& (#[trigger] spans@[t]).0 <= spans@[t].1 <= chars@.len()
                    &&& chars@.subrange(spans@[t].0 as int, spans@[t].1 as int) == ls[t]
                },
                code_of(self.program@) == entry_map(program_entries(ls.take(k as int))),
                sorted(self.line_numbers@),
                self.line_numbers@.to_multiset() == entry_numbers(
                    program_entries(ls.take(k as int)),
                ).to_multiset(),
                self.current_line == old(self).current_line,
                self.return_stack@ == old(self).return_stack@,
                self.running == old(self).running,
            decreases spans@.len() - k,
        {
            let (a, b) = spans[k];
            let (lo, hi) = trim_range(&chars, a, b);
            let ghost t = chars@.subrange(lo as int, hi as int);
            let ghost prev = program_entries(ls.take(k as int));
            proof {
                assert(ls.take(k + 1).drop_last() =~= ls.take(k as int));
                assert(ls.take(k + 1).last() == ls[k as int]);
                assert(t == trimmed(ls[k as int]));
            }
            let p = find_char(&chars, lo, hi, ' ');
            if p < hi {
                proof {
                    assert(chars@.subrange(lo as int, p as int) =~= t.take(p - lo));
                }
                match parse_i32(&chars, lo, p) {
                    Some(num) => {
                        let code = string_of(&chars, p + 1, hi);
                        proof {
                            assert(code@ =~= t.skip(p - lo + 1));
                            assert(numbered(t) == Some((num, code@)));
                            assert(program_entries(ls.take(k + 1)) == prev.push((num, code@)));
                            assert(entry_numbers(prev.push((num, code@))) =~= entry_numbers(
                                prev,
                            ).push(num));
                            vstd::seq_lib::to_multiset_build(entry_numbers(prev), num);
                        }
                        let ghost m0 = self.program@;
                        self.program.insert(num, code);
                        proof {
                            assert(code_of(self.program@) =~= code_of(m0).insert(num, code@));
                            assert(prev.push((num, code@)).drop_last() =~= prev);
                            assert(entry_map(prev.push((num, code@))) == entry_map(prev).insert(num, code@));
                        }
                        insert_sorted(&mut self.line_numbers, num);
                    },
                    None => {
                        proof {
                            assert(numbered(t) is None);
                            assert(program_entries(ls.take(k + 1)) == prev);
                        }
                    },
                }
            } else {
                proof {
                    assert(numbered(t) is None);
                    assert(program_entries(ls.take(k + 1)) == prev);
                }
            }
            k += 1;
        }
        proof {
            assert(ls.take(k as int) =~= ls);
        }
    }

    /// Pushes the return address of a `GOSUB` at the current line.
    fn push_return_address(&mut self)
        ensures
            old(self).same_program(*final(self)),
            final(self).current_line == old(self).current_line,
            final(self).running == old(self).running,
            final(self).return_stack@ == match return_address(
                old(self).line_numbers@,
                old(self).current_line,
            ) {
                Some(a) => old(self).return_stack@.push(a),
                None => old(self).return_stack@,
            },
    {
        proof {
            lemma_first_index(self.line_numbers@, self.current_line);
        }
        match position(&self.line_numbers, self.current_line) {
            Some(pos) => {
                let n = self.line_numbers.len();
                if pos + 1 < n {
                    let next = self.line_numbers[pos + 1];
                    self.return_stack.push(next);
                } else {
                    self.return_stack.push(0);
                }
            },
            None => {},
        }
    }

    /// The `IF` statement `v[lo..hi]`, whose first word `v[lo..e]` is `IF`.
    fn if_statement(&mut self, v: &Vec<char>, lo: usize, e: usize, hi: usize) -> (act: Action)
        requires
            lo + 2 == e <= hi <= v@.len(),
        ensures
            old(self).if_step(v@.subrange(lo as int, hi as int), *final(self), act),
    {
        let ghost t = v@.subrange(lo as int, hi as int);
        let (a, b) = trim_range(v, e, hi);
        proof {
            assert(t.skip(2) =~= v@.subrange(e as int, hi as int));
        }
        let ghost body = v@.subrange(a as int, b as int);
        let then_word = vec!['T', 'H', 'E', 'N'];
        proof {
            assert(then_word@ =~= seq!['T', 'H', 'E', 'N']);
        }
        let q = find_sub(v, a, b, &then_word);
        proof {
            lemma_sub_index(body, then_word@);
        }
        if q < b {
            let (c, d) = trim_range(v, q + 4, b);
            proof {
                assert(body.skip(q - a + 4) =~= v@.subrange(q + 4, b as int));
            }
            match parse_i32(v, c, d) {
                Some(target) => {
                    let (x, y) = trim_range(v, a, q);
                    proof {
                        assert(body.take(q - a) =~= v@.subrange(a as int, q as int));
                    }
                    let comparison = split_condition(v, x, y);
                    return Action::Test { comparison, target };
                },
                None => {},
            }
        }
        self.goto_next_line();
        Action::Continue
    }

    /// Completes an `IF` statement once its condition has been evaluated: jumps to
    /// `target` when the condition holds, and moves to the next line otherwise.
    pub fn branch(&mut self, holds: bool, target: i32)
        ensures
            holds ==> old(self).jumped(*final(self), target),
            !holds ==> old(self).advanced(*final(self)),
    {
        if holds {
            self.current_line = target;
        } else {
            self.goto_next_line();
        }
    }

    /// Executes one line of code: updates the control state and says what the statement
    /// asks of the caller. The first word of the trimmed line selects the statement;
    /// a line with an unknown first word and an `=` assigns, any other such line does
    /// nothing.
    #[verifier::rlimit(50)]
    pub fn execute_line(&mut self, line: &str) -> (act: Action)
        ensures
            old(self).executes(trimmed(line@), *final(self), act),
    {
        let v = chars_of(line);
        let (lo, hi) = trim_bounds(&v);
        let ghost t = v@.subrange(lo as int, hi as int);
        if lo == hi {
            self.goto_next_line();
            return Action::Continue;
        }
        let mut e = lo;
        while e < hi && !white_space(v[e])
            invariant
                lo <= e <= hi <= v@.len(),
                forall|j: int| lo <= j < e ==> !is_white_space(v@[j]),
            decreases hi - e,
        {
            e += 1;
        }
        proof {
            assert forall|j: int| 0 <= j < e - lo implies !is_white_space(#[trigger] t[j]) by {
                assert(t[j] == v@[lo + j]);
            }
            if e < hi {
                assert(t[e - lo] == v@[e as int]);
            }
            lemma_word_len_of_run(t, e - lo);
            assert(t[0] == v@[lo as int]);
            assert(tokens(t) == seq![t.take(e - lo)] + tokens(t.skip(e - lo)));
            assert(tokens(t)[0] == t.take(e - lo));
            assert(t.take(e - lo) =~= v@.subrange(lo as int, e as int));
        }
        let ghost cmd = v@.subrange(lo as int, e as int);
        if word_is(&v, lo, e, &vec!['R', 'E', 'M']) {
            self.goto_next_line();
            return Action::Continue;
        }
        if word_is(&v, lo, e, &vec!['P', 'R', 'I', 'N', 'T']) {
            let a = trim_start_from(&v, e, hi);
            let parts = print_parts_of(&v, a, hi);
            proof {
                assert(t.skip(5) =~= v@.subrange(e as int, hi as int));
            }
            self.goto_next_line();
            return Action::Print(parts);
        }
        if word_is(&v, lo, e, &vec!['L', 'E', 'T']) {
            let q = find_char(&v, lo, hi, '=');
            proof {
                assert(t.subrange(0, 3) =~= cmd);
                assert(cmd == seq!['L', 'E', 'T']);
                lemma_char_index(t, '=');
                if q < hi && q < lo + 3 {
                    assert(t[q - lo] == cmd[q - lo]);
                }
            }
            let act = if q < hi {
                assignment(&v, lo, lo + 3, q, hi)
            } else {
                Action::Continue
            };
            self.goto_next_line();
            return act;
        }
        let is_goto = word_is(&v, lo, e, &vec!['G', 'O', 'T', 'O']);
        let is_gosub = word_is(&v, lo, e, &vec!['G', 'O', 'S', 'U', 'B']);
        if is_goto || is_gosub {
            let spans = token_spans(&v, lo, hi);
            let target = if spans.len() > 1 {
                proof {
                    assert(tokens(t)[1] == v@.subrange(spans@[1].0 as int, spans@[1].1 as int));
                }
                parse_i32(&v, spans[1].0, spans[1].1)
            } else {
                None
            };
            match target {
                Some(line_num) => {
                    if is_gosub {
                        self.push_return_address();
                    }
                    self.current_line = line_num;
                },
                None => {
                    self.goto_next_line();
                },
            }
            return Action::Continue;
        }
        if word_is(&v, lo, e, &vec!['R', 'E', 'T', 'U', 'R', 'N']) {
            match self.return_stack.pop() {
                Some(return_line) => {
                    if return_line == 0 {
                        self.running = false;
                    } else {
                        self.current_line = return_line;
                    }
                },
                None => {
                    self.running = false;
                },
            }
            return Action::Continue;
        }
        if word_is(&v, lo, e, &vec!['I', 'F']) {
            return self.if_statement(&v, lo, e, hi);
        }
        if word_is(&v, lo, e, &vec!['I', 'N', 'P', 'U', 'T']) {
            let (a, b) = trim_range(&v, e, hi);
            let (prompt, name) = input_of(&v, a, b);
            let capped_by_fuel = is_single(&name, 'U');
            proof {
                assert(t.skip(5) =~= v@.subrange(e as int, hi as int));
            }
            self.goto_next_line();
            return Action::Input { prompt, name, capped_by_fuel };
        }
        if word_is(&v, lo, e, &vec!['E', 'N', 'D']) {
            self.running = false;
            return Action::Continue;
        }
        let q = find_char(&v, lo, hi, '=');
        let act = if q < hi {
            assignment(&v, lo, lo, q, hi)
        } else {
            Action::Continue
        };
        self.goto_next_line();
        act
    }

    /// Starts the program at its first line (line 0 when it has none).
    pub fn start(&mut self)
        ensures
            old(self).same_program(*final(self)),
            final(self).return_stack@ == old(self).return_stack@,
            final(self).running,
            final(self).current_line == (if old(self).line_numbers@.len() > 0 {
                old(self).line_numbers@[0]
            } else {
                0
            }),
    {
        self.running = true;
        self.current_line = if self.line_numbers.len() > 0 { self.line_numbers[0] } else { 0 };
    }

    /// One test of the main loop: the code of the line to execute next, or `None` once the
    /// program has stopped. Reaching a line number that has no code stops the program.
    pub fn fetch(&mut self) -> (r: Option<String>)
        ensures
            old(self).same_program(*final(self)),
            final(self).return_stack@ == old(self).return_stack@,
            final(self).current_line == old(self).current_line,
            !(old(self).running && old(self).current_line > 0) ==> r is None && final(self).running
                == old(self).running,
            old(self).running && old(self).current_line > 0 ==> match r {
                Some(code) => old(self).program@.contains_key(old(self).current_line)
                    && code@ == old(self).program@[old(self).current_line]@ && final(self).running,
                None => !old(self).program@.contains_key(old(self).current_line)
                    && !final(self).running,
            },
    {
        if !(self.running && self.current_line > 0) {
            return None;
        }
        match self.program.get(&self.current_line) {
            Some(code) => Some(code.clone()),
            None => {
                self.running = false;
                None
            },
        }
    }
}

} // verus!
