//! Arithmetic expressions of the BASIC interpreter, read into postfix order.
//!
//! The grammar is `expr = term {("+" | "-") term}`, `term = factor {("*" | "/") factor}`,
//! `factor = "(" expr [")"] | "-" factor | word`, where a word is a run of alphanumeric
//! characters, `'.'` and `'_'` (possibly empty) and white space may stand before each
//! symbol. Reading stops at the first character the grammar cannot take. Evaluating the
//! postfix operations over floating-point values is left to the caller.

use vstd::prelude::*;
use crate::text::{is_white_space, white_space, chars_of, string_of};

verus! {

/// Whether `char::is_alphanumeric` holds of `c` (the Unicode `Alphabetic` or `Numeric`
/// property).
pub uninterp spec fn is_alnum(c: char) -> bool;

/// `char::is_alphanumeric`: claimed to return `is_alnum(c)`, a function of `c` alone.
#[verifier::external_body]
fn alnum(c: char) -> (r: bool)
    ensures
        r == is_alnum(c),
{
    c.is_alphanumeric()
}

/// The kinds of postfix operations.
#[derive(PartialEq, Eq, Structural, Clone, Copy, Debug)]
pub enum OpKind {
    /// Push the value of a word: a number, or a variable (0 when it has no value or the
    /// word is empty).
    Push,
    /// Negate the top value.
    Neg,
    /// Replace the two top values `a`, `b` (`b` on top) by `a + b`.
    Add,
    /// ... by `a - b`.
    Sub,
    /// ... by `a * b`.
    Mul,
    /// ... by `a / b`.
    Div,
}

/// A postfix operation; the word is empty unless the kind is `Push`.
#[derive(Debug)]
pub struct Op {
    pub kind: OpKind,
    pub word: String,
}

pub open spec fn op_view(o: Op) -> (OpKind, Seq<char>) {
    (o.kind, o.word@)
}

pub open spec fn ops_view(os: Seq<Op>) -> Seq<(OpKind, Seq<char>)> {
    os.map_values(|o: Op| op_view(o))
}

/// The position after the white space that starts at `p`.
pub open spec fn skip_ws(s: Seq<char>, p: int) -> int
    decreases s.len() - p,
{
    if 0 <= p < s.len() && is_white_space(s[p]) {
        skip_ws(s, p + 1)
    } else {
        p
    }
}

/// The position after the word that starts at `p`.
pub open spec fn word_end(s: Seq<char>, p: int) -> int
    decreases s.len() - p,
{
    if 0 <= p < s.len() && (is_alnum(s[p]) || s[p] == '.' || s[p] == '_') {
        word_end(s, p + 1)
    } else {
        p
    }
}

pub proof fn lemma_skip_ws(s: Seq<char>, p: int)
    requires
        0 <= p <= s.len(),
    ensures
        p <= skip_ws(s, p) <= s.len(),
    decreases s.len() - p,
{
    if p < s.len() && is_white_space(s[p]) {
        lemma_skip_ws(s, p + 1);
    }
}

pub proof fn lemma_word_end(s: Seq<char>, p: int)
    requires
        0 <= p <= s.len(),
    ensures
        p <= word_end(s, p) <= s.len(),
    decreases s.len() - p,
{
    if p < s.len() && (is_alnum(s[p]) || s[p] == '.' || s[p] == '_') {
        lemma_word_end(s, p + 1);
    }
}

/// The operation of a binary operator character.
pub open spec fn binary_kind(c: char) -> OpKind {
    if c == '+' {
        OpKind::Add
    } else if c == '-' {
        OpKind::Sub
    } else if c == '*' {
        OpKind::Mul
    } else {
        OpKind::Div
    }
}

/// The postfix operations of the factor at `p`, and the position after it. The `rank`
/// selects the rule: 0 factor, 1 the rest of a term after `acc`, 2 term, 3 the rest of an
/// expression after `acc`, 4 expression.
pub open spec fn read_at(s: Seq<char>, p: int, rank: nat, acc: Seq<(OpKind, Seq<char>)>) -> (
    Seq<(OpKind, Seq<char>)>,
    int,
)
    decreases s.len() - p, rank,
{
    if !(0 <= p <= s.len()) {
        (acc, p)
    } else if rank == 4 {
        let (t, r) = read_at(s, p, 2, seq![]);
        if p <= r <= s.len() {
            read_at(s, r, 3, t)
        } else {
            (t, r)
        }
    } else if rank == 3 {
        let q = skip_ws(s, p);
        if p <= q < s.len() && (s[q] == '+' || s[q] == '-') {
            let (t, r) = read_at(s, q + 1, 2, seq![]);
            if q + 1 <= r <= s.len() {
                read_at(s, r, 3, acc + t + seq![(binary_kind(s[q]), seq![])])
            } else {
                (acc + t + seq![(binary_kind(s[q]), seq![])], r)
            }
        } else {
            (acc, q)
        }
    } else if rank == 2 {
        let (f, r) = read_at(s, p, 0, seq![]);
        if p <= r <= s.len() {
            read_at(s, r, 1, f)
        } else {
            (f, r)
        }
    } else if rank == 1 {
        let q = skip_ws(s, p);
        if p <= q < s.len() && (s[q] == '*' || s[q] == '/') {
            let (f, r) = read_at(s, q + 1, 0, seq![]);
            if q + 1 <= r <= s.len() {
                read_at(s, r, 1, acc + f + seq![(binary_kind(s[q]), seq![])])
            } else {
                (acc + f + seq![(binary_kind(s[q]), seq![])], r)
            }
        } else {
            (acc, q)
        }
    } else {
        let q = skip_ws(s, p);
        if !(p <= q <= s.len()) {
            (seq![], q)
        } else if q < s.len() && s[q] == '(' {
            let (e, r) = read_at(s, q + 1, 4, seq![]);
            let r2 = skip_ws(s, r);
            if 0 <= r2 < s.len() && s[r2] == ')' {
                (e, r2 + 1)
            } else {
                (e, r2)
            }
        } else if q < s.len() && s[q] == '-' {
            let (f, r) = read_at(s, q + 1, 0, seq![]);
            (f + seq![(OpKind::Neg, seq![])], r)
        } else {
            let r = word_end(s, q);
            (seq![(OpKind::Push, s.subrange(q, r))], r)
        }
    }
}

/// The number of values on the stack after running `ops` from `d` values, or `None` when
/// an operation finds too few.
pub open spec fn depth_after(ops: Seq<(OpKind, Seq<char>)>, d: int) -> Option<int>
    decreases ops.len(),
{
    if ops.len() == 0 {
        Some(d)
    } else {
        match depth_after(ops.drop_last(), d) {
            None => None,
            Some(e) => {
                let k = ops.last().0;
                if k == OpKind::Push {
                    Some(e + 1)
                } else if k == OpKind::Neg {
                    if e >= 1 { Some(e) } else { None }
                } else {
                    if e >= 2 { Some(e - 1) } else { None }
                }
            },
        }
    }
}

/// Running `ops` on any stack leaves one value more on it.
pub open spec fn adds_one_value(ops: Seq<(OpKind, Seq<char>)>) -> bool {
    forall|d: int| d >= 0 ==> #[trigger] depth_after(ops, d) == Some(d + 1)
}

pub proof fn lemma_depth_concat(a: Seq<(OpKind, Seq<char>)>, b: Seq<(OpKind, Seq<char>)>, d: int)
    ensures
        depth_after(a + b, d) == match depth_after(a, d) {
            Some(e) => depth_after(b, e),
            None => None,
        },
    decreases b.len(),
{
    if b.len() == 0 {
        assert(a + b =~= a);
    } else {
        lemma_depth_concat(a, b.drop_last(), d);
        assert((a + b).drop_last() =~= a + b.drop_last());
        assert((a + b).last() == b.last());
    }
}

pub proof fn lemma_read_adds_one_value(s: Seq<char>, p: int, rank: nat, acc: Seq<(OpKind, Seq<char>)>)
    requires
        0 <= p <= s.len(),
        rank <= 4,
        (rank == 1 || rank == 3) ==> adds_one_value(acc),
    ensures
        adds_one_value(read_at(s, p, rank, acc).0),
    decreases s.len() - p, rank,
{
    let e: Seq<(OpKind, Seq<char>)> = seq![];
    if rank == 4 {
        lemma_read_adds_one_value(s, p, 2, e);
        let (t, r) = read_at(s, p, 2, e);
        if p <= r <= s.len() {
            lemma_read_adds_one_value(s, r, 3, t);
        }
    } else if rank == 3 || rank == 1 {
        let q = skip_ws(s, p);
        let ok = if rank == 3 { s[q] == '+' || s[q] == '-' } else { s[q] == '*' || s[q] == '/' };
        if p <= q < s.len() && ok {
            lemma_read_adds_one_value(s, q + 1, (rank - 1) as nat, e);
            let (t, r) = read_at(s, q + 1, (rank - 1) as nat, e);
            let acc2 = acc + t + seq![(binary_kind(s[q]), Seq::<char>::empty())];
            assert(binary_kind(s[q]) != OpKind::Push && binary_kind(s[q]) != OpKind::Neg);
            assert forall|d: int| d >= 0 implies #[trigger] depth_after(acc2, d) == Some(d + 1) by {
                lemma_depth_concat(acc, t, d);
                assert(depth_after(acc, d) == Some(d + 1));
                assert(depth_after(t, d + 1) == Some(d + 2));
                lemma_depth_concat(acc + t, seq![(binary_kind(s[q]), Seq::<char>::empty())], d);
                assert(seq![(binary_kind(s[q]), Seq::<char>::empty())].drop_last() =~= Seq::<(OpKind, Seq<char>)>::empty());
                assert(depth_after(Seq::<(OpKind, Seq<char>)>::empty(), d + 2) == Some(d + 2));
            }
            if q + 1 <= r <= s.len() {
                lemma_read_adds_one_value(s, r, rank, acc2);
            }
        }
    } else if rank == 2 {
        lemma_read_adds_one_value(s, p, 0, e);
        let (f, r) = read_at(s, p, 0, e);
        if p <= r <= s.len() {
            lemma_read_adds_one_value(s, r, 1, f);
        }
    } else {
        let q = skip_ws(s, p);
        lemma_skip_ws(s, p);
        if q < s.len() && s[q] == '(' {
            lemma_read_adds_one_value(s, q + 1, 4, e);
        } else if q < s.len() && s[q] == '-' {
            lemma_read_adds_one_value(s, q + 1, 0, e);
            let (f, r) = read_at(s, q + 1, 0, e);
            let neg = seq![(OpKind::Neg, Seq::<char>::empty())];
            assert forall|d: int| d >= 0 implies #[trigger] depth_after(f + neg, d) == Some(d + 1) by {
                lemma_depth_concat(f, neg, d);
                assert(depth_after(f, d) == Some(d + 1));
                assert(neg.drop_last() =~= Seq::<(OpKind, Seq<char>)>::empty());
                assert(depth_after(Seq::<(OpKind, Seq<char>)>::empty(), d + 1) == Some(d + 1));
            }
        } else {
            let r = word_end(s, q);
            let w = seq![(OpKind::Push, s.subrange(q, r))];
            assert forall|d: int| d >= 0 implies #[trigger] depth_after(w, d) == Some(d + 1) by {
                assert(w.drop_last() =~= Seq::<(OpKind, Seq<char>)>::empty());
                assert(depth_after(Seq::<(OpKind, Seq<char>)>::empty(), d) == Some(d));
            }
        }
    }
}

/// Every expression reads into a well-formed postfix program: run on an empty stack, its
/// operations never lack a value and leave exactly one, the expression's value.
pub proof fn law_expression_leaves_one_value(text: Seq<char>)
    ensures
        depth_after(read_at(text, 0, 4, seq![]).0, 0) == Some(1int),
{
    lemma_read_adds_one_value(text, 0, 4, seq![]);
}

/// `skip_ws(s, p)`, computed.
fn skip_ws_from(s: &Vec<char>, p: usize) -> (r: usize)
    requires
        p <= s@.len(),
    ensures
        r == skip_ws(s@, p as int),
        p <= r <= s@.len(),
{
    let mut i = p;
    while i < s.len() && white_space(s[i])
        invariant
            p <= i <= s@.len(),
            skip_ws(s@, i as int) == skip_ws(s@, p as int),
        decreases s@.len() - i,
    {
        i += 1;
    }
    i
}

/// `word_end(s, p)`, computed.
fn word_end_from(s: &Vec<char>, p: usize) -> (r: usize)
    requires
        p <= s@.len(),
    ensures
        r == word_end(s@, p as int),
        p <= r <= s@.len(),
{
    let mut i = p;
    while i < s.len() && (alnum(s[i]) || s[i] == '.' || s[i] == '_')
        invariant
            p <= i <= s@.len(),
            word_end(s@, i as int) == word_end(s@, p as int),
        decreases s@.len() - i,
    {
        i += 1;
    }
    i
}

/// The operation of binary operator character `c`.
fn binary_op(c: char) -> (o: Op)
    ensures
        op_view(o) == (binary_kind(c), Seq::<char>::empty()),
{
    let kind = if c == '+' {
        OpKind::Add
    } else if c == '-' {
        OpKind::Sub
    } else if c == '*' {
        OpKind::Mul
    } else {
        OpKind::Div
    };
    Op { kind, word: String::new() }
}

/// `read_at(s, p, rank, acc)`, computed.
fn read(s: &Vec<char>, p: usize, rank: u8, acc: Vec<Op>) -> (r: (Vec<Op>, usize))
    requires
        p <= s@.len(),
        rank <= 4,
    ensures
        (ops_view(r.0@), r.1 as int) == read_at(s@, p as int, rank as nat, ops_view(acc@)),
        p <= r.1 <= s@.len(),
    decreases s@.len() - p, rank,
{
    if rank == 4 {
        let (t, r) = read(s, p, 2, Vec::new());
        proof {
            assert(ops_view(Seq::<Op>::empty()) =~= Seq::<(OpKind, Seq<char>)>::empty());
        }
        read(s, r, 3, t)
    } else if rank == 3 || rank == 1 {
        let q = skip_ws_from(s, p);
        let is_op = q < s.len() && if rank == 3 { s[q] == '+' || s[q] == '-' } else { s[q] == '*' || s[q] == '/' };
        if is_op {
            let c = s[q];
            let (mut t, r) = read(s, q + 1, rank - 1, Vec::new());
            let ghost before = ops_view(acc@);
            let ghost tv = ops_view(t@);
            let mut acc = acc;
            acc.append(&mut t);
            acc.push(binary_op(c));
            proof {
                assert(ops_view(Seq::<Op>::empty()) =~= Seq::<(OpKind, Seq<char>)>::empty());
                assert(ops_view(acc@) =~= before + tv + seq![(binary_kind(c), Seq::<char>::empty())]);
            }
            read(s, r, rank, acc)
        } else {
            (acc, q)
        }
    } else if rank == 2 {
        let (f, r) = read(s, p, 0, Vec::new());
        proof {
            assert(ops_view(Seq::<Op>::empty()) =~= Seq::<(OpKind, Seq<char>)>::empty());
        }
        read(s, r, 1, f)
    } else {
        let q = skip_ws_from(s, p);
        if q < s.len() && s[q] == '(' {
            let (e, r) = read(s, q + 1, 4, Vec::new());
            proof {
                assert(ops_view(Seq::<Op>::empty()) =~= Seq::<(OpKind, Seq<char>)>::empty());
            }
            let r2 = skip_ws_from(s, r);
            if r2 < s.len() && s[r2] == ')' {
                (e, r2 + 1)
            } else {
                (e, r2)
            }
        } else if q < s.len() && s[q] == '-' {
            let (mut f, r) = read(s, q + 1, 0, Vec::new());
            let ghost fv = ops_view(f@);
            f.push(Op { kind: OpKind::Neg, word: String::new() });
            proof {
                assert(ops_view(Seq::<Op>::empty()) =~= Seq::<(OpKind, Seq<char>)>::empty());
                assert(ops_view(f@) =~= fv + seq![(OpKind::Neg, Seq::<char>::empty())]);
            }
            (f, r)
        } else {
            let r = word_end_from(s, q);
            let word = string_of(s, q, r);
            let mut ops: Vec<Op> = Vec::new();
            ops.push(Op { kind: OpKind::Push, word });
            proof {
                assert(ops_view(ops@) =~= seq![(OpKind::Push, s@.subrange(q as int, r as int))]);
            }
            (ops, r)
        }
    }
}

/// The postfix operations of the expression that starts `text`, as the interpreter reads
/// it; what follows the expression is not read.
pub fn parse_expression(text: &str) -> (ops: Vec<Op>)
    ensures
        ops_view(ops@) == read_at(text@, 0, 4, seq![]).0,
{
    let s = chars_of(text);
    let (ops, _end) = read(&s, 0, 4, Vec::new());
    proof {
        assert(ops_view(Seq::<Op>::empty()) =~= Seq::<(OpKind, Seq<char>)>::empty());
    }
    ops
}


/// A word the grammar reads whole: non-empty, of word characters only, none of them white
/// space or a symbol that opens a factor.
pub open spec fn word_ok(w: Seq<char>) -> bool {
    &&& w.len() > 0
    &&& forall|i: int| 0 <= i < w.len() ==> {
        &&& (is_alnum(#[trigger] w[i]) || w[i] == '.' || w[i] == '_')
        &&& !is_white_space(w[i])
        &&& w[i] != '('
        &&& w[i] != '-'
    }
}

/// A product of words: the first word, then `(operator, word)` pairs with `*` or `/`.
pub type Product = (Seq<char>, Seq<(char, Seq<char>)>);

pub open spec fn product_ok(t: Product) -> bool {
    &&& word_ok(t.0)
    &&& forall|i: int| 0 <= i < t.1.len() ==> (#[trigger] t.1[i].0 == '*' || t.1[i].0 == '/') && word_ok(t.1[i].1)
}

/// ` op w` pieces written out: a space, the operator, a space, the word.
pub open spec fn factors_text(items: Seq<(char, Seq<char>)>) -> Seq<char>
    decreases items.len(),
{
    if items.len() == 0 {
        seq![]
    } else {
        seq![' ', items[0].0, ' '] + items[0].1 + factors_text(items.drop_first())
    }
}

/// The postfix program that multiplies in the words left to right.
pub open spec fn factors_program(items: Seq<(char, Seq<char>)>) -> Seq<(OpKind, Seq<char>)>
    decreases items.len(),
{
    if items.len() == 0 {
        seq![]
    } else {
        seq![(OpKind::Push, items[0].1), (binary_kind(items[0].0), Seq::<char>::empty())]
            + factors_program(items.drop_first())
    }
}

pub open spec fn product_text(t: Product) -> Seq<char> {
    t.0 + factors_text(t.1)
}

pub open spec fn product_program(t: Product) -> Seq<(OpKind, Seq<char>)> {
    seq![(OpKind::Push, t.0)] + factors_program(t.1)
}

/// ` op product` pieces written out, with `+` or `-`.
pub open spec fn terms_text(items: Seq<(char, Product)>) -> Seq<char>
    decreases items.len(),
{
    if items.len() == 0 {
        seq![]
    } else {
        seq![' ', items[0].0, ' '] + product_text(items[0].1) + terms_text(items.drop_first())
    }
}

/// The postfix program that adds in the products left to right, each product whole.
pub open spec fn terms_program(items: Seq<(char, Product)>) -> Seq<(OpKind, Seq<char>)>
    decreases items.len(),
{
    if items.len() == 0 {
        seq![]
    } else {
        product_program(items[0].1) + seq![(binary_kind(items[0].0), Seq::<char>::empty())]
            + terms_program(items.drop_first())
    }
}

/// Position `e` of `s` closes a sum: the end, or a `)` that is no word character.
pub open spec fn ends_sum(s: Seq<char>, e: int) -> bool {
    e == s.len() || (0 <= e < s.len() && s[e] == ')' && !is_alnum(')'))
}

/// After position `e` of `s`: the end of a sum, or a space and then `+` or `-`.
pub open spec fn ends_term(s: Seq<char>, e: int) -> bool {
    ends_sum(s, e) || (0 <= e && e + 1 < s.len() && s[e] == ' ' && (s[e + 1] == '+' || s[e + 1] == '-'))
}

proof fn lemma_word_run(s: Seq<char>, p: int, w: Seq<char>, i: int)
    requires
        word_ok(w),
        0 <= p,
        p + w.len() <= s.len(),
        s.subrange(p, p + w.len()) == w,
        p + w.len() == s.len() || s[p + w.len()] == ' ' || (s[p + w.len()] == ')' && !is_alnum(')')),
        !is_alnum(' '),
        0 <= i <= w.len(),
    ensures
        word_end(s, p + i) == p + w.len(),
    decreases w.len() - i,
{
    if i < w.len() {
        assert(s[p + i] == w[i]);
        lemma_word_run(s, p, w, i + 1);
    }
}

/// A word at `p`, after white space from `p0`, reads as pushing it.
proof fn lemma_read_word(s: Seq<char>, p0: int, p: int, w: Seq<char>)
    requires
        word_ok(w),
        0 <= p0 <= p,
        skip_ws(s, p0) == p,
        p + w.len() <= s.len(),
        s.subrange(p, p + w.len()) == w,
        p + w.len() == s.len() || s[p + w.len()] == ' ' || (s[p + w.len()] == ')' && !is_alnum(')')),
        !is_alnum(' '),
    ensures
        read_at(s, p0, 0, seq![]) == (seq![(OpKind::Push, w)], p + w.len()),
{
    assert(s[p] == w[0]);
    lemma_word_run(s, p, w, 0);
}

proof fn lemma_skip_one(s: Seq<char>, p: int)
    requires
        0 <= p,
        p + 1 < s.len(),
        s[p] == ' ',
        !is_white_space(s[p + 1]),
    ensures
        skip_ws(s, p) == p + 1,
{
    assert(is_white_space(' '));
    assert(skip_ws(s, p + 1) == p + 1);
}

proof fn lemma_skip_none(s: Seq<char>, p: int)
    requires
        0 <= p < s.len(),
        !is_white_space(s[p]),
    ensures
        skip_ws(s, p) == p,
{
}

/// The rest of a product from `p`: its ` op word` pieces multiply in left to right.
#[verifier::spinoff_prover]
proof fn lemma_read_factors(s: Seq<char>, p: int, items: Seq<(char, Seq<char>)>, acc: Seq<(OpKind, Seq<char>)>)
    requires
        0 <= p,
        p + factors_text(items).len() <= s.len(),
        s.subrange(p, p + factors_text(items).len()) == factors_text(items),
        forall|i: int| 0 <= i < items.len() ==> (#[trigger] items[i].0 == '*' || items[i].0 == '/') && word_ok(items[i].1),
        ends_term(s, p + factors_text(items).len()),
        !is_alnum(' '),
    ensures
        read_at(s, p, 1, acc) == (acc + factors_program(items), skip_ws(s, p + factors_text(items).len())),
    decreases items.len(),
{
    let e = p + factors_text(items).len();
    if items.len() == 0 {
        assert(acc + factors_program(items) =~= acc);
        if e < s.len() && s[e] == ' ' {
            lemma_skip_one(s, e);
        } else if e < s.len() {
            lemma_skip_none(s, e);
        }
    } else {
        let (m, u) = items[0];
        let rest = items.drop_first();
        let t = factors_text(items);
        assert(t =~= seq![' ', m, ' '] + u + factors_text(rest));
        assert(s[p] == t[0] && s[p + 1] == t[1] && s[p + 2] == t[2]);
        assert(items[0].0 == '*' || items[0].0 == '/');
        lemma_skip_one(s, p);
        let q = p + 1;
        assert(s[q] == m);
        // the word after the operator
        let r = q + 3 + u.len() - 1;
        assert(s.subrange(p + 3, p + 3 + u.len()) =~= u) by {
            assert forall|i: int| 0 <= i < u.len() implies s.subrange(p + 3, p + 3 + u.len())[i] == u[i] by {
                assert(s[p + 3 + i] == t[3 + i]);
            }
        }
        assert(u[0] == s[p + 3]) by {
            assert(s[p + 3] == t[3]);
        }
        lemma_skip_one(s, p + 2);
        let after = p + 3 + u.len();
        assert(after == s.len() || s[after] == ' ' || (s[after] == ')' && !is_alnum(')'))) by {
            if rest.len() > 0 {
                assert(s[after] == t[3 + u.len() as int]);
                assert(factors_text(rest)[0] == ' ');
            } else {
                assert(after == e);
            }
        }
        lemma_read_word(s, q + 1, p + 3, u);
        assert(forall|i: int| 0 <= i < rest.len() ==> #[trigger] rest[i] == items[i + 1]);
        assert(s.subrange(after, after + factors_text(rest).len()) =~= factors_text(rest)) by {
            assert forall|i: int| 0 <= i < factors_text(rest).len()
                implies s.subrange(after, after + factors_text(rest).len())[i] == factors_text(rest)[i] by {
                assert(s[after + i] == t[3 + u.len() + i]);
            }
        }
        assert forall|i: int| 0 <= i < rest.len() implies (#[trigger] rest[i].0 == '*' || rest[i].0 == '/')
            && word_ok(rest[i].1) by {
            assert(rest[i] == items[i + 1]);
            assert(items[i + 1].0 == '*' || items[i + 1].0 == '/');
        }
        lemma_read_factors(s, after, rest, acc + seq![(OpKind::Push, u)] + seq![(binary_kind(m), Seq::<char>::empty())]);
        assert(acc + seq![(OpKind::Push, u)] + seq![(binary_kind(m), Seq::<char>::empty())] + factors_program(rest)
            =~= acc + factors_program(items));
    }
}

/// A product whose first word starts at `p` (after white space from `p0`) reads as its
/// words multiplied in left to right.
proof fn lemma_read_product(s: Seq<char>, p0: int, p: int, t: Product)
    requires
        product_ok(t),
        0 <= p0 <= p,
        skip_ws(s, p0) == p,
        p + product_text(t).len() <= s.len(),
        s.subrange(p, p + product_text(t).len()) == product_text(t),
        ends_term(s, p + product_text(t).len()),
        !is_alnum(' '),
    ensures
        read_at(s, p0, 2, seq![]) == (product_program(t), skip_ws(s, p + product_text(t).len())),
{
    let w = t.0;
    let x = product_text(t);
    let after = p + w.len();
    assert(s.subrange(p, p + w.len()) =~= w) by {
        assert forall|i: int| 0 <= i < w.len() implies s.subrange(p, p + w.len())[i] == w[i] by {
            assert(s[p + i] == x[i]);
        }
    }
    assert(after == s.len() || s[after] == ' ' || (s[after] == ')' && !is_alnum(')'))) by {
        if t.1.len() > 0 {
            assert(s[after] == x[w.len() as int]);
            assert(factors_text(t.1)[0] == ' ');
        }
    }
    lemma_read_word(s, p0, p, w);
    assert(s.subrange(after, after + factors_text(t.1).len()) =~= factors_text(t.1)) by {
        assert forall|i: int| 0 <= i < factors_text(t.1).len()
            implies s.subrange(after, after + factors_text(t.1).len())[i] == factors_text(t.1)[i] by {
            assert(s[after + i] == x[w.len() + i]);
        }
    }
    lemma_read_factors(s, after, t.1, seq![(OpKind::Push, w)]);
}

/// The rest of a sum from `p` to the end of `s`: its ` op product` pieces add in left to right.
#[verifier::spinoff_prover]
proof fn lemma_read_terms(s: Seq<char>, p: int, items: Seq<(char, Product)>, acc: Seq<(OpKind, Seq<char>)>)
    requires
        0 <= p,
        p + terms_text(items).len() <= s.len(),
        s.subrange(p, p + terms_text(items).len()) == terms_text(items),
        ends_sum(s, p + terms_text(items).len()),
        forall|i: int| 0 <= i < items.len() ==> (#[trigger] items[i].0 == '+' || items[i].0 == '-') && product_ok(items[i].1),
        !is_alnum(' '),
    ensures
        read_at(s, p, 3, acc) == (acc + terms_program(items), p + terms_text(items).len()),
    decreases items.len(),
{
    if items.len() == 0 {
        assert(acc + terms_program(items) =~= acc);
        if p < s.len() {
            lemma_skip_none(s, p);
        }
    } else {
        let (o, t) = items[0];
        let rest = items.drop_first();
        let x = terms_text(items);
        assert(x =~= seq![' ', o, ' '] + product_text(t) + terms_text(rest));
        assert(s[p] == x[0] && s[p + 1] == x[1] && s[p + 2] == x[2]);
        assert(items[0].0 == '+' || items[0].0 == '-');
        lemma_skip_one(s, p);
        let pt = product_text(t);
        assert(pt[0] == t.0[0]);
        assert(s[p + 3] == x[3]);
        lemma_skip_one(s, p + 2);
        let e = p + 3 + pt.len();
        assert(s.subrange(p + 3, e) =~= pt) by {
            assert forall|i: int| 0 <= i < pt.len() implies s.subrange(p + 3, e)[i] == pt[i] by {
                assert(s[p + 3 + i] == x[3 + i]);
            }
        }
        assert(forall|i: int| 0 <= i < rest.len() ==> #[trigger] rest[i] == items[i + 1]);
        assert(ends_term(s, e)) by {
            if rest.len() == 0 {
                assert(e == p + terms_text(items).len());
            } else {
                assert(s[e] == x[3 + pt.len() as int]);
                assert(s[e + 1] == x[4 + pt.len() as int]);
                assert(terms_text(rest)[0] == ' ');
                assert(terms_text(rest)[1] == rest[0].0);
                assert(rest[0].0 == '+' || rest[0].0 == '-');
            }
        }
        lemma_read_product(s, p + 2, p + 3, t);
        let acc2 = acc + product_program(t) + seq![(binary_kind(o), Seq::<char>::empty())];
        assert(s.subrange(e, e + terms_text(rest).len()) =~= terms_text(rest)) by {
            assert forall|i: int| 0 <= i < terms_text(rest).len()
                implies s.subrange(e, e + terms_text(rest).len())[i] == terms_text(rest)[i] by {
                assert(s[e + i] == x[3 + pt.len() + i]);
            }
        }
        assert forall|i: int| 0 <= i < rest.len() implies (#[trigger] rest[i].0 == '+' || rest[i].0 == '-')
            && product_ok(rest[i].1) by {
            assert(rest[i] == items[i + 1]);
            assert(items[i + 1].0 == '+' || items[i + 1].0 == '-');
        }
        lemma_read_terms(s, e, rest, acc2);
        if rest.len() > 0 {
            // reading on from the operator gives what reading on from the space before it gives
            assert(s[e + 1] == x[4 + pt.len() as int]);
            assert(terms_text(rest)[1] == rest[0].0);
            lemma_skip_one(s, e);
            lemma_skip_none(s, e + 1);
            assert(read_at(s, e + 1, 3, acc2) == read_at(s, e, 3, acc2));
        }
        assert(acc2 + terms_program(rest) =~= acc + terms_program(items));
    }
}

/// Sums of products of words read into postfix operations left to right, products binding
/// tighter: `a - b + c` reads as push `a`, push `b`, subtract, push `c`, add, and `a + b * c`
/// as push `a`, push `b`, push `c`, multiply, add. The words are written with single spaces
/// around the operators.
#[verifier::spinoff_prover]
pub proof fn law_sums_and_products_read_left_to_right(first: Product, items: Seq<(char, Product)>)
    requires
        !is_alnum(' '),
        product_ok(first),
        forall|i: int| 0 <= i < items.len() ==> (#[trigger] items[i].0 == '+' || items[i].0 == '-') && product_ok(items[i].1),
    ensures
        read_at(product_text(first) + terms_text(items), 0, 4, seq![]).0
            == product_program(first) + terms_program(items),
{
    let s = product_text(first) + terms_text(items);
    let pt = product_text(first);
    let e = pt.len() as int;
    assert(s[0] == pt[0]);
    lemma_skip_none(s, 0);
    assert(s.subrange(0, e) =~= pt);
    assert(ends_term(s, e)) by {
        if items.len() > 0 {
            assert(s[e] == terms_text(items)[0]);
            assert(s[e + 1] == terms_text(items)[1]);
            assert(items[0].0 == '+' || items[0].0 == '-');
        }
    }
    lemma_read_product(s, 0, 0, first);
    assert(s.subrange(e, e + terms_text(items).len()) =~= terms_text(items));
    lemma_read_terms(s, e, items, product_program(first));
    if items.len() > 0 {
        assert(s[e + 1] == terms_text(items)[1]);
        lemma_skip_one(s, e);
        lemma_skip_none(s, e + 1);
        assert(read_at(s, e + 1, 3, product_program(first)) == read_at(s, e, 3, product_program(first)));
    }
}


/// `k` minus signs.
pub open spec fn minus_signs(k: nat) -> Seq<char> {
    Seq::new(k, |i: int| '-')
}

/// `k` negations.
pub open spec fn negations(k: nat) -> Seq<(OpKind, Seq<char>)> {
    Seq::new(k, |i: int| (OpKind::Neg, Seq::<char>::empty()))
}

proof fn lemma_read_negated(w: Seq<char>, k: nat, j: nat)
    requires
        word_ok(w),
        j <= k,
    ensures
        read_at(minus_signs(k) + w, j as int, 0, seq![])
            == (seq![(OpKind::Push, w)] + negations((k - j) as nat), (k + w.len()) as int),
    decreases k - j,
{
    let s = minus_signs(k) + w;
    if j < k {
        assert(s[j as int] == '-');
        lemma_skip_none(s, j as int);
        lemma_read_negated(w, k, j + 1);
        assert(seq![(OpKind::Push, w)] + negations((k - (j + 1)) as nat) + seq![(OpKind::Neg, Seq::<char>::empty())]
            =~= seq![(OpKind::Push, w)] + negations((k - j) as nat));
    } else {
        assert(s[k as int] == w[0]);
        lemma_skip_none(s, k as int);
        assert(s.subrange(k as int, (k + w.len()) as int) =~= w);
        lemma_word_run_to_end(s, k as int, w, 0);
        assert(negations(0) =~= Seq::<(OpKind, Seq<char>)>::empty());
        assert(seq![(OpKind::Push, w)] + negations(0) =~= seq![(OpKind::Push, w)]);
    }
}

proof fn lemma_word_run_to_end(s: Seq<char>, p: int, w: Seq<char>, i: int)
    requires
        word_ok(w),
        0 <= p,
        p + w.len() == s.len(),
        s.subrange(p, p + w.len()) == w,
        0 <= i <= w.len(),
    ensures
        word_end(s, p + i) == p + w.len(),
    decreases w.len() - i,
{
    if i < w.len() {
        assert(s[p + i] == w[i]);
        lemma_word_run_to_end(s, p, w, i + 1);
    }
}

/// A minus sign negates what follows it, after that is computed: `k` minus signs before a
/// word read as pushing the word, then `k` negations.
pub proof fn law_minus_negates_after(w: Seq<char>, k: nat)
    requires
        word_ok(w),
    ensures
        read_at(minus_signs(k) + w, 0, 4, seq![]).0 == seq![(OpKind::Push, w)] + negations(k),
{
    let s = minus_signs(k) + w;
    lemma_read_negated(w, k, 0);
    let e = s.len() as int;
    let f = seq![(OpKind::Push, w)] + negations(k);
    assert(skip_ws(s, e) == e);
    assert(read_at(s, 0, 0, seq![]) == (f, e));
    assert(read_at(s, e, 1, f) == (f, e));
    assert(read_at(s, 0, 2, seq![]) == (f, e));
    assert(read_at(s, e, 3, f) == (f, e));
}


/// A sum of products: the first product, then `(operator, product)` pairs with `+` or `-`.
pub type Sum = (Product, Seq<(char, Product)>);

pub open spec fn sum_ok(x: Sum) -> bool {
    &&& product_ok(x.0)
    &&& forall|i: int| 0 <= i < x.1.len() ==> (#[trigger] x.1[i].0 == '+' || x.1[i].0 == '-') && product_ok(x.1[i].1)
}

pub open spec fn sum_text(x: Sum) -> Seq<char> {
    product_text(x.0) + terms_text(x.1)
}

pub open spec fn sum_program(x: Sum) -> Seq<(OpKind, Seq<char>)> {
    product_program(x.0) + terms_program(x.1)
}

/// A sum starting at `p` (after white space from `p0`) and closed at its end reads whole.
#[verifier::spinoff_prover]
proof fn lemma_read_sum(s: Seq<char>, p0: int, p: int, x: Sum)
    requires
        sum_ok(x),
        0 <= p0 <= p,
        skip_ws(s, p0) == p,
        p + sum_text(x).len() <= s.len(),
        s.subrange(p, p + sum_text(x).len()) == sum_text(x),
        ends_sum(s, p + sum_text(x).len()),
        !is_alnum(' '),
    ensures
        read_at(s, p0, 4, seq![]) == (sum_program(x), p + sum_text(x).len()),
{
    let pt = product_text(x.0);
    let tt = terms_text(x.1);
    let whole = sum_text(x);
    let e = p + pt.len();
    assert(s.subrange(p, e) =~= pt) by {
        assert forall|i: int| 0 <= i < pt.len() implies s.subrange(p, e)[i] == pt[i] by {
            assert(s[p + i] == whole[i]);
        }
    }
    assert(s.subrange(e, e + tt.len()) =~= tt) by {
        assert forall|i: int| 0 <= i < tt.len() implies s.subrange(e, e + tt.len())[i] == tt[i] by {
            assert(s[e + i] == whole[pt.len() + i]);
        }
    }
    assert(ends_term(s, e)) by {
        if x.1.len() > 0 {
            assert(s[e] == tt[0]);
            assert(s[e + 1] == tt[1]);
            assert(x.1[0].0 == '+' || x.1[0].0 == '-');
        }
    }
    lemma_read_product(s, p0, p, x.0);
    lemma_read_terms(s, e, x.1, product_program(x.0));
    if x.1.len() > 0 {
        assert(s[e + 1] == tt[1]);
        lemma_skip_one(s, e);
        lemma_skip_none(s, e + 1);
        assert(read_at(s, e + 1, 3, product_program(x.0)) == read_at(s, e, 3, product_program(x.0)));
    } else if e < s.len() {
        lemma_skip_none(s, e);
    }
}

/// Parentheses group a sum as one operand: a product, `+` or `-`, then a parenthesised sum
/// reads as the product, then the whole inner sum, then the operator; `a - (b + c)` reads as
/// push `a`, push `b`, push `c`, add, subtract.
#[verifier::spinoff_prover]
pub proof fn law_parentheses_group(first: Product, o: char, inner: Sum)
    requires
        !is_alnum(' '),
        !is_alnum(')'),
        product_ok(first),
        o == '+' || o == '-',
        sum_ok(inner),
    ensures
        read_at(product_text(first) + seq![' ', o, ' ', '('] + sum_text(inner) + seq![')'], 0, 4, seq![]).0
            == product_program(first) + sum_program(inner) + seq![(binary_kind(o), Seq::<char>::empty())],
{
    let pt = product_text(first);
    let st = sum_text(inner);
    let s = pt + seq![' ', o, ' ', '('] + st + seq![')'];
    let e = pt.len() as int;
    let q = e + 1;
    let b = e + 4;
    let c = b + st.len();
    assert(s[0] == pt[0]);
    lemma_skip_none(s, 0);
    assert(s.subrange(0, e) =~= pt);
    assert(s[e] == ' ' && s[q] == o && s[e + 2] == ' ' && s[e + 3] == '(' && s[c] == ')');
    lemma_read_product(s, 0, 0, first);
    lemma_skip_one(s, e);
    // the parenthesised sum
    assert(st[0] == product_text(inner.0)[0]);
    assert(s[b] == st[0]);
    lemma_skip_none(s, b);
    assert(s.subrange(b, c) =~= st);
    lemma_read_sum(s, b, b, inner);
    lemma_skip_one(s, e + 2);
    lemma_skip_none(s, c);
    let sp = sum_program(inner);
    assert(read_at(s, q + 1, 0, seq![]) == (sp, c + 1));
    assert(skip_ws(s, c + 1) == c + 1);
    assert(read_at(s, c + 1, 1, sp) == (sp, c + 1));
    assert(read_at(s, q + 1, 2, seq![]) == (sp, c + 1));
    let acc = product_program(first) + sp + seq![(binary_kind(o), Seq::<char>::empty())];
    assert(read_at(s, c + 1, 3, acc) == (acc, c + 1));
    assert(read_at(s, q, 3, product_program(first)) == (acc, c + 1));
    assert(read_at(s, 0, 2, seq![]) == (product_program(first), q));
}


/// Reading goes on after a closing parenthesis: a parenthesised sum followed by ` op word`
/// pieces with `*` or `/` reads as the inner sum, then the words multiplied in left to right;
/// `(a + b) * c` reads as push `a`, push `b`, add, push `c`, multiply.
#[verifier::spinoff_prover]
pub proof fn law_parenthesised_factor(inner: Sum, items: Seq<(char, Seq<char>)>)
    requires
        !is_alnum(' '),
        !is_alnum(')'),
        sum_ok(inner),
        forall|i: int| 0 <= i < items.len() ==> (#[trigger] items[i].0 == '*' || items[i].0 == '/') && word_ok(items[i].1),
    ensures
        read_at(seq!['('] + sum_text(inner) + seq![')'] + factors_text(items), 0, 4, seq![]).0
            == sum_program(inner) + factors_program(items),
{
    let st = sum_text(inner);
    let ft = factors_text(items);
    let s = seq!['('] + st + seq![')'] + ft;
    let c: int = 1 + st.len() as int;
    assert(s[0] == '(' && s[c] == ')');
    lemma_skip_none(s, 0);
    assert(st[0] == product_text(inner.0)[0]);
    assert(s[1] == st[0]);
    lemma_skip_none(s, 1);
    assert(s.subrange(1, c) =~= st);
    lemma_read_sum(s, 1, 1, inner);
    lemma_skip_none(s, c);
    let sp = sum_program(inner);
    assert(read_at(s, 0, 0, seq![]) == (sp, c + 1));
    assert(s.subrange(c + 1, c + 1 + ft.len()) =~= ft);
    assert forall|i: int| 0 <= i < items.len() implies (#[trigger] items[i].0 == '*' || items[i].0 == '/')
        && word_ok(items[i].1) by {}
    assert(ends_term(s, c + 1 + ft.len()));
    lemma_read_factors(s, c + 1, items, sp);
    let e = s.len() as int;
    assert(skip_ws(s, e) == e);
    let all = sp + factors_program(items);
    assert(read_at(s, 0, 2, seq![]) == (all, e));
    assert(read_at(s, e, 3, all) == (all, e));
}

} // verus!
