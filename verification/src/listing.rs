//! The list of page images offered by the course server, read from its HTML index.

use vstd::prelude::*;
use crate::text::{chars_of, push_char};

verus! {

/// The first capture group of every match of `pattern` in `text`, in order of the matches,
/// or `None` where `pattern` is not a valid regular expression.
pub uninterp spec fn regex_group1_matches(pattern: Seq<char>, text: Seq<char>) -> Option<Seq<Seq<char>>>;

/// The first capture group of each successive non-overlapping match of `pattern` in `text`
/// (matches without that group contribute nothing), via `regex::Regex::new` and
/// `Regex::captures_iter`. `None` when `Regex::new` rejects the pattern.
#[verifier::external_body]
fn regex_group1(pattern: &str, text: &str) -> (r: Option<Vec<String>>)
    ensures
        match r {
            Some(v) => regex_group1_matches(pattern@, text@) == Some(v.deep_view()),
            None => regex_group1_matches(pattern@, text@) is None,
        },
{
    let re = regex::Regex::new(pattern).ok()?;
    Some(re.captures_iter(text).filter_map(|cap| cap.get(1).map(|m| m.as_str().to_string())).collect())
}

/// Strict lexicographic order of character sequences by code point, which for UTF-8
/// strings is the order of `String`'s `Ord`.
pub open spec fn lex_lt(a: Seq<char>, b: Seq<char>) -> bool
    decreases a.len(),
{
    if a.len() == 0 {
        b.len() > 0
    } else if b.len() == 0 {
        false
    } else if a[0] != b[0] {
        a[0] < b[0]
    } else {
        lex_lt(a.drop_first(), b.drop_first())
    }
}

pub proof fn lemma_lex_irreflexive(a: Seq<char>)
    ensures
        !lex_lt(a, a),
    decreases a.len(),
{
    if a.len() > 0 {
        lemma_lex_irreflexive(a.drop_first());
    }
}

pub proof fn lemma_lex_total(a: Seq<char>, b: Seq<char>)
    ensures
        a == b || lex_lt(a, b) || lex_lt(b, a),
    decreases a.len(),
{
    if a.len() > 0 && b.len() > 0 && a[0] == b[0] {
        lemma_lex_total(a.drop_first(), b.drop_first());
        if a.drop_first() == b.drop_first() {
            assert(a =~= seq![a[0]] + a.drop_first());
            assert(b =~= seq![b[0]] + b.drop_first());
        }
    } else if a.len() == 0 && b.len() == 0 {
        assert(a =~= b);
    }
}

pub proof fn lemma_lex_asym(a: Seq<char>, b: Seq<char>)
    requires
        lex_lt(a, b),
    ensures
        !lex_lt(b, a),
    decreases a.len(),
{
    if a.len() > 0 && b.len() > 0 && a[0] == b[0] {
        lemma_lex_asym(a.drop_first(), b.drop_first());
    }
}

pub proof fn lemma_lex_trans(a: Seq<char>, b: Seq<char>, c: Seq<char>)
    requires
        lex_lt(a, b),
        lex_lt(b, c),
    ensures
        lex_lt(a, c),
    decreases a.len(),
{
    if a.len() > 0 && b.len() > 0 && c.len() > 0 && a[0] == b[0] && b[0] == c[0] {
        lemma_lex_trans(a.drop_first(), b.drop_first(), c.drop_first());
    }
}

/// Compares two character vectors in `lex_lt` order.
pub fn lex_less(a: &Vec<char>, b: &Vec<char>) -> (r: bool)
    ensures
        r == lex_lt(a@, b@),
{
    let mut i: usize = 0;
    assert(a@.skip(0) =~= a@);
    assert(b@.skip(0) =~= b@);
    while i < a.len() && i < b.len() && a[i] == b[i]
        invariant
            i <= a@.len(),
            i <= b@.len(),
            lex_lt(a@, b@) == lex_lt(a@.skip(i as int), b@.skip(i as int)),
        decreases a@.len() - i,
    {
        assert(a@.skip(i as int).drop_first() =~= a@.skip(i + 1));
        assert(b@.skip(i as int).drop_first() =~= b@.skip(i + 1));
        i += 1;
    }
    if i == a.len() {
        i < b.len()
    } else if i == b.len() {
        false
    } else {
        a[i] < b[i]
    }
}

/// Equality of two character vectors.
pub fn same_chars(a: &Vec<char>, b: &Vec<char>) -> (r: bool)
    ensures
        r == (a@ == b@),
{
    if a.len() != b.len() {
        return false;
    }
    let mut i: usize = 0;
    while i < a.len()
        invariant
            a@.len() == b@.len(),
            i <= a@.len(),
            forall|k: int| 0 <= k < i ==> a@[k] == b@[k],
        decreases a@.len() - i,
    {
        if a[i] != b[i] {
            return false;
        }
        i += 1;
    }
    assert(a@ =~= b@);
    true
}

/// `p` is a prefix of `s`.
pub open spec fn has_prefix(s: Seq<char>, p: Seq<char>) -> bool {
    p.len() <= s.len() && s.take(p.len() as int) == p
}

/// `p` is a suffix of `s`.
pub open spec fn has_suffix(s: Seq<char>, p: Seq<char>) -> bool {
    p.len() <= s.len() && s.skip(s.len() - p.len()) == p
}

fn starts_with_chars(s: &Vec<char>, p: &Vec<char>) -> (r: bool)
    ensures
        r == has_prefix(s@, p@),
{
    if p.len() > s.len() {
        return false;
    }
    let mut i: usize = 0;
    while i < p.len()
        invariant
            p@.len() <= s@.len(),
            i <= p@.len(),
            forall|k: int| 0 <= k < i ==> s@[k] == p@[k],
        decreases p@.len() - i,
    {
        if s[i] != p[i] {
            assert(s@.take(p@.len() as int)[i as int] != p@[i as int]);
            return false;
        }
        i += 1;
    }
    assert(s@.take(p@.len() as int) =~= p@);
    true
}

fn ends_with_chars(s: &Vec<char>, p: &Vec<char>) -> (r: bool)
    ensures
        r == has_suffix(s@, p@),
{
    if p.len() > s.len() {
        return false;
    }
    let sl = s.len();
    let off = sl - p.len();
    let mut i: usize = 0;
    while i < p.len()
        invariant
            sl == s@.len(),
            p@.len() <= s@.len(),
            off == s@.len() - p@.len(),
            i <= p@.len(),
            forall|k: int| 0 <= k < i ==> s@[off + k] == p@[k],
        decreases p@.len() - i,
    {
        assert(off + i < sl);
        if s[off + i] != p[i] {
            assert(s@.skip(off as int)[i as int] != p@[i as int]);
            return false;
        }
        i += 1;
    }
    assert(s@.skip(off as int) =~= p@);
    true
}

/// `x` is one of the character vectors of `keys`.
pub open spec fn in_keys(keys: Seq<Vec<char>>, x: Seq<char>) -> bool {
    exists|i: int| 0 <= i < keys.len() && #[trigger] keys[i]@ == x
}

/// `x` is one of the strings of `names`.
pub open spec fn in_names(names: Seq<String>, x: Seq<char>) -> bool {
    exists|i: int| 0 <= i < names.len() && #[trigger] names[i]@ == x
}

/// The regular expression that picks the `.png` links out of the index page.
pub open spec fn png_link_pattern() -> Seq<char> {
    r#"href="([^">]+\.png)"#@
}

/// A link names a page image: it leads neither up (`../`) nor to a query (`?`), and ends in `.png`.
pub open spec fn keeps_link(c: Seq<char>) -> bool {
    !has_prefix(c, "../"@) && !has_prefix(c, "?"@) && has_suffix(c, ".png"@)
}

/// The strictly increasing, duplicate-free list of the `.png` links of an HTML index page:
/// the links found by `png_link_pattern`, filtered by `keeps_link`, sorted and deduplicated.
/// `None` if the pattern is rejected.
pub fn image_names_from_listing(html: &str) -> (r: Option<Vec<String>>)
    ensures
        r is Some <==> regex_group1_matches(png_link_pattern(), html@) is Some,
        r matches Some(names) ==> {
            let found = regex_group1_matches(png_link_pattern(), html@).unwrap();
            &&& forall|i: int, j: int| 0 <= i < j < names@.len() ==> lex_lt(#[trigger] names@[i]@, #[trigger] names@[j]@)
            &&& forall|c: Seq<char>| #[trigger] in_names(names@, c) <==> (keeps_link(c) && found.contains(c))
        },
{
    let pattern = r#"href="([^">]+\.png)"#;
    let caps_opt = regex_group1(pattern, html);
    let caps = match caps_opt {
        Some(c) => c,
        None => {
            return None;
        },
    };
    Some(image_names_from_captures(&caps))
}

/// The image names among the captured links `caps`: those not starting with `../` or `?`
/// and ending with `.png`, without repeats, in increasing order.
pub fn image_names_from_captures(caps: &Vec<String>) -> (names: Vec<String>)
    ensures
        forall|i: int, j: int| 0 <= i < j < names@.len() ==> lex_lt(#[trigger] names@[i]@, #[trigger] names@[j]@),
        forall|c: Seq<char>| #[trigger] in_names(names@, c) <==> (keeps_link(c) && caps.deep_view().contains(c)),
{
    let ghost found = caps.deep_view();
    let up = chars_of("../");
    let query = chars_of("?");
    let png = chars_of(".png");
    let mut keys: Vec<Vec<char>> = Vec::new();
    let mut k: usize = 0;
    while k < caps.len()
        invariant
            found == caps.deep_view(),
            up@ == "../"@,
            query@ == "?"@,
            png@ == ".png"@,
            k <= caps@.len(),
            forall|i: int, j: int| 0 <= i < j < keys@.len() ==> lex_lt(#[trigger] keys@[i]@, #[trigger] keys@[j]@),
            forall|c: Seq<char>| #[trigger] in_keys(keys@, c) <==> (keeps_link(c) && found.take(k as int).contains(c)),
        decreases caps@.len() - k,
    {
        let cs = chars_of(caps[k].as_str());
        assert(cs@ == found[k as int]);
        let keep = !starts_with_chars(&cs, &up) && !starts_with_chars(&cs, &query) && ends_with_chars(&cs, &png);
        let ghost before_keys = keys@;
        if keep {
            insert_sorted(&mut keys, cs);
        }
        proof {
            let t0 = found.take(k as int);
            let t1 = found.take(k + 1);
            assert(t1 =~= t0.push(found[k as int]));
            assert forall|c: Seq<char>| t1.contains(c) <==> (t0.contains(c) || c == found[k as int]) by {
                if t1.contains(c) {
                    let p = choose|p: int| 0 <= p < t1.len() && #[trigger] t1[p] == c;
                    if p < k {
                        assert(t0[p] == c);
                    }
                }
                if t0.contains(c) {
                    let p = choose|p: int| 0 <= p < t0.len() && #[trigger] t0[p] == c;
                    assert(t1[p] == c);
                }
                if c == found[k as int] {
                    assert(t1[k as int] == c);
                }
            }
            if !keep {
                assert(keys@ == before_keys);
            }
        }
        k += 1;
    }
    proof {
        assert(found.take(caps@.len() as int) =~= found);
    }
    let mut names: Vec<String> = Vec::new();
    let mut i: usize = 0;
    while i < keys.len()
        invariant
            i <= keys@.len(),
            names@.len() == i,
            forall|j: int| 0 <= j < i ==> #[trigger] names@[j]@ == keys@[j]@,
        decreases keys@.len() - i,
    {
        let mut s = String::new();
        let key = &keys[i];
        let mut m: usize = 0;
        while m < key.len()
            invariant
                m <= key@.len(),
                s@ == key@.take(m as int),
            decreases key@.len() - m,
        {
            push_char(&mut s, key[m]);
            assert(key@.take(m + 1) =~= key@.take(m as int).push(key@[m as int]));
            m += 1;
        }
        assert(key@.take(key@.len() as int) =~= key@);
        names.push(s);
        i += 1;
    }
    proof {
        assert forall|a: int, b: int| 0 <= a < b < names@.len() implies lex_lt(#[trigger] names@[a]@, #[trigger] names@[b]@) by {
            assert(names@[a]@ == keys@[a]@ && names@[b]@ == keys@[b]@);
        }
        assert forall|c: Seq<char>| #[trigger] in_names(names@, c) <==> in_keys(keys@, c) by {
            if in_names(names@, c) {
                let j = choose|j: int| 0 <= j < names@.len() && #[trigger] names@[j]@ == c;
                assert(keys@[j]@ == c);
            }
            if in_keys(keys@, c) {
                let j = choose|j: int| 0 <= j < keys@.len() && #[trigger] keys@[j]@ == c;
                assert(names@[j]@ == c);
            }
        }
    }
    names
}

/// Inserts `c` into the strictly increasing list `keys` unless it is already there.
fn insert_sorted(keys: &mut Vec<Vec<char>>, c: Vec<char>)
    requires
        forall|i: int, j: int| 0 <= i < j < old(keys)@.len() ==> lex_lt(#[trigger] old(keys)@[i]@, #[trigger] old(keys)@[j]@),
    ensures
        forall|i: int, j: int| 0 <= i < j < final(keys)@.len() ==> lex_lt(#[trigger] final(keys)@[i]@, #[trigger] final(keys)@[j]@),
        forall|x: Seq<char>| #[trigger] in_keys(final(keys)@, x) <==> (in_keys(old(keys)@, x) || x == c@),
{
    let mut p: usize = 0;
    while p < keys.len() && lex_less(&keys[p], &c)
        invariant
            p <= keys@.len(),
            keys@ == old(keys)@,
            forall|i: int| 0 <= i < p ==> lex_lt(#[trigger] keys@[i]@, c@),
        decreases keys@.len() - p,
    {
        p += 1;
    }
    if p < keys.len() && same_chars(&keys[p], &c) {
        return;
    }
    let ghost old_keys = keys@;
    proof {
        if p < keys@.len() {
            lemma_lex_total(keys@[p as int]@, c@);
        }
    }
    keys.insert(p, c);
    proof {
        assert forall|i: int, j: int| 0 <= i < j < keys@.len() implies lex_lt(#[trigger] keys@[i]@, #[trigger] keys@[j]@) by {
            if j < p {
                assert(keys@[i] == old_keys[i] && keys@[j] == old_keys[j]);
            } else if j == p {
                assert(keys@[i] == old_keys[i]);
            } else if i == p {
                assert(keys@[j] == old_keys[j - 1]);
                if j - 1 > p {
                    lemma_lex_trans(keys@[i]@, old_keys[p as int]@, old_keys[j - 1]@);
                }
            } else if i < p {
                assert(keys@[i] == old_keys[i] && keys@[j] == old_keys[j - 1]);
            } else {
                assert(keys@[i] == old_keys[i - 1] && keys@[j] == old_keys[j - 1]);
            }
        }
        assert forall|x: Seq<char>| #[trigger] in_keys(keys@, x) <==> (in_keys(old_keys, x) || x == c@) by {
            if in_keys(keys@, x) {
                let i = choose|i: int| 0 <= i < keys@.len() && #[trigger] keys@[i]@ == x;
                if i < p {
                    assert(old_keys[i] == keys@[i]);
                } else if i > p {
                    assert(old_keys[i - 1] == keys@[i]);
                }
            }
            if in_keys(old_keys, x) {
                let i = choose|i: int| 0 <= i < old_keys.len() && #[trigger] old_keys[i]@ == x;
                if i < p {
                    assert(keys@[i] == old_keys[i]);
                } else {
                    assert(keys@[i + 1] == old_keys[i]);
                }
            }
            if x == c@ {
                assert(keys@[p as int]@ == x);
            }
        }
    }
}

} // verus!
