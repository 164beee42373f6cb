use vstd::prelude::*;
use vstd::std_specs::iter::IteratorSpec;

verus! {

broadcast use vstd::string::group_string_axioms;

/// The characters of `s`, in order.
pub fn chars_of(s: &str) -> (r: Vec<char>)
    ensures
        r@ == s@,
{
    broadcast use vstd::string::axiom_spec_iter, vstd::string::next_postcondition;

    let mut it = s.chars();
    let mut v: Vec<char> = Vec::new();
    loop
        invariant
            it.obeys_prophetic_iter_laws(),
            it.decrease() is Some,
            v@ + it.remaining() == s@,
        decreases it.decrease()->0,
    {
        match it.next() {
            Some(c) => {
                v.push(c);
            },
            None => {
                return v;
            },
        }
    }
}

} // verus!

verus! {

/// Unicode `White_Space` characters, the set that `char::is_whitespace` accepts.
pub open spec fn is_ws(c: char) -> bool {
    c == '\t' || c == '\n' || c == '\u{0B}' || c == '\u{0C}' || c == '\r' || c == ' '
        || c == '\u{85}' || c == '\u{A0}' || c == '\u{1680}' || ('\u{2000}' <= c
        && c <= '\u{200A}') || c == '\u{2028}' || c == '\u{2029}' || c == '\u{202F}'
        || c == '\u{205F}' || c == '\u{3000}'
}

pub fn is_whitespace(c: char) -> (r: bool)
    ensures
        r == is_ws(c),
{
    c == '\t' || c == '\n' || c == '\u{0B}' || c == '\u{0C}' || c == '\r' || c == ' '
        || c == '\u{85}' || c == '\u{A0}' || c == '\u{1680}' || ('\u{2000}' <= c
        && c <= '\u{200A}') || c == '\u{2028}' || c == '\u{2029}' || c == '\u{202F}'
        || c == '\u{205F}' || c == '\u{3000}'
}

/// `lit` occurs in `s` starting at position `k`.
pub open spec fn has_at(s: Seq<char>, k: int, lit: Seq<char>) -> bool {
    0 <= k && k + lit.len() <= s.len() && s.subrange(k, k + lit.len()) == lit
}

pub fn has_at_exec(s: &Vec<char>, k: usize, lit: &Vec<char>) -> (r: bool)
    ensures
        r == has_at(s@, k as int, lit@),
{
    if k > s.len() || lit.len() > s.len() - k {
        return false;
    }
    let mut m: usize = 0;
    while m < lit.len()
        invariant
            k <= s@.len(),
            k + lit@.len() <= s@.len(),
            m <= lit@.len(),
            forall|x: int| 0 <= x < m ==> s@[k + x] == lit@[x],
        decreases lit@.len() - m,
    {
        let n = s.len();
        assert(k + m < n);
        if s[k + m] != lit[m] {
            assert(s@.subrange(k as int, k + lit@.len())[m as int] != lit@[m as int]);
            return false;
        }
        m = m + 1;
    }
    assert(s@.subrange(k as int, k + lit@.len()) =~= lit@);
    true
}

/// The first position at or after `i` where `d` occurs in `s`, or -1 when there is none.
pub open spec fn find_from(s: Seq<char>, d: Seq<char>, i: int) -> int
    decreases s.len() + 1 - i,
{
    if i < 0 || i + d.len() > s.len() {
        -1
    } else if has_at(s, i, d) {
        i
    } else {
        find_from(s, d, i + 1)
    }
}

pub proof fn lemma_find_from_found(s: Seq<char>, d: Seq<char>, i: int, k: int)
    requires
        0 <= i <= k,
        has_at(s, k, d),
    ensures
        i <= find_from(s, d, i) <= k,
        has_at(s, find_from(s, d, i), d),
    decreases k - i,
{
    if !has_at(s, i, d) {
        lemma_find_from_found(s, d, i + 1, k);
    }
}

pub fn find_exec(s: &Vec<char>, d: &Vec<char>, i: usize) -> (r: Option<usize>)
    ensures
        match r {
            Some(k) => k as int == find_from(s@, d@, i as int),
            None => find_from(s@, d@, i as int) == -1,
        },
{
    if d.len() == 0 && i <= s.len() {
        assert(s@.subrange(i as int, i as int) =~= d@);
        return Some(i);
    }
    let mut k: usize = i;
    while k <= s.len() && d.len() <= s.len() - k
        invariant
            i <= k,
            d@.len() > 0 || k > s@.len(),
            find_from(s@, d@, i as int) == find_from(s@, d@, k as int),
        decreases s@.len() + 1 - k,
    {
        if has_at_exec(s, k, d) {
            return Some(k);
        }
        k = k + 1;
    }
    None
}

/// The pieces of `s` from position `i` on, cut at each occurrence of `d`, scanning from the
/// left and taking occurrences that do not overlap.
pub open spec fn split_from(s: Seq<char>, d: Seq<char>, i: int) -> Seq<Seq<char>>
    decreases s.len() - i,
    via split_from_decreases
{
    let k = find_from(s, d, i);
    if i < 0 || i > s.len() || d.len() == 0 {
        seq![]
    } else if k < 0 {
        seq![s.subrange(i, s.len() as int)]
    } else {
        seq![s.subrange(i, k)] + split_from(s, d, k + d.len())
    }
}

#[via_fn]
proof fn split_from_decreases(s: Seq<char>, d: Seq<char>, i: int) {
    lemma_find_from_range(s, d, i);
}

pub open spec fn split(s: Seq<char>, d: Seq<char>) -> Seq<Seq<char>> {
    split_from(s, d, 0)
}

pub proof fn lemma_find_from_range(s: Seq<char>, d: Seq<char>, i: int)
    ensures
        find_from(s, d, i) == -1 || (i <= find_from(s, d, i) && has_at(s, find_from(s, d, i), d)),
    decreases s.len() + 1 - i,
{
    if !(i < 0 || i + d.len() > s.len()) && !has_at(s, i, d) {
        lemma_find_from_range(s, d, i + 1);
    }
}

/// Every piece of `split_from` occurs in `s` at or after `i`.
pub proof fn lemma_split_pieces_occur(s: Seq<char>, d: Seq<char>, i: int, j: int)
    requires
        0 <= i <= s.len(),
        d.len() > 0,
        0 <= j < split_from(s, d, i).len(),
    ensures
        exists|k: int| i <= k && #[trigger] has_at(s, k, split_from(s, d, i)[j]),
    decreases s.len() - i,
{
    let k = find_from(s, d, i);
    lemma_find_from_range(s, d, i);
    if k < 0 {
        assert(has_at(s, i, split_from(s, d, i)[j]));
    } else if j == 0 {
        assert(has_at(s, i, split_from(s, d, i)[j]));
    } else {
        assert(split_from(s, d, i)[j] == split_from(s, d, k + d.len())[j - 1]);
        lemma_split_pieces_occur(s, d, k + d.len(), j - 1);
    }
}

pub proof fn lemma_split_from_nonempty(s: Seq<char>, d: Seq<char>, i: int)
    requires
        0 <= i <= s.len(),
        d.len() > 0,
    ensures
        split_from(s, d, i).len() >= 1,
{
}

pub fn split_exec(s: &Vec<char>, d: &Vec<char>) -> (r: Vec<Vec<char>>)
    requires
        d@.len() > 0,
    ensures
        r@.len() == split(s@, d@).len(),
        forall|j: int| 0 <= j < r@.len() ==> #[trigger] r@[j]@ == split(s@, d@)[j],
{
    let mut r: Vec<Vec<char>> = Vec::new();
    let mut i: usize = 0;
    loop
        invariant
            d@.len() > 0,
            i <= s@.len(),
            r@.len() + split_from(s@, d@, i as int).len() == split(s@, d@).len(),
            forall|j: int| 0 <= j < r@.len() ==> #[trigger] r@[j]@ == split(s@, d@)[j],
            forall|j: int|
                0 <= j < split_from(s@, d@, i as int).len() ==> split(s@, d@)[r@.len() + j]
                    == #[trigger] split_from(s@, d@, i as int)[j],
        decreases s@.len() - i,
    {
        proof {
            lemma_find_from_range(s@, d@, i as int);
        }
        let f = find_exec(s, d, i);
        match f {
            Some(k) => {
                assert(has_at(s@, k as int, d@));
                let n = s.len();
                assert(k + d@.len() <= n);
                let piece = slice_exec(s, i, k);
                proof {
                    let rest = split_from(s@, d@, k + d@.len());
                    assert(split_from(s@, d@, i as int) == seq![s@.subrange(i as int, k as int)]
                        + rest);
                    assert forall|j: int| 0 <= j < rest.len() implies split(s@, d@)[r@.len()
                        + 1 + j] == #[trigger] rest[j] by {
                        assert(split_from(s@, d@, i as int)[j + 1] == rest[j]);
                    }
                    assert(split(s@, d@)[r@.len() as int] == split_from(s@, d@, i as int)[0]);
                }
                r.push(piece);
                i = k + d.len();
            },
            None => {
                let piece = slice_exec(s, i, s.len());
                proof {
                    assert(split(s@, d@)[r@.len() as int] == split_from(s@, d@, i as int)[0]);
                }
                r.push(piece);
                return r;
            },
        }
    }
}

/// A copy of the characters of `s` in `[a, b)`.
pub fn slice_exec(s: &Vec<char>, a: usize, b: usize) -> (r: Vec<char>)
    requires
        a <= b <= s@.len(),
    ensures
        r@ == s@.subrange(a as int, b as int),
{
    let mut r: Vec<char> = Vec::new();
    let mut k: usize = a;
    while k < b
        invariant
            a <= k <= b <= s@.len(),
            r@ == s@.subrange(a as int, k as int),
        decreases b - k,
    {
        r.push(s[k]);
        assert(s@.subrange(a as int, k + 1) =~= s@.subrange(a as int, k as int).push(s@[k as int]));
        k = k + 1;
    }
    r
}

/// Relies on String::push: appends one character.
#[verifier::external_body]
fn push_char(s: &mut String, c: char)
    ensures
        final(s)@ == old(s)@.push(c),
{
    s.push(c)
}

/// A `String` holding the characters of `v`.
pub fn string_of(v: &Vec<char>) -> (r: String)
    ensures
        r@ == v@,
{
    let mut r = String::new();
    let mut k: usize = 0;
    while k < v.len()
        invariant
            k <= v@.len(),
            r@ == v@.subrange(0, k as int),
        decreases v@.len() - k,
    {
        push_char(&mut r, v[k]);
        assert(v@.subrange(0, k + 1) =~= v@.subrange(0, k as int).push(v@[k as int]));
        k = k + 1;
    }
    assert(v@.subrange(0, v@.len() as int) =~= v@);
    r
}

} // verus!

verus! {

/// The first position at or after `i` that holds no whitespace, or `s.len()`.
pub open spec fn skip_ws(s: Seq<char>, i: int) -> int
    decreases s.len() - i,
{
    if 0 <= i < s.len() && is_ws(s[i]) {
        skip_ws(s, i + 1)
    } else {
        i
    }
}

/// The end of `s[..j]` once trailing whitespace is dropped.
pub open spec fn drop_ws_back(s: Seq<char>, j: int) -> int
    decreases j,
{
    if 0 < j <= s.len() && is_ws(s[j - 1]) {
        drop_ws_back(s, j - 1)
    } else {
        j
    }
}

/// `s` without leading and trailing whitespace.
pub open spec fn trim(s: Seq<char>) -> Seq<char> {
    let a = skip_ws(s, 0);
    if a >= s.len() {
        Seq::empty()
    } else {
        s.subrange(a, drop_ws_back(s, s.len() as int))
    }
}

pub proof fn lemma_skip_ws_bounds(s: Seq<char>, i: int)
    requires
        0 <= i <= s.len(),
    ensures
        i <= skip_ws(s, i) <= s.len(),
    decreases s.len() - i,
{
    if i < s.len() && is_ws(s[i]) {
        lemma_skip_ws_bounds(s, i + 1);
    }
}

pub proof fn lemma_drop_ws_back_bounds(s: Seq<char>, a: int, j: int)
    requires
        0 <= a < j <= s.len(),
        !is_ws(s[a]),
    ensures
        a < drop_ws_back(s, j) <= j,
    decreases j,
{
    if is_ws(s[j - 1]) {
        lemma_drop_ws_back_bounds(s, a, j - 1);
    }
}

pub fn trim_exec(s: &Vec<char>) -> (r: Vec<char>)
    ensures
        r@ == trim(s@),
{
    let mut a: usize = 0;
    while a < s.len() && is_whitespace(s[a])
        invariant
            a <= s@.len(),
            skip_ws(s@, 0) == skip_ws(s@, a as int),
        decreases s@.len() - a,
    {
        a = a + 1;
    }
    if a >= s.len() {
        return Vec::new();
    }
    let mut b: usize = s.len();
    proof {
        lemma_drop_ws_back_bounds(s@, a as int, b as int);
    }
    while is_whitespace(s[b - 1])
        invariant
            a < b <= s@.len(),
            !is_ws(s@[a as int]),
            drop_ws_back(s@, s@.len() as int) == drop_ws_back(s@, b as int),
        decreases b,
    {
        b = b - 1;
    }
    slice_exec(s, a, b)
}

} // verus!
