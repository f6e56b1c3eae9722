//! Character and line utilities shared by the parser: ASCII lowercasing,
//! whitespace handling, trimming, and the splitting steps that turn raw
//! assembly text into logical lines.

use vstd::prelude::*;

verus! {

/// Whitespace as the parser understands it: the ASCII blank characters.
pub open spec fn is_space(c: char) -> bool {
    c == ' ' || c == '\t' || c == '\n' || c == '\r' || c == '\u{b}' || c == '\u{c}'
}

/// Exec mirror of [`is_space`].
pub fn space_char(c: char) -> (r: bool)
    ensures
        r == is_space(c),
{
    c == ' ' || c == '\t' || c == '\n' || c == '\r' || c == '\u{b}' || c == '\u{c}'
}

/// An ASCII capital letter mapped to its small form; any other character is
/// left as it is.
pub open spec fn lower_char(c: char) -> char {
    if 'A' <= c && c <= 'Z' {
        (((c as u8) + 32) as char)
    } else {
        c
    }
}

/// A character sequence with every ASCII capital lowered.
pub open spec fn lower(s: Seq<char>) -> Seq<char> {
    s.map_values(|c: char| lower_char(c))
}

/// Exec mirror of [`lower_char`].
pub fn to_lower_char(c: char) -> (r: char)
    ensures
        r == lower_char(c),
{
    if 'A' <= c && c <= 'Z' {
        ((c as u8) + 32) as char
    } else {
        c
    }
}

/// The characters of a string, lowercased, as a vector.
pub fn lower_chars_of(s: &str) -> (r: Vec<char>)
    ensures
        r@ == lower(s@),
{
    let n: usize = s.unicode_len();
    let mut out: Vec<char> = Vec::new();
    let mut i: usize = 0;
    while i < n
        invariant
            n == s@.len(),
            i <= n,
            out@ == lower(s@.take(i as int)),
        decreases n - i,
    {
        let c = s.get_char(i);
        out.push(to_lower_char(c));
        proof {
            assert(s@.take(i + 1 as int).drop_last() =~= s@.take(i as int));
            assert(out@ =~= lower(s@.take(i + 1 as int)));
        }
        i = i + 1;
    }
    proof {
        assert(s@.take(n as int) =~= s@);
    }
    out
}

/// A contiguous piece of a character vector, as a fresh vector.
pub fn sub_vec(v: &Vec<char>, from: usize, to: usize) -> (r: Vec<char>)
    requires
        from <= to <= v@.len(),
    ensures
        r@ == v@.subrange(from as int, to as int),
{
    let mut out: Vec<char> = Vec::new();
    let mut i: usize = from;
    while i < to
        invariant
            from <= i <= to <= v@.len(),
            out@ == v@.subrange(from as int, i as int),
        decreases to - i,
    {
        out.push(v[i]);
        proof {
            assert(out@ =~= v@.subrange(from as int, i + 1 as int));
        }
        i = i + 1;
    }
    out
}

/// Number of leading blanks of a sequence.
pub open spec fn leading_spaces(s: Seq<char>) -> nat
    decreases s.len(),
{
    if s.len() == 0 || !is_space(s[0]) {
        0
    } else {
        1 + leading_spaces(s.drop_first())
    }
}

pub proof fn lemma_leading_spaces(s: Seq<char>)
    ensures
        leading_spaces(s) <= s.len(),
        forall|i: int| 0 <= i < leading_spaces(s) ==> is_space(#[trigger] s[i]),
        leading_spaces(s) < s.len() ==> !is_space(s[leading_spaces(s) as int]),
    decreases s.len(),
{
    if s.len() == 0 || !is_space(s[0]) {
    } else {
        lemma_leading_spaces(s.drop_first());
        assert forall|i: int| 0 <= i < leading_spaces(s) implies is_space(#[trigger] s[i]) by {
            if i > 0 {
                assert(s.drop_first()[i - 1] == s[i]);
            }
        }
    }
}

/// Number of trailing blanks of a sequence.
pub open spec fn trailing_spaces(s: Seq<char>) -> nat
    decreases s.len(),
{
    if s.len() == 0 || !is_space(s.last()) {
        0
    } else {
        1 + trailing_spaces(s.drop_last())
    }
}

pub proof fn lemma_trailing_spaces(s: Seq<char>)
    ensures
        trailing_spaces(s) <= s.len(),
        forall|i: int|
            s.len() - trailing_spaces(s) <= i < s.len() ==> is_space(#[trigger] s[i]),
        trailing_spaces(s) < s.len() ==> !is_space(s[s.len() - trailing_spaces(s) - 1]),
    decreases s.len(),
{
    if s.len() == 0 || !is_space(s.last()) {
    } else {
        lemma_trailing_spaces(s.drop_last());
        assert forall|i: int|
            s.len() - trailing_spaces(s) <= i < s.len() implies is_space(#[trigger] s[i]) by {
            if i < s.len() - 1 {
                assert(s.drop_last()[i] == s[i]);
            }
        }
    }
}

/// The sequence with leading and trailing blanks removed.
pub open spec fn trim(s: Seq<char>) -> Seq<char> {
    let a = leading_spaces(s) as int;
    let b = s.len() - trailing_spaces(s);
    if a < b {
        s.subrange(a, b)
    } else {
        Seq::empty()
    }
}

/// Exec trim over a character vector.
pub fn trim_vec(v: &Vec<char>) -> (r: Vec<char>)
    ensures
        r@ == trim(v@),
{
    let n = v.len();
    let mut a: usize = 0;
    while a < n && space_char(v[a])
        invariant
            a <= n,
            n == v@.len(),
            forall|i: int| 0 <= i < a ==> is_space(#[trigger] v@[i]),
        decreases n - a,
    {
        a = a + 1;
    }
    let mut b: usize = n;
    while b > a && space_char(v[b - 1])
        invariant
            a <= b <= n,
            n == v@.len(),
            forall|i: int| 0 <= i < a ==> is_space(#[trigger] v@[i]),
            forall|i: int| b <= i < n ==> is_space(#[trigger] v@[i]),
        decreases b,
    {
        b = b - 1;
    }
    proof {
        lemma_leading_spaces(v@);
        lemma_trailing_spaces(v@);
        if a == b {
            // every character is blank: both scans met in the middle
            assert(forall|i: int| 0 <= i < n ==> is_space(#[trigger] v@[i]));
            assert(leading_spaces(v@) + trailing_spaces(v@) >= n) by {
                if leading_spaces(v@) < n {
                    let k = leading_spaces(v@) as int;
                    assert(!is_space(v@[k]));
                }
            }
            assert(trim(v@) =~= Seq::<char>::empty());
        } else {
            assert(!is_space(v@[a as int]));
            assert(!is_space(v@[b - 1]));
            assert(leading_spaces(v@) == a) by {
                if leading_spaces(v@) < a {
                    assert(is_space(v@[leading_spaces(v@) as int]));
                }
            }
            assert(trailing_spaces(v@) == n - b) by {
                if trailing_spaces(v@) < n - b {
                    assert(is_space(v@[n - trailing_spaces(v@) - 1]));
                }
            }
        }
    }
    let r = sub_vec(v, a, b);
    proof {
        if a != b {
            assert(r@ =~= trim(v@));
        }
    }
    r
}

/// Character-for-character equality of two string slices.
pub fn str_eq(a: &str, b: &str) -> (r: bool)
    ensures
        r == (a@ == b@),
{
    let n = a.unicode_len();
    if n != b.unicode_len() {
        proof {
            assert(a@.len() != b@.len());
        }
        return false;
    }
    let mut i: usize = 0;
    while i < n
        invariant
            i <= n,
            n == a@.len() && n == b@.len(),
            forall|j: int| 0 <= j < i ==> a@[j] == b@[j],
        decreases n - i,
    {
        if a.get_char(i) != b.get_char(i) {
            return false;
        }
        i = i + 1;
    }
    proof {
        assert(a@ =~= b@);
    }
    true
}

/// Character-for-character equality of a string slice and a character
/// vector.
pub fn str_eq_vec(s: &str, v: &Vec<char>) -> (r: bool)
    ensures
        r == (s@ == v@),
{
    let n = s.unicode_len();
    if n != v.len() {
        proof {
            assert(s@.len() != v@.len());
        }
        return false;
    }
    let mut i: usize = 0;
    while i < n
        invariant
            i <= n,
            n == s@.len() && n == v@.len(),
            forall|j: int| 0 <= j < i ==> s@[j] == v@[j],
        decreases n - i,
    {
        if s.get_char(i) != v[i] {
            return false;
        }
        i = i + 1;
    }
    proof {
        assert(s@ =~= v@);
    }
    true
}

/// Relies on `String::push`: it appends exactly the given character to the
/// end of the string.
pub assume_specification[ String::push ](s: &mut String, ch: char)
    ensures
        final(s)@ == old(s)@.push(ch),
;

/// A character vector turned into an owned string.
pub fn string_of(v: &Vec<char>) -> (s: String)
    ensures
        s@ == v@,
{
    let mut s = String::new();
    let mut i: usize = 0;
    while i < v.len()
        invariant
            i <= v@.len(),
            s@ == v@.take(i as int),
        decreases v@.len() - i,
    {
        s.push(v[i]);
        proof {
            assert(s@ =~= v@.take(i + 1 as int));
        }
        i = i + 1;
    }
    proof {
        assert(v@.take(v@.len() as int) =~= v@);
    }
    s
}

/// The characters of a string, unchanged, as a vector.
pub fn chars_of(s: &str) -> (r: Vec<char>)
    ensures
        r@ == s@,
{
    let n: usize = s.unicode_len();
    let mut out: Vec<char> = Vec::new();
    let mut i: usize = 0;
    while i < n
        invariant
            n == s@.len(),
            i <= n,
            out@ == s@.take(i as int),
        decreases n - i,
    {
        out.push(s.get_char(i));
        proof {
            assert(out@ =~= s@.take(i + 1 as int));
        }
        i = i + 1;
    }
    proof {
        assert(s@.take(n as int) =~= s@);
    }
    out
}

/// A character vector with every ASCII capital lowered.
pub fn lower_vec(v: &Vec<char>) -> (r: Vec<char>)
    ensures
        r@ == lower(v@),
{
    let n = v.len();
    let mut out: Vec<char> = Vec::new();
    let mut i: usize = 0;
    while i < n
        invariant
            n == v@.len(),
            i <= n,
            out@ == lower(v@.take(i as int)),
        decreases n - i,
    {
        out.push(to_lower_char(v[i]));
        proof {
            assert(v@.take(i + 1 as int).drop_last() =~= v@.take(i as int));
            assert(out@ =~= lower(v@.take(i + 1 as int)));
        }
        i = i + 1;
    }
    proof {
        assert(v@.take(n as int) =~= v@);
    }
    out
}

/// Length of the leading run of non-blank characters.
pub open spec fn first_tok_len(s: Seq<char>) -> nat
    decreases s.len(),
{
    if s.len() == 0 || is_space(s[0]) {
        0
    } else {
        1 + first_tok_len(s.drop_first())
    }
}

/// The whitespace-separated tokens of a sequence, in order.
pub open spec fn tokens_of(s: Seq<char>) -> Seq<Seq<char>>
    decreases s.len(),
{
    if s.len() == 0 {
        Seq::empty()
    } else if is_space(s[0]) {
        tokens_of(s.drop_first())
    } else {
        let m = first_tok_len(s);
        let b = if m <= s.len() {
            m
        } else {
            s.len()
        };
        seq![s.take(b as int)] + tokens_of(s.skip(b as int))
    }
}

/// A leading non-blank run bounded by a blank (or the end) is exactly the
/// first token.
pub proof fn lemma_first_tok_len_is(s: Seq<char>, m: int)
    requires
        0 <= m <= s.len(),
        forall|i: int| 0 <= i < m ==> !is_space(#[trigger] s[i]),
        m == s.len() || is_space(s[m]),
    ensures
        first_tok_len(s) == m,
    decreases m,
{
    if m == 0 {
    } else {
        assert(!is_space(s[0]));
        lemma_first_tok_len_is(s.drop_first(), m - 1);
    }
}

/// Exec tokenizer: splits on runs of blanks, dropping them.
pub fn tokens_vec(v: &Vec<char>) -> (r: Vec<Vec<char>>)
    ensures
        r.deep_view() == tokens_of(v@),
{
    let n = v.len();
    let mut out: Vec<Vec<char>> = Vec::new();
    let mut i: usize = 0;
    proof {
        assert(v@.skip(0) =~= v@);
        assert(out.deep_view() + tokens_of(v@) =~~= tokens_of(v@));
    }
    while i < n
        invariant
            i <= n,
            n == v@.len(),
            tokens_of(v@) == out.deep_view() + tokens_of(v@.skip(i as int)),
        decreases n - i,
    {
        let ghost pre = out.deep_view();
        if space_char(v[i]) {
            proof {
                assert(v@.skip(i as int)[0] == v@[i as int]);
                assert(v@.skip(i as int).drop_first() =~= v@.skip(i + 1 as int));
            }
            i = i + 1;
        } else {
            let start = i;
            let mut j = i + 1;
            while j < n && !space_char(v[j])
                invariant
                    start < j <= n,
                    n == v@.len(),
                    forall|k: int| start <= k < j ==> !is_space(#[trigger] v@[k]),
                    !is_space(v@[start as int]),
                decreases n - j,
            {
                j = j + 1;
            }
            let tok = sub_vec(v, start, j);
            proof {
                let u = v@.skip(start as int);
                assert forall|k: int| 0 <= k < j - start implies !is_space(#[trigger] u[k]) by {
                    assert(u[k] == v@[start + k]);
                }
                if j < n {
                    assert(u[j - start as int] == v@[j as int]);
                }
                lemma_first_tok_len_is(u, j - start as int);
                assert(u.take(j - start as int) =~= v@.subrange(start as int, j as int));
                assert(u.skip(j - start as int) =~= v@.skip(j as int));
                assert(tokens_of(u) == seq![tok@] + tokens_of(v@.skip(j as int)));
            }
            out.push(tok);
            proof {
                assert(out.deep_view() =~~= pre + seq![tok@]);
                assert(out.deep_view() + tokens_of(v@.skip(j as int)) =~~= pre + (seq![tok@]
                    + tokens_of(v@.skip(j as int))));
            }
            i = j;
        }
    }
    proof {
        assert(v@.skip(n as int) =~= Seq::<char>::empty());
        assert(out.deep_view() + tokens_of(v@.skip(n as int)) =~~= out.deep_view());
    }
    out
}

} // verus!
