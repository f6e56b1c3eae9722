//! The source parser: raw assembly text to a symbol table and an ordered
//! list of instruction lines.
//!
//! The text is lowercased and cut into logical lines: comment lines are
//! dropped, a trailing comment marker is stripped, a line holding a label
//! terminator is split after each `:`, and blank pieces vanish. The lines
//! are then folded in order: section keywords flip the mode, labels record
//! the next address, data lines bind a name to a parsed value, and code
//! lines are kept verbatim.

use vstd::prelude::*;
use crate::error::{AsmError, ErrV};
use crate::table::{spec_insert, SymTable, SymV};
use crate::text::{
    lower, lower_chars_of, string_of, sub_vec, tokens_of, tokens_vec, trim, trim_vec,
};
use crate::value::{parse_value_chars, spec_parse_value};

verus! {

/// The pieces of `s` between newline characters; always at least one.
pub open spec fn split_nl(s: Seq<char>) -> Seq<Seq<char>>
    decreases s.len(),
{
    if s.len() == 0 {
        seq![Seq::<char>::empty()]
    } else if s[0] == '\n' {
        seq![Seq::<char>::empty()] + split_nl(s.drop_first())
    } else {
        let r = split_nl(s.drop_first());
        seq![seq![s[0]] + r[0]] + r.drop_first()
    }
}

pub proof fn lemma_split_nl_len(s: Seq<char>)
    ensures
        split_nl(s).len() >= 1,
    decreases s.len(),
{
    if s.len() == 0 {
    } else if s[0] == '\n' {
        lemma_split_nl_len(s.drop_first());
    } else {
        lemma_split_nl_len(s.drop_first());
    }
}

/// Splitting at the first newline: the head line, then the split of the
/// rest.
pub proof fn lemma_split_nl_decomp(s: Seq<char>, k: int)
    requires
        0 <= k <= s.len(),
        forall|j: int| 0 <= j < k ==> s[j] != '\n',
        k == s.len() || s[k] == '\n',
    ensures
        k == s.len() ==> split_nl(s) == seq![s],
        k < s.len() ==> split_nl(s) == seq![s.take(k)] + split_nl(s.skip(k + 1)),
    decreases k,
{
    lemma_split_nl_len(s);
    if k == 0 {
        if k == s.len() {
            assert(split_nl(s) =~~= seq![s]);
        } else {
            assert(s[0] == '\n');
            assert(s.take(0) =~= Seq::<char>::empty());
            assert(s.drop_first() =~= s.skip(1));
            assert(split_nl(s) =~~= seq![s.take(0)] + split_nl(s.skip(1)));
        }
    } else {
        let t = s.drop_first();
        assert(forall|j: int| 0 <= j < k - 1 ==> t[j] == s[j + 1]);
        lemma_split_nl_decomp(t, k - 1);
        lemma_split_nl_len(t);
        let r = split_nl(t);
        if k == s.len() {
            assert(r == seq![t]);
            assert(seq![s[0]] + r[0] =~= s);
            assert(split_nl(s) =~~= seq![s]);
        } else {
            assert(r == seq![t.take(k - 1)] + split_nl(t.skip(k)));
            assert(seq![s[0]] + r[0] =~= s.take(k));
            assert(t.skip(k) =~= s.skip(k + 1));
            assert(r.drop_first() =~= split_nl(s.skip(k + 1)));
            assert(split_nl(s) =~~= seq![s.take(k)] + split_nl(s.skip(k + 1)));
        }
    }
}

/// A line as `str::lines` sees it: one trailing carriage return removed.
pub open spec fn strip_cr(l: Seq<char>) -> Seq<char> {
    if l.len() > 0 && l.last() == '\r' {
        l.drop_last()
    } else {
        l
    }
}

/// Every trailing comment marker pair stripped from the end of the line.
pub open spec fn strip_comment_suffix(l: Seq<char>) -> Seq<char>
    decreases l.len(),
{
    if l.len() >= 2 && l[l.len() - 1] == '/' && l[l.len() - 2] == '/' {
        strip_comment_suffix(l.take(l.len() - 2))
    } else {
        l
    }
}

/// A line whose trimmed content begins with the comment marker.
pub open spec fn is_comment_line(l: Seq<char>) -> bool {
    let t = trim(l);
    t.len() >= 2 && t[0] == '/' && t[1] == '/'
}

/// The pieces of `s` cut after each label terminator, the terminator kept;
/// an empty sequence has no piece.
pub open spec fn split_colon(s: Seq<char>) -> Seq<Seq<char>>
    decreases s.len(),
{
    if s.len() == 0 {
        Seq::empty()
    } else if s[0] == ':' {
        seq![seq![':']] + split_colon(s.drop_first())
    } else {
        let r = split_colon(s.drop_first());
        if r.len() == 0 {
            seq![seq![s[0]]]
        } else {
            seq![seq![s[0]] + r[0]] + r.drop_first()
        }
    }
}

/// Splitting at the first label terminator: the head piece (terminator
/// included), then the split of the rest.
pub proof fn lemma_split_colon_decomp(s: Seq<char>, k: int)
    requires
        0 <= k <= s.len(),
        forall|j: int| 0 <= j < k ==> s[j] != ':',
        k == s.len() || s[k] == ':',
    ensures
        k == s.len() && s.len() == 0 ==> split_colon(s) == Seq::<Seq<char>>::empty(),
        k == s.len() && s.len() > 0 ==> split_colon(s) == seq![s],
        k < s.len() ==> split_colon(s) == seq![s.take(k + 1)] + split_colon(s.skip(k + 1)),
    decreases k,
{
    if k == 0 {
        if k == s.len() {
        } else {
            assert(s[0] == ':');
            assert(s.take(1) =~= seq![':']);
            assert(s.drop_first() =~= s.skip(1));
            assert(split_colon(s) =~~= seq![s.take(1)] + split_colon(s.skip(1)));
        }
    } else {
        let t = s.drop_first();
        assert(forall|j: int| 0 <= j < k - 1 ==> t[j] == s[j + 1]);
        lemma_split_colon_decomp(t, k - 1);
        let r = split_colon(t);
        if k == s.len() {
            if t.len() == 0 {
                assert(split_colon(s) =~~= seq![s]);
            } else {
                assert(r == seq![t]);
                assert(seq![s[0]] + r[0] =~= s);
                assert(split_colon(s) =~~= seq![s]);
            }
        } else {
            assert(r == seq![t.take(k)] + split_colon(t.skip(k)));
            assert(r.len() > 0);
            assert(seq![s[0]] + r[0] =~= s.take(k + 1));
            assert(t.skip(k) =~= s.skip(k + 1));
            assert(r.drop_first() =~= split_colon(s.skip(k + 1)));
            assert(split_colon(s) =~~= seq![s.take(k + 1)] + split_colon(s.skip(k + 1)));
        }
    }
}

/// Pieces trimmed, blanks dropped.
pub open spec fn clean_pieces(ps: Seq<Seq<char>>) -> Seq<Seq<char>>
    decreases ps.len(),
{
    if ps.len() == 0 {
        Seq::empty()
    } else if trim(ps[0]).len() == 0 {
        clean_pieces(ps.drop_first())
    } else {
        seq![trim(ps[0])] + clean_pieces(ps.drop_first())
    }
}

/// The logical lines one physical line contributes.
pub open spec fn logical_of_line(l: Seq<char>) -> Seq<Seq<char>> {
    if is_comment_line(l) {
        Seq::empty()
    } else {
        clean_pieces(split_colon(strip_comment_suffix(l)))
    }
}

/// The logical lines of a sequence of physical lines.
pub open spec fn lines_logical(ls: Seq<Seq<char>>) -> Seq<Seq<char>>
    decreases ls.len(),
{
    if ls.len() == 0 {
        Seq::empty()
    } else {
        logical_of_line(strip_cr(ls[0])) + lines_logical(ls.drop_first())
    }
}

/// The logical lines of raw assembly text: lowercased, cut at newlines,
/// comments dropped, label definitions split off, blanks removed, pieces
/// trimmed.
pub open spec fn logical_lines(text: Seq<char>) -> Seq<Seq<char>> {
    lines_logical(split_nl(lower(text)))
}

/// The section keyword that switches to data mode.
pub open spec fn kw_data() -> Seq<char> {
    seq!['d', 'a', 't', 'a', ':']
}

/// The section keyword that switches to code mode.
pub open spec fn kw_text() -> Seq<char> {
    seq!['t', 'e', 'x', 't', ':']
}

/// Every trailing label terminator stripped.
pub open spec fn strip_trailing_colons(s: Seq<char>) -> Seq<char>
    decreases s.len(),
{
    if s.len() > 0 && s.last() == ':' {
        strip_trailing_colons(s.drop_last())
    } else {
        s
    }
}

/// The state the parser folds over the logical lines: the table and code
/// built so far, the running address counter, and the section mode.
pub struct ParseState {
    pub table: Seq<SymV>,
    pub code: Seq<Seq<char>>,
    pub addr: u16,
    pub is_data: bool,
}

/// The parser's starting state: empty outputs, address 0, data mode.
pub open spec fn init_state() -> ParseState {
    ParseState { table: Seq::empty(), code: Seq::empty(), addr: 0, is_data: true }
}

/// One logical line applied to the parser state.
///
/// Section keywords flip the mode. A line ending in `:` records a label at
/// the next address. In data mode the first token names a constant and the
/// second is parsed as its value; in code mode the line is appended
/// verbatim. Data and code lines advance the address counter; a line that
/// would push it past the 16-bit range fails with `ProgramTooLarge`.
pub open spec fn step_line(st: ParseState, line: Seq<char>) -> Result<ParseState, ErrV> {
    if line == kw_data() {
        Ok(ParseState { is_data: true, ..st })
    } else if line == kw_text() {
        Ok(ParseState { is_data: false, ..st })
    } else if st.addr >= 0xffff {
        Err(ErrV::ProgramTooLarge)
    } else if line.len() > 0 && line.last() == ':' {
        let nm = trim(strip_trailing_colons(line));
        Ok(ParseState { table: spec_insert(st.table, nm, (st.addr + 1) as u16, true), ..st })
    } else if st.is_data {
        let parts = tokens_of(line);
        if parts.len() < 2 {
            Err(ErrV::MalformedValue(Seq::empty()))
        } else {
            match spec_parse_value(parts[1]) {
                Ok(v) => Ok(
                    ParseState {
                        table: spec_insert(st.table, parts[0], v, false),
                        addr: (st.addr + 1) as u16,
                        ..st
                    },
                ),
                Err(_) => Err(ErrV::MalformedValue(parts[1])),
            }
        }
    } else {
        Ok(ParseState { code: st.code.push(line), addr: (st.addr + 1) as u16, ..st })
    }
}

/// The logical lines folded in order from `st`; the first error wins.
pub open spec fn fold_lines(lines: Seq<Seq<char>>, st: ParseState) -> Result<ParseState, ErrV>
    decreases lines.len(),
{
    if lines.len() == 0 {
        Ok(st)
    } else {
        match step_line(st, lines[0]) {
            Ok(st2) => fold_lines(lines.drop_first(), st2),
            Err(e) => Err(e),
        }
    }
}

/// What [`parse_asm`] returns for a text: the symbol table and code list of
/// a full fold over the logical lines, or its first error.
pub open spec fn spec_parse_asm(text: Seq<char>) -> Result<(Seq<SymV>, Seq<Seq<char>>), ErrV> {
    match fold_lines(logical_lines(text), init_state()) {
        Ok(st) => Ok((st.table, st.code)),
        Err(e) => Err(e),
    }
}

/// First position at or after `from` holding `c`, or the length.
fn find_char_from(v: &Vec<char>, from: usize, c: char) -> (r: usize)
    requires
        from <= v@.len(),
    ensures
        from <= r <= v@.len(),
        forall|k: int| from <= k < r ==> v@[k] != c,
        r < v@.len() ==> v@[r as int] == c,
{
    let n = v.len();
    let mut i = from;
    while i < n && v[i] != c
        invariant
            from <= i <= n,
            n == v@.len(),
            forall|k: int| from <= k < i ==> v@[k] != c,
        decreases n - i,
    {
        i = i + 1;
    }
    i
}

/// Appends the logical lines of one physical line (carriage return already
/// removed) to `out`.
fn append_line_pieces(out: &mut Vec<Vec<char>>, line: &Vec<char>)
    ensures
        final(out).deep_view() == old(out).deep_view() + logical_of_line(line@),
{
    let ghost base = out.deep_view();
    let t = trim_vec(line);
    if t.len() >= 2 {
        let c0 = t[0];
        let c1 = t[1];
        if c0 == '/' && c1 == '/' {
            proof {
                assert(is_comment_line(line@));
                assert(base + logical_of_line(line@) =~~= base);
            }
            return ;
        }
    }
    proof {
        assert(!is_comment_line(line@));
    }
    // strip every trailing comment marker pair
    let mut e = line.len();
    proof {
        assert(line@.take(line@.len() as int) =~= line@);
    }
    while e >= 2 && line[e - 1] == '/' && line[e - 2] == '/'
        invariant
            e <= line@.len(),
            strip_comment_suffix(line@) == strip_comment_suffix(line@.take(e as int)),
        decreases e,
    {
        proof {
            let cur = line@.take(e as int);
            assert(cur.take(e - 2) =~= line@.take(e - 2));
        }
        e = e - 2;
    }
    let stripped = sub_vec(line, 0, e);
    proof {
        assert(line@.take(line@.len() as int) =~= line@);
        assert(stripped@ == line@.take(e as int));
        assert(strip_comment_suffix(stripped@) == stripped@);
        assert(stripped@ == strip_comment_suffix(line@));
    }
    // cut after each label terminator, trim, drop blanks
    let m = stripped.len();
    let mut p: usize = 0;
    proof {
        assert(stripped@.skip(0) =~= stripped@);
    }
    while p < m
        invariant
            p <= m,
            m == stripped@.len(),
            stripped@ == strip_comment_suffix(line@),
            !is_comment_line(line@),
            base + logical_of_line(line@) == out.deep_view() + clean_pieces(
                split_colon(stripped@.skip(p as int)),
            ),
        decreases m - p,
    {
        let ghost suf = stripped@.skip(p as int);
        let j = find_char_from(&stripped, p, ':');
        let hi = if j < m {
            j + 1
        } else {
            m
        };
        let piece = sub_vec(&stripped, p, hi);
        proof {
            assert(forall|k: int| 0 <= k < j - p ==> suf[k] == stripped@[p + k]);
            if j < m {
                assert(suf[j - p as int] == stripped@[j as int]);
            }
            lemma_split_colon_decomp(suf, j - p as int);
            if j < m {
                assert(suf.take(j - p + 1 as int) =~= piece@);
                assert(suf.skip(j - p + 1 as int) =~= stripped@.skip(j + 1 as int));
                assert(split_colon(suf) == seq![piece@] + split_colon(
                    stripped@.skip(j + 1 as int),
                ));
            } else {
                assert(suf =~= piece@);
                assert(split_colon(suf) == seq![piece@]);
                assert(stripped@.skip(m as int) =~= Seq::<char>::empty());
                assert(split_colon(suf) =~~= seq![piece@] + split_colon(
                    stripped@.skip(m as int),
                ));
            }
            let rest = split_colon(stripped@.skip(hi as int));
            assert((seq![piece@] + rest).drop_first() =~= rest);
        }
        let tp = trim_vec(&piece);
        if tp.len() > 0 {
            let ghost pre = out.deep_view();
            out.push(tp);
            proof {
                assert(out.deep_view() =~~= pre + seq![trim(piece@)]);
            }
        }
        p = hi;
    }
    proof {
        assert(stripped@.skip(m as int) =~= Seq::<char>::empty());
    }
}

/// An empty text contributes no logical line.
proof fn lemma_lines_logical_empty()
    ensures
        lines_logical(split_nl(Seq::<char>::empty())) == Seq::<Seq<char>>::empty(),
{
    let e = Seq::<char>::empty();
    assert(split_nl(e) == seq![e]);
    assert(strip_cr(e) == e);
    assert(strip_comment_suffix(e) == e);
    assert(split_colon(e) == Seq::<Seq<char>>::empty());
    assert(trim(e) =~= e);
    assert(!is_comment_line(e));
    assert(clean_pieces(Seq::<Seq<char>>::empty()) == Seq::<Seq<char>>::empty());
    assert(logical_of_line(e) == Seq::<Seq<char>>::empty());
    assert((seq![e]).drop_first() =~= Seq::<Seq<char>>::empty());
    assert(lines_logical(Seq::<Seq<char>>::empty()) == Seq::<Seq<char>>::empty());
    assert(lines_logical(split_nl(e)) =~~= Seq::<Seq<char>>::empty());
}

/// The logical lines of a whole text, each as a character vector.
fn logical_lines_vec(text: &str) -> (r: Vec<Vec<char>>)
    ensures
        r.deep_view() == logical_lines(text@),
{
    let chars = lower_chars_of(text);
    let n = chars.len();
    let mut out: Vec<Vec<char>> = Vec::new();
    let mut i: usize = 0;
    proof {
        assert(chars@.skip(0) =~= chars@);
        assert(out.deep_view() + lines_logical(split_nl(chars@)) =~~= lines_logical(
            split_nl(chars@),
        ));
    }
    while i < n
        invariant
            i <= n,
            n == chars@.len(),
            chars@ == lower(text@),
            logical_lines(text@) == out.deep_view() + lines_logical(
                split_nl(chars@.skip(i as int)),
            ),
        decreases n - i,
    {
        let ghost suf = chars@.skip(i as int);
        let j = find_char_from(&chars, i, '\n');
        let mut line = sub_vec(&chars, i, j);
        proof {
            assert(forall|k: int| 0 <= k < j - i ==> suf[k] == chars@[i + k]);
            if j < n {
                assert(suf[j - i as int] == chars@[j as int]);
            }
            lemma_split_nl_decomp(suf, j - i as int);
            if j < n {
                assert(suf.take(j - i as int) =~= line@);
                assert(suf.skip(j - i + 1 as int) =~= chars@.skip(j + 1 as int));
                assert(split_nl(suf) == seq![line@] + split_nl(chars@.skip(j + 1 as int)));
                let rest = split_nl(chars@.skip(j + 1 as int));
                assert((seq![line@] + rest).drop_first() =~= rest);
                assert(lines_logical(split_nl(suf)) == logical_of_line(strip_cr(line@))
                    + lines_logical(rest));
            } else {
                assert(suf =~= line@);
                assert(split_nl(suf) == seq![line@]);
                assert((seq![line@]).drop_first() =~= Seq::<Seq<char>>::empty());
                assert(lines_logical(Seq::<Seq<char>>::empty()) == Seq::<Seq<char>>::empty());
                assert(lines_logical(seq![line@]) == logical_of_line(strip_cr(line@))
                    + lines_logical(Seq::<Seq<char>>::empty()));
                assert(lines_logical(split_nl(suf)) =~~= logical_of_line(strip_cr(line@)));
            }
        }
        // one trailing carriage return is part of the line break
        let ghost raw = line@;
        let ll = line.len();
        if ll > 0 && line[ll - 1] == '\r' {
            line.pop();
            proof {
                assert(line@ =~= strip_cr(raw));
            }
        } else {
            proof {
                assert(line@ == strip_cr(raw));
            }
        }
        append_line_pieces(&mut out, &line);
        if j < n {
            i = j + 1;
        } else {
            proof {
                assert(chars@.skip(n as int) =~= Seq::<char>::empty());
                lemma_lines_logical_empty();
                assert(out.deep_view() + lines_logical(split_nl(chars@.skip(n as int)))
                    =~~= out.deep_view());
            }
            i = n;
        }
    }
    proof {
        assert(chars@.skip(n as int) =~= Seq::<char>::empty());
        lemma_lines_logical_empty();
        assert(out.deep_view() + lines_logical(split_nl(chars@.skip(n as int))) =~~= out.deep_view());
    }
    out
}

/// True exactly when the line is the given five-character keyword.
fn is_kw(line: &Vec<char>, k0: char, k1: char, k2: char, k3: char, k4: char) -> (r: bool)
    ensures
        r == (line@ == seq![k0, k1, k2, k3, k4]),
{
    if line.len() == 5 && line[0] == k0 && line[1] == k1 && line[2] == k2 && line[3] == k3
        && line[4] == k4 {
        proof {
            assert(line@ =~= seq![k0, k1, k2, k3, k4]);
        }
        true
    } else {
        proof {
            if line@ == seq![k0, k1, k2, k3, k4] {
                assert(line@.len() == 5);
                assert(line@[0] == k0 && line@[1] == k1 && line@[2] == k2 && line@[3] == k3
                    && line@[4] == k4);
            }
        }
        false
    }
}

/// The label name of a definition line: trailing terminators stripped, then
/// trimmed.
fn label_name(line: &Vec<char>) -> (r: Vec<char>)
    ensures
        r@ == trim(strip_trailing_colons(line@)),
{
    let mut e = line.len();
    proof {
        assert(line@.take(line@.len() as int) =~= line@);
    }
    while e > 0 && line[e - 1] == ':'
        invariant
            e <= line@.len(),
            strip_trailing_colons(line@) == strip_trailing_colons(line@.take(e as int)),
        decreases e,
    {
        proof {
            let cur = line@.take(e as int);
            assert(cur.drop_last() =~= line@.take(e - 1));
        }
        e = e - 1;
    }
    proof {
        assert(line@.take(line@.len() as int) =~= line@);
        assert(strip_trailing_colons(line@.take(e as int)) == line@.take(e as int));
    }
    let stripped = sub_vec(line, 0, e);
    trim_vec(&stripped)
}

/// Parses assembly text into a symbol table and the ordered instruction
/// lines.
///
/// Returns exactly [`spec_parse_asm`] of the text: `Ok` with the table and
/// code of a full fold over the logical lines, `MalformedValue` on the
/// first data line whose value token fails the value grammar (or is
/// missing), and `ProgramTooLarge` when the running address counter would
/// leave the 16-bit range.
pub fn parse_asm(contents: String) -> (r: Result<(SymTable, Vec<String>), AsmError>)
    ensures
        match r {
            Ok(p) => spec_parse_asm(contents@) == Ok::<(Seq<SymV>, Seq<Seq<char>>), ErrV>(
                (p.0@, p.1.deep_view()),
            ),
            Err(e) => spec_parse_asm(contents@) == Err::<(Seq<SymV>, Seq<Seq<char>>), ErrV>(e@),
        },
{
    let lines = logical_lines_vec(contents.as_str());
    let nl = lines.len();
    let mut table = SymTable::new();
    let mut code: Vec<String> = Vec::new();
    let mut addr: u16 = 0;
    let mut is_data: bool = true;
    let mut k: usize = 0;
    proof {
        assert(lines.deep_view().skip(0) =~= lines.deep_view());
        assert(table@ =~= init_state().table);
        assert(code.deep_view() =~= init_state().code);
    }
    while k < nl
        invariant
            k <= nl,
            nl == lines@.len(),
            lines.deep_view() == logical_lines(contents@),
            fold_lines(logical_lines(contents@), init_state()) == fold_lines(
                lines.deep_view().skip(k as int),
                ParseState { table: table@, code: code.deep_view(), addr, is_data },
            ),
        decreases nl - k,
    {
        let ghost cur = ParseState { table: table@, code: code.deep_view(), addr, is_data };
        let ghost rest = lines.deep_view().skip(k as int);
        let line = &lines[k];
        proof {
            assert(rest[0] == line@);
            assert(rest.drop_first() =~= lines.deep_view().skip(k + 1 as int));
        }
        if is_kw(line, 'd', 'a', 't', 'a', ':') {
            is_data = true;
            proof {
                assert(step_line(cur, line@) == Ok::<ParseState, ErrV>(
                    ParseState { is_data: true, ..cur },
                ));
            }
        } else if is_kw(line, 't', 'e', 'x', 't', ':') {
            is_data = false;
            proof {
                assert(step_line(cur, line@) == Ok::<ParseState, ErrV>(
                    ParseState { is_data: false, ..cur },
                ));
            }
        } else if addr >= 0xffff {
            proof {
                assert(step_line(cur, line@) == Err::<ParseState, ErrV>(ErrV::ProgramTooLarge));
            }
            return Err(AsmError::ProgramTooLarge);
        } else if line.len() > 0 && line[line.len() - 1] == ':' {
            let nm = label_name(line);
            let nm_s = string_of(&nm);
            table.insert(nm_s, addr + 1, true);
            proof {
                assert(step_line(cur, line@) == Ok::<ParseState, ErrV>(
                    ParseState {
                        table: spec_insert(cur.table, trim(strip_trailing_colons(line@)), (addr
                            + 1) as u16, true),
                        ..cur
                    },
                ));
            }
        } else if is_data {
            let toks = tokens_vec(line);
            proof {
                assert(toks.deep_view() == tokens_of(line@));
            }
            if toks.len() < 2 {
                let empty_tok = String::new();
                proof {
                    assert(step_line(cur, line@) == Err::<ParseState, ErrV>(
                        ErrV::MalformedValue(Seq::empty()),
                    ));
                }
                return Err(AsmError::MalformedValue(empty_tok));
            }
            proof {
                assert(toks.deep_view()[0] == toks@[0]@);
                assert(toks.deep_view()[1] == toks@[1]@);
            }
            match parse_value_chars(&toks[1]) {
                Ok(v) => {
                    let nm_s = string_of(&toks[0]);
                    table.insert(nm_s, v, false);
                    addr = addr + 1;
                    proof {
                        assert(step_line(cur, line@) == Ok::<ParseState, ErrV>(
                            ParseState {
                                table: spec_insert(cur.table, tokens_of(line@)[0], v, false),
                                addr: (cur.addr + 1) as u16,
                                ..cur
                            },
                        ));
                    }
                },
                Err(_) => {
                    let tok_s = string_of(&toks[1]);
                    proof {
                        assert(step_line(cur, line@) == Err::<ParseState, ErrV>(
                            ErrV::MalformedValue(tokens_of(line@)[1]),
                        ));
                    }
                    return Err(AsmError::MalformedValue(tok_s));
                },
            }
        } else {
            let line_s = string_of(line);
            code.push(line_s);
            addr = addr + 1;
            proof {
                assert(code.deep_view() =~~= cur.code.push(line@));
                assert(step_line(cur, line@) == Ok::<ParseState, ErrV>(
                    ParseState { code: cur.code.push(line@), addr: (cur.addr + 1) as u16, ..cur },
                ));
            }
        }
        k = k + 1;
    }
    proof {
        assert(lines.deep_view().skip(nl as int) =~= Seq::<Seq<char>>::empty());
    }
    Ok((table, code))
}

} // verus!
