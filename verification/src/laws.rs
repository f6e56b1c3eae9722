//! Laws of the assembler, stated and proved against the public contracts:
//! where symbol values come from, when the size check fires, what the
//! bootstrap word is, and that an image only exists when every line
//! encoded.

use vstd::prelude::*;
use crate::encode::{
    boot_word, consts_of, is_ind_tok, mri_opcode, resolve_sym, spec_encode_all, spec_encode_line,
    spec_machine_code,
};
use crate::error::ErrV;
use crate::parse::{
    fold_lines, init_state, kw_data, kw_text, logical_lines, spec_parse_asm, step_line,
    strip_trailing_colons, ParseState,
};
use crate::table::{lemma_insert_wf, lemma_sym_idx, spec_insert, sym_idx, table_wf, SymV};
use crate::text::{tokens_of, trim};
use crate::value::spec_parse_value;

verus! {

/// A section keyword: flips the mode, consumes no address slot.
pub open spec fn is_section_kw(l: Seq<char>) -> bool {
    l == kw_data() || l == kw_text()
}

/// A label-definition line: ends in the terminator, consumes no slot.
pub open spec fn is_label_line(l: Seq<char>) -> bool {
    !is_section_kw(l) && l.len() > 0 && l.last() == ':'
}

/// A line that consumes one address slot: any data or code line.
pub open spec fn consumes_slot(l: Seq<char>) -> bool {
    !is_section_kw(l) && !(l.len() > 0 && l.last() == ':')
}

/// Number of address slots a run of logical lines consumes.
pub open spec fn slots(lines: Seq<Seq<char>>) -> nat
    decreases lines.len(),
{
    if lines.len() == 0 {
        0
    } else {
        (if consumes_slot(lines[0]) {
            1nat
        } else {
            0nat
        }) + slots(lines.drop_first())
    }
}

pub proof fn lemma_slots_prepend(l: Seq<char>, rest: Seq<Seq<char>>)
    ensures
        slots(seq![l] + rest) == (if consumes_slot(l) {
            1nat
        } else {
            0nat
        }) + slots(rest),
{
    let s = seq![l] + rest;
    assert(s[0] == l);
    assert(s.drop_first() =~= rest);
}

/// Where one table entry came from: a label line whose definition point had
/// `slots` address-consuming lines before it, or a data line binding the
/// name to a parsed value.
pub open spec fn entry_traced(lines: Seq<Seq<char>>, addr0: u16, k: int, e: SymV) -> bool {
    &&& 0 <= k < lines.len()
    &&& if e.is_label {
        &&& is_label_line(lines[k])
        &&& trim(strip_trailing_colons(lines[k])) == e.name
        &&& e.value == addr0 + slots(lines.take(k)) + 1
    } else {
        &&& consumes_slot(lines[k])
        &&& tokens_of(lines[k]).len() >= 2
        &&& tokens_of(lines[k])[0] == e.name
        &&& spec_parse_value(tokens_of(lines[k])[1]) == Ok::<u16, ErrV>(e.value)
    }
}

/// Everything in an inserted table is an old entry or the inserted one.
proof fn lemma_insert_contains(t: Seq<SymV>, name: Seq<char>, value: u16, is_label: bool, e: SymV)
    requires
        spec_insert(t, name, value, is_label).contains(e),
    ensures
        t.contains(e) || e == (SymV { name, value, is_label }),
{
    lemma_sym_idx(t, name);
    let r = spec_insert(t, name, value, is_label);
    let j = choose|j: int| 0 <= j < r.len() && r[j] == e;
    let i = sym_idx(t, name);
    if i >= 0 {
        if j != i {
            assert(t[j] == e);
        }
    } else {
        if j < t.len() {
            assert(t[j] == e);
        }
    }
}

/// Every entry of the table a successful fold produces either stood in the
/// starting table or is traced to the line that defined it, with a label's
/// value fixed by the address counter at its definition point.
pub proof fn lemma_fold_entries_traced(lines: Seq<Seq<char>>, st: ParseState)
    requires
        fold_lines(lines, st) is Ok,
    ensures
        forall|e: SymV|
            #[trigger] fold_lines(lines, st)->Ok_0.table.contains(e) ==> st.table.contains(e)
                || exists|k: int| entry_traced(lines, st.addr, k, e),
    decreases lines.len(),
{
    if lines.len() == 0 {
    } else {
        let l0 = lines[0];
        let rest = lines.drop_first();
        let st2 = step_line(st, l0)->Ok_0;
        lemma_fold_entries_traced(rest, st2);
        assert(lines.take(0) =~= Seq::<Seq<char>>::empty());
        assert forall|e: SymV|
            #[trigger] fold_lines(lines, st)->Ok_0.table.contains(e) implies st.table.contains(e)
            || exists|k: int| entry_traced(lines, st.addr, k, e) by {
            assert(fold_lines(rest, st2)->Ok_0.table.contains(e));
            if st2.table.contains(e) {
                if is_section_kw(l0) {
                    assert(st.table.contains(e));
                } else if l0.len() > 0 && l0.last() == ':' {
                    let nm = trim(strip_trailing_colons(l0));
                    let enew = SymV { name: nm, value: (st.addr + 1) as u16, is_label: true };
                    lemma_insert_contains(st.table, nm, (st.addr + 1) as u16, true, e);
                    if e == enew {
                        assert(slots(lines.take(0)) == 0);
                        assert(entry_traced(lines, st.addr, 0, e));
                    }
                } else if st.is_data {
                    let parts = tokens_of(l0);
                    let v = spec_parse_value(parts[1])->Ok_0;
                    let enew = SymV { name: parts[0], value: v, is_label: false };
                    lemma_insert_contains(st.table, parts[0], v, false, e);
                    if e == enew {
                        assert(entry_traced(lines, st.addr, 0, e));
                    }
                } else {
                    assert(st.table.contains(e));
                }
            } else {
                let k = choose|k: int| entry_traced(rest, st2.addr, k, e);
                assert(lines.take(k + 1) =~= seq![l0] + rest.take(k));
                lemma_slots_prepend(l0, rest.take(k));
                assert(lines[k + 1] == rest[k]);
                assert(entry_traced(lines, st.addr, k + 1, e));
            }
        }
    }
}

/// Symbol-table provenance: in a parsed source, every label's value is
/// exactly one more than the number of data and code lines before its
/// defining line (addresses count from the bootstrap word), and every
/// constant's value is exactly the parsed value of its data line.
pub proof fn lemma_parse_entries_traced(text: Seq<char>)
    requires
        spec_parse_asm(text) is Ok,
    ensures
        forall|e: SymV|
            #[trigger] spec_parse_asm(text)->Ok_0.0.contains(e) ==> exists|k: int|
                entry_traced(logical_lines(text), 0, k, e),
{
    lemma_fold_entries_traced(logical_lines(text), init_state());
    assert forall|e: SymV| #[trigger] spec_parse_asm(text)->Ok_0.0.contains(e) implies exists|
        k: int,
    | entry_traced(logical_lines(text), 0, k, e) by {
        assert(fold_lines(logical_lines(text), init_state())->Ok_0.table.contains(e));
        assert(!init_state().table.contains(e));
    }
}

/// A fold keeps the symbol table free of duplicate names.
pub proof fn lemma_fold_table_wf(lines: Seq<Seq<char>>, st: ParseState)
    requires
        fold_lines(lines, st) is Ok,
        table_wf(st.table),
    ensures
        table_wf(fold_lines(lines, st)->Ok_0.table),
    decreases lines.len(),
{
    if lines.len() == 0 {
    } else {
        let l0 = lines[0];
        let st2 = step_line(st, l0)->Ok_0;
        if is_section_kw(l0) {
        } else if l0.len() > 0 && l0.last() == ':' {
            lemma_insert_wf(st.table, trim(strip_trailing_colons(l0)), (st.addr + 1) as u16, true);
        } else if st.is_data {
            let parts = tokens_of(l0);
            lemma_insert_wf(st.table, parts[0], spec_parse_value(parts[1])->Ok_0, false);
        }
        lemma_fold_table_wf(lines.drop_first(), st2);
    }
}

/// Names are unique within a parsed table: a duplicate definition
/// overwrote the earlier binding instead of adding a second entry.
pub proof fn lemma_parse_table_wf(text: Seq<char>)
    requires
        spec_parse_asm(text) is Ok,
    ensures
        table_wf(spec_parse_asm(text)->Ok_0.0),
{
    lemma_fold_table_wf(logical_lines(text), init_state());
}

/// The size invariant: a table and code list whose sizes together exceed
/// 4096 words always fail with `ProgramTooLarge`, whatever they hold.
pub proof fn lemma_program_too_large(t: Seq<SymV>, code: Seq<Seq<char>>)
    requires
        t.len() + code.len() > 4096,
    ensures
        spec_machine_code(t, code) == Err::<Seq<u16>, ErrV>(ErrV::ProgramTooLarge),
{
}

/// A successful encoding yields one word per line, each line's own.
pub proof fn lemma_encode_all_words(t: Seq<SymV>, code: Seq<Seq<char>>)
    requires
        spec_encode_all(t, code) is Ok,
    ensures
        spec_encode_all(t, code)->Ok_0.len() == code.len(),
        forall|k: int|
            0 <= k < code.len() ==> spec_encode_line(t, #[trigger] code[k]) is Ok
                && spec_encode_all(t, code)->Ok_0[k] == spec_encode_line(t, code[k])->Ok_0,
    decreases code.len(),
{
    if code.len() == 0 {
    } else {
        let rest = code.drop_first();
        lemma_encode_all_words(t, rest);
        let w = spec_encode_line(t, code[0])->Ok_0;
        let ws = spec_encode_all(t, rest)->Ok_0;
        assert(spec_encode_all(t, code)->Ok_0 == seq![w] + ws);
        assert forall|k: int|
            0 <= k < code.len() implies spec_encode_line(t, #[trigger] code[k]) is Ok
            && spec_encode_all(t, code)->Ok_0[k] == spec_encode_line(t, code[k])->Ok_0 by {
            if k > 0 {
                assert(rest[k - 1] == code[k]);
                assert((seq![w] + ws)[k] == ws[k - 1]);
            }
        }
    }
}

/// Bootstrap correctness and the image layout: a produced image holds one
/// word per line after the constants, and its word 0 is the branch
/// `0x4000 | (1 + k)` for `k` data constants.
pub proof fn lemma_bootstrap_word(t: Seq<SymV>, code: Seq<Seq<char>>)
    requires
        spec_machine_code(t, code) is Ok,
    ensures
        spec_machine_code(t, code)->Ok_0.len() == 1 + consts_of(t).len() + code.len(),
        spec_machine_code(t, code)->Ok_0[0] == (0x4000u16 | ((1 + consts_of(t).len()) as u16)),
        forall|j: int|
            0 <= j < consts_of(t).len() ==> spec_machine_code(t, code)->Ok_0[1 + j] == consts_of(
                t,
            )[j],
{
    lemma_encode_all_words(t, code);
    let ws = spec_encode_all(t, code)->Ok_0;
    let img = seq![boot_word(t)] + consts_of(t) + ws;
    assert(spec_machine_code(t, code)->Ok_0 == img);
    assert(img[0] == boot_word(t));
}

/// No word from a bad line: an image exists only when every single line
/// encoded, and then each code word is that line's encoding. A line whose
/// mnemonic is unknown, or whose operand neither names a symbol nor parses
/// as a value, makes the whole run fail instead.
pub proof fn lemma_image_iff_all_lines_encode(t: Seq<SymV>, code: Seq<Seq<char>>)
    requires
        spec_machine_code(t, code) is Ok,
    ensures
        forall|k: int|
            0 <= k < code.len() ==> spec_encode_line(t, #[trigger] code[k]) is Ok
                && spec_machine_code(t, code)->Ok_0[1 + consts_of(t).len() + k]
                == spec_encode_line(t, code[k])->Ok_0,
{
    lemma_encode_all_words(t, code);
    let ws = spec_encode_all(t, code)->Ok_0;
    let img = seq![boot_word(t)] + consts_of(t) + ws;
    assert(spec_machine_code(t, code)->Ok_0 == img);
    assert forall|k: int|
        0 <= k < code.len() implies spec_encode_line(t, #[trigger] code[k]) is Ok
        && spec_machine_code(t, code)->Ok_0[1 + consts_of(t).len() + k]
        == spec_encode_line(t, code[k])->Ok_0 by {
        assert(img[1 + consts_of(t).len() + k] == ws[k]);
    }
}

/// The indirect bit: a memory-reference line with a third token `i` always
/// encodes with bit 15 set.
pub proof fn lemma_indirect_bit_set(t: Seq<SymV>, line: Seq<char>)
    requires
        spec_encode_line(t, line) is Ok,
        tokens_of(line).len() == 3,
        mri_opcode(tokens_of(line)[0]) is Some,
        is_ind_tok(tokens_of(line)[2]),
    ensures
        spec_encode_line(t, line)->Ok_0 & 0x8000 == 0x8000,
{
    let w = spec_encode_line(t, line)->Ok_0;
    let parts = tokens_of(line);
    let op = mri_opcode(parts[0])->0;
    let a = match resolve_sym(t, parts[1]) {
        Some(a) => a,
        None => spec_parse_value(parts[1])->Ok_0,
    };
    assert(w == a | (op << 12u16) | (1u16 << 15u16));
    assert((a | (op << 12u16) | (1u16 << 15u16)) & 0x8000 == 0x8000) by (bit_vector);
}

/// The direct form: a two-token memory-reference line whose operand
/// resolves below `0x8000` encodes with bit 15 clear.
pub proof fn lemma_indirect_bit_clear(t: Seq<SymV>, line: Seq<char>, a: u16)
    requires
        tokens_of(line).len() == 2,
        mri_opcode(tokens_of(line)[0]) is Some,
        resolve_sym(t, tokens_of(line)[1]) == Some(a) || (resolve_sym(t, tokens_of(line)[1])
            is None && spec_parse_value(tokens_of(line)[1]) == Ok::<u16, ErrV>(a)),
        a < 0x8000,
    ensures
        spec_encode_line(t, line) is Ok,
        spec_encode_line(t, line)->Ok_0 & 0x8000 == 0,
{
    let parts = tokens_of(line);
    let op = mri_opcode(parts[0])->0;
    assert(op <= 6);
    assert(spec_encode_line(t, line) == Ok::<u16, ErrV>(a | (op << 12u16) | (0u16 << 15u16)));
    assert(a < 0x8000 && op <= 6 ==> (a | (op << 12u16) | (0u16 << 15u16)) & 0x8000 == 0)
        by (bit_vector);
}

} // verus!
