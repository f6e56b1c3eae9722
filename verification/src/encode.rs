//! The code generator: symbol table and instruction lines to the final
//! program image.
//!
//! The image is `[bootstrap] ++ [data constants in table order] ++
//! [encoded instructions]`. Memory-reference words carry the indirect flag
//! in bit 15, the opcode in bits 14-12 and the operand address in bits
//! 11-0; register-reference and I/O instructions are fixed words.

use vstd::prelude::*;
use crate::error::{AsmError, ErrV, res_view};
use crate::table::{sym_idx, lemma_sym_idx, SymTable, SymV};
use crate::text::{chars_of, string_of, tokens_of, tokens_vec};
use crate::value::{parse_value_chars, spec_parse_value};

verus! {

/// Opcode of a memory-reference mnemonic, if it is one.
pub open spec fn mri_opcode(s: Seq<char>) -> Option<u16> {
    if s == seq!['a', 'n', 'd'] {
        Some(0x0u16)
    } else if s == seq!['a', 'd', 'd'] {
        Some(0x1u16)
    } else if s == seq!['l', 'd', 'a'] {
        Some(0x2u16)
    } else if s == seq!['s', 't', 'a'] {
        Some(0x3u16)
    } else if s == seq!['b', 'u', 'n'] {
        Some(0x4u16)
    } else if s == seq!['b', 's', 'a'] {
        Some(0x5u16)
    } else if s == seq!['i', 's', 'z'] {
        Some(0x6u16)
    } else {
        None
    }
}

/// Complete word of a register-reference or I/O mnemonic, if it is one.
pub open spec fn fixed_word(s: Seq<char>) -> Option<u16> {
    if s == seq!['c', 'l', 'a'] {
        Some(0x7800u16)
    } else if s == seq!['c', 'l', 'e'] {
        Some(0x7400u16)
    } else if s == seq!['c', 'm', 'a'] {
        Some(0x7200u16)
    } else if s == seq!['c', 'm', 'e'] {
        Some(0x7100u16)
    } else if s == seq!['c', 'i', 'r'] {
        Some(0x7080u16)
    } else if s == seq!['c', 'i', 'l'] {
        Some(0x7040u16)
    } else if s == seq!['i', 'n', 'c'] {
        Some(0x7020u16)
    } else if s == seq!['s', 'p', 'a'] {
        Some(0x7010u16)
    } else if s == seq!['s', 'n', 'a'] {
        Some(0x7008u16)
    } else if s == seq!['s', 'z', 'a'] {
        Some(0x7004u16)
    } else if s == seq!['s', 'z', 'e'] {
        Some(0x7002u16)
    } else if s == seq!['h', 'l', 't'] {
        Some(0x7001u16)
    } else if s == seq!['i', 'n', 'p'] {
        Some(0xf800u16)
    } else if s == seq!['o', 'u', 't'] {
        Some(0xf400u16)
    } else if s == seq!['s', 'k', 'i'] {
        Some(0xf200u16)
    } else if s == seq!['s', 'k', 'o'] {
        Some(0xf100u16)
    } else if s == seq!['i', 'o', 'n'] {
        Some(0xf080u16)
    } else if s == seq!['i', 'o', 'f'] {
        Some(0xf040u16)
    } else {
        None
    }
}

/// The constants of the table: values of the non-label entries, in table
/// order.
pub open spec fn consts_of(t: Seq<SymV>) -> Seq<u16>
    decreases t.len(),
{
    if t.len() == 0 {
        Seq::empty()
    } else {
        let head: Seq<u16> = if !t[0].is_label {
            seq![t[0].value]
        } else {
            Seq::empty()
        };
        head + consts_of(t.drop_first())
    }
}

/// Appending one entry extends the constants by its value exactly when it
/// is no label.
pub proof fn lemma_consts_of_snoc(t: Seq<SymV>, e: SymV)
    ensures
        consts_of(t + seq![e]) == consts_of(t) + if !e.is_label {
            seq![e.value]
        } else {
            Seq::<u16>::empty()
        },
    decreases t.len(),
{
    let s = t + seq![e];
    if t.len() == 0 {
        assert(s.len() == 1 && s[0] == e);
        assert(s.drop_first() =~= Seq::<SymV>::empty());
        assert(consts_of(Seq::<SymV>::empty()) == Seq::<u16>::empty());
        assert(consts_of(s.drop_first()) == Seq::<u16>::empty());
        assert(t =~= Seq::<SymV>::empty());
        assert(consts_of(t) == Seq::<u16>::empty());
        if !e.is_label {
            assert(consts_of(s) =~= consts_of(t) + seq![e.value]);
        } else {
            assert(consts_of(s) =~= consts_of(t) + Seq::<u16>::empty());
        }
    } else {
        assert(s[0] == t[0]);
        assert(s.drop_first() =~= t.drop_first() + seq![e]);
        lemma_consts_of_snoc(t.drop_first(), e);
        if !e.is_label {
            assert(consts_of(s) =~= consts_of(t) + seq![e.value]);
        } else {
            assert(consts_of(s) =~= consts_of(t) + Seq::<u16>::empty());
        }
    }
}

/// There are never more constants than entries.
pub proof fn lemma_consts_of_len(t: Seq<SymV>)
    ensures
        consts_of(t).len() <= t.len(),
    decreases t.len(),
{
    if t.len() == 0 {
    } else {
        lemma_consts_of_len(t.drop_first());
    }
}

/// The address a symbol resolves to: its recorded address for a label, or
/// one past its position among the constants for an immediate.
pub open spec fn resolve_sym(t: Seq<SymV>, name: Seq<char>) -> Option<u16> {
    let i = sym_idx(t, name);
    if i >= 0 {
        if t[i].is_label {
            Some(t[i].value)
        } else {
            Some((1 + consts_of(t.take(i)).len()) as u16)
        }
    } else {
        None
    }
}

/// A token marking indirect addressing: the letter `i`, either case.
pub open spec fn is_ind_tok(s: Seq<char>) -> bool {
    s.len() == 1 && (s[0] == 'i' || s[0] == 'I')
}

/// The word one instruction line encodes to, or the error it raises.
///
/// A memory-reference mnemonic takes its operand from the symbol table or,
/// failing that, from the value grammar; a third token `i` sets bit 15.
/// Any other mnemonic must be a fixed word of the opcode table.
pub open spec fn spec_encode_line(t: Seq<SymV>, line: Seq<char>) -> Result<u16, ErrV> {
    let parts = tokens_of(line);
    if parts.len() == 0 {
        Err(ErrV::UnknownInstruction(Seq::empty()))
    } else {
        match mri_opcode(parts[0]) {
            Some(op) => {
                if parts.len() < 2 {
                    Err(ErrV::UndefinedOperand(Seq::empty()))
                } else {
                    let addr = match resolve_sym(t, parts[1]) {
                        Some(a) => Ok(a),
                        None => match spec_parse_value(parts[1]) {
                            Ok(v) => Ok(v),
                            Err(_) => Err(ErrV::UndefinedOperand(parts[1])),
                        },
                    };
                    match addr {
                        Ok(a) => {
                            let ind: u16 = if parts.len() == 3 && is_ind_tok(parts[2]) {
                                1
                            } else {
                                0
                            };
                            Ok(a | (op << 12u16) | (ind << 15u16))
                        },
                        Err(e) => Err(e),
                    }
                }
            },
            None => match fixed_word(parts[0]) {
                Some(w) => Ok(w),
                None => Err(ErrV::UnknownInstruction(parts[0])),
            },
        }
    }
}

/// All instruction lines encoded in order; the first error wins.
pub open spec fn spec_encode_all(t: Seq<SymV>, code: Seq<Seq<char>>) -> Result<Seq<u16>, ErrV>
    decreases code.len(),
{
    if code.len() == 0 {
        Ok(Seq::empty())
    } else {
        match spec_encode_line(t, code[0]) {
            Ok(w) => match spec_encode_all(t, code.drop_first()) {
                Ok(ws) => Ok(seq![w] + ws),
                Err(e) => Err(e),
            },
            Err(e) => Err(e),
        }
    }
}

/// The bootstrap word: an unconditional branch past the data region.
pub open spec fn boot_word(t: Seq<SymV>) -> u16 {
    0x4000u16 | ((1 + consts_of(t).len()) as u16)
}

/// What [`produce_machine_code`] returns: the complete image, or the first
/// error. The size check comes before any encoding.
pub open spec fn spec_machine_code(t: Seq<SymV>, code: Seq<Seq<char>>) -> Result<Seq<u16>, ErrV> {
    if t.len() + code.len() > 4096 {
        Err(ErrV::ProgramTooLarge)
    } else {
        match spec_encode_all(t, code) {
            Ok(ws) => Ok(seq![boot_word(t)] + consts_of(t) + ws),
            Err(e) => Err(e),
        }
    }
}

/// The view of an image result, for contracts that compare against the
/// ghost image.
pub open spec fn res_view_words(r: Result<Vec<u16>, AsmError>) -> Result<Seq<u16>, ErrV> {
    match r {
        Ok(v) => Ok(v@),
        Err(e) => Err(e@),
    }
}

/// True exactly when the token is the given three characters.
fn tok_is3(v: &Vec<char>, k0: char, k1: char, k2: char) -> (r: bool)
    ensures
        r == (v@ == seq![k0, k1, k2]),
{
    if v.len() == 3 && v[0] == k0 && v[1] == k1 && v[2] == k2 {
        proof {
            assert(v@ =~= seq![k0, k1, k2]);
        }
        true
    } else {
        proof {
            if v@ == seq![k0, k1, k2] {
                assert(v@.len() == 3);
                assert(v@[0] == k0 && v@[1] == k1 && v@[2] == k2);
            }
        }
        false
    }
}

/// Exec mirror of [`mri_opcode`].
fn mri_opcode_vec(v: &Vec<char>) -> (r: Option<u16>)
    ensures
        r == mri_opcode(v@),
{
    if tok_is3(v, 'a', 'n', 'd') {
        Some(0x0)
    } else if tok_is3(v, 'a', 'd', 'd') {
        Some(0x1)
    } else if tok_is3(v, 'l', 'd', 'a') {
        Some(0x2)
    } else if tok_is3(v, 's', 't', 'a') {
        Some(0x3)
    } else if tok_is3(v, 'b', 'u', 'n') {
        Some(0x4)
    } else if tok_is3(v, 'b', 's', 'a') {
        Some(0x5)
    } else if tok_is3(v, 'i', 's', 'z') {
        Some(0x6)
    } else {
        None
    }
}

/// Exec mirror of [`fixed_word`].
fn fixed_word_vec(v: &Vec<char>) -> (r: Option<u16>)
    ensures
        r == fixed_word(v@),
{
    if tok_is3(v, 'c', 'l', 'a') {
        Some(0x7800)
    } else if tok_is3(v, 'c', 'l', 'e') {
        Some(0x7400)
    } else if tok_is3(v, 'c', 'm', 'a') {
        Some(0x7200)
    } else if tok_is3(v, 'c', 'm', 'e') {
        Some(0x7100)
    } else if tok_is3(v, 'c', 'i', 'r') {
        Some(0x7080)
    } else if tok_is3(v, 'c', 'i', 'l') {
        Some(0x7040)
    } else if tok_is3(v, 'i', 'n', 'c') {
        Some(0x7020)
    } else if tok_is3(v, 's', 'p', 'a') {
        Some(0x7010)
    } else if tok_is3(v, 's', 'n', 'a') {
        Some(0x7008)
    } else if tok_is3(v, 's', 'z', 'a') {
        Some(0x7004)
    } else if tok_is3(v, 's', 'z', 'e') {
        Some(0x7002)
    } else if tok_is3(v, 'h', 'l', 't') {
        Some(0x7001)
    } else if tok_is3(v, 'i', 'n', 'p') {
        Some(0xf800)
    } else if tok_is3(v, 'o', 'u', 't') {
        Some(0xf400)
    } else if tok_is3(v, 's', 'k', 'i') {
        Some(0xf200)
    } else if tok_is3(v, 's', 'k', 'o') {
        Some(0xf100)
    } else if tok_is3(v, 'i', 'o', 'n') {
        Some(0xf080)
    } else if tok_is3(v, 'i', 'o', 'f') {
        Some(0xf040)
    } else {
        None
    }
}

/// The values of the non-label entries, in table order.
fn collect_consts(data: &SymTable) -> (r: Vec<u16>)
    ensures
        r@ == consts_of(data@),
{
    let n = data.len();
    let mut out: Vec<u16> = Vec::new();
    let mut i: usize = 0;
    proof {
        assert(data@.take(0) =~= Seq::<SymV>::empty());
        assert(out@ =~= consts_of(data@.take(0)));
    }
    while i < n
        invariant
            i <= n,
            n == data@.len(),
            out@ == consts_of(data@.take(i as int)),
        decreases n - i,
    {
        let (value, is_label) = data.value_at(i);
        proof {
            assert(data@.take(i + 1 as int) =~= data@.take(i as int) + seq![data@[i as int]]);
            lemma_consts_of_snoc(data@.take(i as int), data@[i as int]);
        }
        if !is_label {
            out.push(value);
            proof {
                assert(out@ =~= consts_of(data@.take(i + 1 as int)));
            }
        } else {
            proof {
                assert(out@ =~= consts_of(data@.take(i + 1 as int)));
            }
        }
        i = i + 1;
    }
    proof {
        assert(data@.take(n as int) =~= data@);
    }
    out
}

/// Number of constants among the first `i` entries.
fn count_consts_before(data: &SymTable, i: usize) -> (r: usize)
    requires
        i <= data@.len(),
    ensures
        r == consts_of(data@.take(i as int)).len(),
        r <= i,
{
    let mut c: usize = 0;
    let mut j: usize = 0;
    proof {
        assert(data@.take(0) =~= Seq::<SymV>::empty());
    }
    while j < i
        invariant
            j <= i <= data@.len(),
            c <= j,
            c == consts_of(data@.take(j as int)).len(),
        decreases i - j,
    {
        let (_, is_label) = data.value_at(j);
        proof {
            assert(data@.take(j + 1 as int) =~= data@.take(j as int) + seq![data@[j as int]]);
            lemma_consts_of_snoc(data@.take(j as int), data@[j as int]);
        }
        if !is_label {
            c = c + 1;
        }
        j = j + 1;
    }
    c
}

/// Encodes one instruction line against the symbol table.
fn encode_line(data: &SymTable, line: &str) -> (r: Result<u16, AsmError>)
    requires
        data@.len() <= 4096,
    ensures
        res_view(r) == spec_encode_line(data@, line@),
{
    let chars = chars_of(line);
    let toks = tokens_vec(&chars);
    proof {
        assert(toks.deep_view() == tokens_of(line@));
    }
    if toks.len() == 0 {
        let empty_tok = String::new();
        return Err(AsmError::UnknownInstruction(empty_tok));
    }
    proof {
        assert(toks.deep_view()[0] == toks@[0]@);
    }
    match mri_opcode_vec(&toks[0]) {
        Some(op) => {
            if toks.len() < 2 {
                let empty_tok = String::new();
                return Err(AsmError::UndefinedOperand(empty_tok));
            }
            proof {
                assert(toks.deep_view()[1] == toks@[1]@);
            }
            let addr: u16;
            match data.find_chars(&toks[1]) {
                Some(i) => {
                    proof {
                        lemma_sym_idx(data@, toks@[1]@);
                    }
                    let (value, is_label) = data.value_at(i);
                    if is_label {
                        addr = value;
                    } else {
                        let c = count_consts_before(data, i);
                        addr = 1 + (c as u16);
                    }
                },
                None => {
                    match parse_value_chars(&toks[1]) {
                        Ok(v) => {
                            addr = v;
                        },
                        Err(_) => {
                            let tok_s = string_of(&toks[1]);
                            return Err(AsmError::UndefinedOperand(tok_s));
                        },
                    }
                },
            }
            let ind: u16;
            if toks.len() == 3 {
                proof {
                    assert(toks.deep_view()[2] == toks@[2]@);
                }
                let t2 = &toks[2];
                if t2.len() == 1 && (t2[0] == 'i' || t2[0] == 'I') {
                    ind = 1;
                } else {
                    ind = 0;
                }
                proof {
                    assert((ind == 1) == is_ind_tok(toks@[2]@));
                }
            } else {
                ind = 0;
            }
            Ok(addr | (op << 12u16) | (ind << 15u16))
        },
        None => {
            match fixed_word_vec(&toks[0]) {
                Some(w) => Ok(w),
                None => {
                    let tok_s = string_of(&toks[0]);
                    Err(AsmError::UnknownInstruction(tok_s))
                },
            }
        },
    }
}

/// Produces the program image for a parsed source: the bootstrap branch,
/// the data constants in table order, then one word per instruction line.
///
/// Returns exactly [`spec_machine_code`] of the table and code:
/// `ProgramTooLarge` when table entries plus code lines exceed 4096, the
/// first line's error otherwise, else `Ok` with the complete image.
pub fn produce_machine_code(parsed: (SymTable, Vec<String>)) -> (r: Result<Vec<u16>, AsmError>)
    ensures
        res_view_words(r) == spec_machine_code(parsed.0@, parsed.1.deep_view()),
{
    let (data, code) = parsed;
    let dn = data.len();
    let cn = code.len();
    if dn > 4096 || cn > 4096 - dn {
        proof {
            assert(code.deep_view().len() == code@.len());
        }
        return Err(AsmError::ProgramTooLarge);
    }
    proof {
        assert(code.deep_view().len() == code@.len());
        assert(data@.len() + code.deep_view().len() <= 4096);
    }
    let consts = collect_consts(&data);
    proof {
        lemma_consts_of_len(data@);
    }
    let mut image: Vec<u16> = Vec::new();
    let boot: u16 = 0x4000u16 | (1 + (consts.len() as u16));
    proof {
        assert(boot == boot_word(data@));
    }
    image.push(boot);
    let mut i: usize = 0;
    proof {
        assert(consts@.take(0) =~= Seq::<u16>::empty());
        assert(image@ =~= seq![boot_word(data@)] + consts@.take(0));
    }
    while i < consts.len()
        invariant
            i <= consts@.len(),
            consts@ == consts_of(data@),
            image@ == seq![boot_word(data@)] + consts@.take(i as int),
        decreases consts@.len() - i,
    {
        image.push(consts[i]);
        proof {
            assert(image@ =~= seq![boot_word(data@)] + consts@.take(i + 1 as int));
        }
        i = i + 1;
    }
    proof {
        assert(consts@.take(consts@.len() as int) =~= consts@);
    }
    let ghost codes = code.deep_view();
    let ghost base = seq![boot_word(data@)] + consts_of(data@);
    let ghost mut done: Seq<u16> = Seq::empty();
    proof {
        assert(image@ =~= base + done);
        assert(codes.skip(0) =~= codes);
    }
    let mut k: usize = 0;
    while k < cn
        invariant
            k <= cn,
            cn == code@.len(),
            codes == code.deep_view(),
            data@ == parsed.0@,
            codes == parsed.1.deep_view(),
            data@.len() <= 4096,
            data@.len() + codes.len() <= 4096,
            base == seq![boot_word(data@)] + consts_of(data@),
            image@ == base + done,
            spec_encode_all(data@, codes) == (match spec_encode_all(
                data@,
                codes.skip(k as int),
            ) {
                Ok(rest) => Ok::<Seq<u16>, ErrV>(done + rest),
                Err(e) => Err::<Seq<u16>, ErrV>(e),
            }),
        decreases cn - k,
    {
        let ghost suf = codes.skip(k as int);
        proof {
            assert(suf[0] == codes[k as int]);
            assert(codes[k as int] == code@[k as int]@);
            assert(suf.drop_first() =~= codes.skip(k + 1 as int));
        }
        match encode_line(&data, code[k].as_str()) {
            Ok(w) => {
                image.push(w);
                proof {
                    assert(spec_encode_line(data@, suf[0]) == Ok::<u16, ErrV>(w));
                    let prev = done;
                    done = done.push(w);
                    assert(image@ =~= base + done);
                    match spec_encode_all(data@, codes.skip(k + 1 as int)) {
                        Ok(rest) => {
                            assert(spec_encode_all(data@, suf) == Ok::<Seq<u16>, ErrV>(
                                seq![w] + rest,
                            ));
                            assert(prev + (seq![w] + rest) =~= done + rest);
                        },
                        Err(e) => {
                            assert(spec_encode_all(data@, suf) == Err::<Seq<u16>, ErrV>(e));
                        },
                    }
                }
            },
            Err(e) => {
                proof {
                    assert(spec_encode_line(data@, suf[0]) == Err::<u16, ErrV>(e@));
                    assert(spec_encode_all(data@, suf) == Err::<Seq<u16>, ErrV>(e@));
                    assert(spec_machine_code(data@, codes) == Err::<Seq<u16>, ErrV>(e@));
                }
                return Err(e);
            },
        }
        k = k + 1;
    }
    proof {
        assert(codes.skip(cn as int) =~= Seq::<Seq<char>>::empty());
        assert(spec_encode_all(data@, codes) == Ok::<Seq<u16>, ErrV>(done + Seq::empty()));
        assert(done + Seq::<u16>::empty() =~= done);
        assert(image@ =~= seq![boot_word(data@)] + consts_of(data@) + done);
    }
    Ok(image)
}

} // verus!
