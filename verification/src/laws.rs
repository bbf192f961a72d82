//! The laws of the two compiler stages, stated and proved against
//! the spec interpreters of [`crate::config`] and [`crate::parser`]:
//! compilation is deterministic, captures are positional, truncation
//! warns and never errs, a repeated pattern shape is a conflict that
//! keeps the first template, and an unknown mnemonic fails only its
//! own line.
use vstd::prelude::*;
use crate::config::{
    TransitionKind, kind_get, spec_advance, spec_codegen, spec_compile, spec_pattern, spec_shape,
};
use crate::lexer::{LexV, TokV};
use crate::log::{Level, OriginV, has_error};
use crate::parser::{
    Codegen, CodegenData, InstrV, StateV, Transition, err_log, imm_truncated, le_bytes,
    msg_truncated, msg_unknown_instruction, spec_asm_from, spec_assemble, spec_encode, spec_line,
    spec_lookup, spec_walk, warn_log,
};
use crate::text::lower_seq;

verus! {

// ---------------------------------------------------------------
// Idempotence of compilation
// ---------------------------------------------------------------
/// Compiling the same configuration twice yields automatons that
/// accept and encode identical inputs identically: the compiled table
/// is a function of the configuration text alone, so two assemblers
/// built from the same text behave alike on every source.
pub proof fn lemma_compile_idempotent(
    a1: Seq<(Seq<char>, InstrV)>,
    a2: Seq<(Seq<char>, InstrV)>,
    cfg: Seq<char>,
    src: Seq<char>,
)
    requires
        a1 == spec_compile(cfg).map,
        a2 == spec_compile(cfg).map,
    ensures
        spec_assemble(a1, src) == spec_assemble(a2, src),
{
}

// ---------------------------------------------------------------
// Positional captures
// ---------------------------------------------------------------
/// The register values of the tokens from `i` on, in order.
pub open spec fn reg_values(toks: Seq<LexV>, i: int) -> Seq<u8>
    decreases toks.len() - i,
{
    if i < 0 || i >= toks.len() {
        Seq::empty()
    } else {
        match toks[i].token {
            TokV::Register(r) => seq![r as u8] + reg_values(toks, i + 1),
            _ => reg_values(toks, i + 1),
        }
    }
}

/// The integer-literal values of the tokens from `i` on, in order.
pub open spec fn imm_values(toks: Seq<LexV>, i: int) -> Seq<u64>
    decreases toks.len() - i,
{
    if i < 0 || i >= toks.len() {
        Seq::empty()
    } else {
        match toks[i].token {
            TokV::Integer(intv) => seq![intv.wrap_val()] + imm_values(toks, i + 1),
            _ => imm_values(toks, i + 1),
        }
    }
}

/// Positional capture: when the walk accepts, the Nth register token
/// consumed fills capture slot N and the Nth integer literal fills
/// immediate slot N, whatever numerals were written — the captures
/// are exactly the operand values in encounter order.
pub proof fn lemma_positional_captures(
    iv: InstrV,
    name: Seq<char>,
    toks: Seq<LexV>,
    i: int,
    state: int,
    regs: Seq<u8>,
    imms: Seq<u64>,
    orig: Option<OriginV>,
)
    requires
        spec_walk(iv, name, toks, i, state, regs, imms, orig) is Accept,
    ensures
        spec_walk(iv, name, toks, i, state, regs, imms, orig)->Accept_regs == regs + reg_values(
            toks,
            i,
        ),
        spec_walk(iv, name, toks, i, state, regs, imms, orig)->Accept_imms == imms + imm_values(
            toks,
            i,
        ),
    decreases toks.len() - i,
{
    if i < 0 || i >= toks.len() {
        assert(regs + reg_values(toks, i) =~= regs);
        assert(imms + imm_values(toks, i) =~= imms);
    } else {
        let lex = toks[i];
        match lex.token {
            TokV::Integer(intv) => {
                let next = iv.states[state].immediate->NextState_0;
                lemma_positional_captures(
                    iv,
                    name,
                    toks,
                    i + 1,
                    next as int,
                    regs,
                    imms.push(intv.wrap_val()),
                    orig,
                );
                assert(imms.push(intv.wrap_val()) + imm_values(toks, i + 1) =~= imms + (seq![
                    intv.wrap_val(),
                ] + imm_values(toks, i + 1)));
                assert(regs + reg_values(toks, i + 1) =~= regs + reg_values(toks, i));
            },
            TokV::Register(r) => {
                let next = iv.states[state].register->NextState_0;
                lemma_positional_captures(
                    iv,
                    name,
                    toks,
                    i + 1,
                    next as int,
                    regs.push(r as u8),
                    imms,
                    orig,
                );
                assert(regs.push(r as u8) + reg_values(toks, i + 1) =~= regs + (seq![r as u8]
                    + reg_values(toks, i + 1)));
                assert(imms + imm_values(toks, i + 1) =~= imms + imm_values(toks, i));
            },
            TokV::Comma => {
                let next = iv.states[state].comma->NextState_0;
                lemma_positional_captures(iv, name, toks, i + 1, next as int, regs, imms, orig);
                assert(regs + reg_values(toks, i + 1) =~= regs + reg_values(toks, i));
                assert(imms + imm_values(toks, i + 1) =~= imms + imm_values(toks, i));
            },
            _ => {},
        }
    }
}

// ---------------------------------------------------------------
// The truncation law
// ---------------------------------------------------------------
/// Truncation law: an encoding step for a `width`-bit immediate whose
/// captured value does not fit `width` bits emits exactly the low
/// `width/8` bytes little-endian together with one warning — never an
/// error — and the rest of the template goes on unharmed.
pub proof fn lemma_truncation(
    cg: Seq<Codegen>,
    j: int,
    regs: Seq<u8>,
    imms: Seq<u64>,
    orig: Option<OriginV>,
    imm: usize,
    b: usize,
)
    requires
        0 <= j < cg.len(),
        cg[j] == Codegen::Data(CodegenData::Immediate(imm, b)),
        imm < imms.len(),
        imm_truncated(imms[imm as int], b),
    ensures
        ({
            let e = spec_encode(cg, j, regs, imms, orig);
            let rest = spec_encode(cg, j + 1, regs, imms, orig);
            e.bytes == le_bytes(imms[imm as int], (b / 8) as nat) + rest.bytes && e.logs == seq![
                warn_log(orig, msg_truncated(imms[imm as int], b)),
            ] + rest.logs && e.ok == rest.ok && e.logs[0].level is Warning
        }),
{
}

/// What "does not fit" means: for a width below 64, the value has a
/// set bit at position `width` or above, that is, it is at least
/// 2^width.
pub proof fn lemma_truncated_meaning(v: u64, b: u64)
    requires
        b < 64,
    ensures
        imm_truncated(v, b as usize) <==> v >= (1u64 << b),
{
    assert((v >> b != 0) <==> (v >= (1u64 << b))) by (bit_vector)
        requires
            b < 64,
    ;
}

// ---------------------------------------------------------------
// Unknown-instruction rejection
// ---------------------------------------------------------------
/// An unknown mnemonic yields exactly one error and no bytes for its
/// line.
pub proof fn lemma_unknown_instruction(
    a: Seq<(Seq<char>, InstrV)>,
    toks: Seq<LexV>,
    orig: Option<OriginV>,
)
    requires
        toks.len() > 0,
        toks[0].token is Identifier,
        spec_lookup(a, lower_seq(toks[0].token->Identifier_0)) is None,
    ensures
        spec_line(a, toks, orig).bytes == Seq::<u8>::empty(),
        spec_line(a, toks, orig).logs == seq![
            err_log(orig, msg_unknown_instruction(toks[0].slice)),
        ],
        has_error(spec_line(a, toks, orig).logs),
{
    assert(spec_line(a, toks, orig).logs[0].level is Error);
}

// ---------------------------------------------------------------
// Accept-state uniqueness
// ---------------------------------------------------------------
/// Whether every shape transition of `a` survives into `b`: the
/// config compiler only ever fills empty transition slots and appends
/// states, so an edge once created is never redirected.
pub open spec fn persist_at(a: StateV, b: StateV) -> bool {
    (a.register is NextState ==> b.register == a.register) && (a.immediate is NextState
        ==> b.immediate == a.immediate) && (a.comma is NextState ==> b.comma == a.comma)
}

pub open spec fn trans_persist(s1: Seq<StateV>, s2: Seq<StateV>) -> bool {
    s1.len() <= s2.len() && forall|j: int| 0 <= j < s1.len() ==> persist_at(#[trigger] s1[j], s2[j])
}

pub proof fn lemma_persist_trans(s1: Seq<StateV>, s2: Seq<StateV>, s3: Seq<StateV>)
    requires
        trans_persist(s1, s2),
        trans_persist(s2, s3),
    ensures
        trans_persist(s1, s3),
{
    assert forall|j: int| 0 <= j < s1.len() implies persist_at(#[trigger] s1[j], s3[j]) by {
        assert(persist_at(s1[j], s2[j]));
        assert(persist_at(s2[j], s3[j]));
    }
}

/// One shape step keeps every existing edge, keeps the arena well
/// formed, and leaves the walk on a valid state; the edge it took now
/// exists.
pub proof fn lemma_advance(states: Seq<StateV>, state: int, kind: TransitionKind)
    requires
        crate::parser::states_wf(states),
        0 <= state < states.len(),
    ensures
        ({
            let adv = spec_advance(states, state, kind);
            states.len() <= adv.0.len() && trans_persist(states, adv.0)
                && crate::parser::states_wf(adv.0) && 0 <= adv.1 < adv.0.len() && kind_get(
                adv.0[state],
                kind,
            ) == Transition::NextState(adv.1 as usize)
        }),
{
    let adv = spec_advance(states, state, kind);
    match kind_get(states[state], kind) {
        Transition::NextState(n) => {
            assert(crate::parser::state_wf(states[state], states.len() as int));
            assert(trans_persist(states, states));
        },
        Transition::Reject => {
            let s2 = adv.0;
            assert(s2.len() == states.len() + 1);
            assert forall|j: int| 0 <= j < states.len() implies persist_at(
                #[trigger] states[j],
                s2[j],
            ) by {
                if j != state {
                    assert(s2[j] == states[j]);
                }
            }
            assert(crate::parser::states_wf(s2)) by {
                assert forall|j: int| 0 <= j < s2.len() implies crate::parser::state_wf(
                    #[trigger] s2[j],
                    s2.len() as int,
                ) by {
                    if j < states.len() {
                        assert(crate::parser::state_wf(states[j], states.len() as int));
                        if j != state {
                            assert(s2[j] == states[j]);
                        }
                    } else {
                        assert(s2[j] == crate::config::fresh_state());
                    }
                }
            }
        },
    }
}

/// The whole shape walk keeps every existing edge and the arena well
/// formed, never runs backwards, and ends on a valid state.
pub proof fn lemma_shape_persist(
    toks: Seq<LexV>,
    j: int,
    name: Seq<char>,
    states: Seq<StateV>,
    state: int,
    registers: int,
    widths: Seq<u64>,
    parts: Seq<char>,
    orig: Option<OriginV>,
)
    requires
        crate::parser::states_wf(states),
        0 <= state < states.len(),
        0 <= j,
    ensures
        ({
            let sh = spec_shape(toks, j, name, states, state, registers, widths, parts, orig);
            trans_persist(states, sh.states) && crate::parser::states_wf(sh.states) && 0
                <= sh.state < sh.states.len() && sh.next >= j && (sh.arrow ==> sh.next >= j + 1)
        }),
    decreases toks.len() - j,
{
    if 0 <= j && j < toks.len() {
        let lex = toks[j];
        match lex.token {
            TokV::Immediate(im) => {
                if j + 1 < toks.len() && toks[j + 1].token is Colon {
                    if j + 2 < toks.len() {
                        match toks[j + 2].token {
                            TokV::Integer(wv) => {
                                let adv = spec_advance(states, state, TransitionKind::Immediate);
                                lemma_advance(states, state, TransitionKind::Immediate);
                                lemma_shape_persist(
                                    toks,
                                    j + 3,
                                    name,
                                    adv.0,
                                    adv.1,
                                    registers,
                                    widths.push(wv.wrap_val()),
                                    crate::config::join_part(
                                        crate::config::join_part(
                                            crate::config::join_part(parts, lex.slice),
                                            toks[j + 1].slice,
                                        ),
                                        toks[j + 2].slice,
                                    ),
                                    orig,
                                );
                                let sh = spec_shape(
                                    toks,
                                    j,
                                    name,
                                    states,
                                    state,
                                    registers,
                                    widths,
                                    parts,
                                    orig,
                                );
                                lemma_persist_trans(states, adv.0, sh.states);
                            },
                            _ => {},
                        }
                    }
                } else if j + 1 < toks.len() {
                    lemma_shape_persist(
                        toks,
                        j + 2,
                        name,
                        states,
                        state,
                        registers,
                        widths,
                        crate::config::join_part(
                            crate::config::join_part(parts, lex.slice),
                            toks[j + 1].slice,
                        ),
                        orig,
                    );
                }
            },
            TokV::Register(r) => {
                let adv = spec_advance(states, state, TransitionKind::Register);
                lemma_advance(states, state, TransitionKind::Register);
                lemma_shape_persist(
                    toks,
                    j + 1,
                    name,
                    adv.0,
                    adv.1,
                    registers + 1,
                    widths,
                    crate::config::join_part(parts, lex.slice),
                    orig,
                );
                let sh = spec_shape(toks, j, name, states, state, registers, widths, parts, orig);
                lemma_persist_trans(states, adv.0, sh.states);
            },
            TokV::Comma => {
                let adv = spec_advance(states, state, TransitionKind::Comma);
                lemma_advance(states, state, TransitionKind::Comma);
                lemma_shape_persist(
                    toks,
                    j + 1,
                    name,
                    adv.0,
                    adv.1,
                    registers,
                    widths,
                    crate::config::join_part(parts, lex.slice),
                    orig,
                );
                let sh = spec_shape(toks, j, name, states, state, registers, widths, parts, orig);
                lemma_persist_trans(states, adv.0, sh.states);
            },
            TokV::Arrow => {},
            _ => {
                lemma_shape_persist(
                    toks,
                    j + 1,
                    name,
                    states,
                    state,
                    registers,
                    widths,
                    crate::config::join_part(parts, lex.slice),
                    orig,
                );
            },
        }
    }
}

/// Replaying an identical operand shape on the grown automaton reuses
/// exactly the walk of the first definition: it creates no state and
/// ends on the same one.
pub proof fn lemma_shape_replay(
    toks1: Seq<LexV>,
    toks2: Seq<LexV>,
    j: int,
    name: Seq<char>,
    states: Seq<StateV>,
    s2: Seq<StateV>,
    state: int,
    registers1: int,
    registers2: int,
    widths1: Seq<u64>,
    widths2: Seq<u64>,
    parts1: Seq<char>,
    parts2: Seq<char>,
    orig1: Option<OriginV>,
    orig2: Option<OriginV>,
)
    requires
        crate::parser::states_wf(states),
        0 <= state < states.len(),
        0 <= j,
        s2.len() <= usize::MAX,
        spec_shape(toks1, j, name, states, state, registers1, widths1, parts1, orig1).arrow,
        trans_persist(
            spec_shape(toks1, j, name, states, state, registers1, widths1, parts1, orig1).states,
            s2,
        ),
        forall|k: int|
            j <= k < spec_shape(
                toks1,
                j,
                name,
                states,
                state,
                registers1,
                widths1,
                parts1,
                orig1,
            ).next ==> k < toks2.len() && (#[trigger] toks2[k]).token == toks1[k].token,
    ensures
        ({
            let sh1 = spec_shape(toks1, j, name, states, state, registers1, widths1, parts1, orig1);
            let sh2 = spec_shape(toks2, j, name, s2, state, registers2, widths2, parts2, orig2);
            sh2.arrow && sh2.state == sh1.state && sh2.states == s2 && sh2.next == sh1.next
        }),
    decreases toks1.len() - j,
{
    let sh1 = spec_shape(toks1, j, name, states, state, registers1, widths1, parts1, orig1);
    lemma_shape_persist(toks1, j, name, states, state, registers1, widths1, parts1, orig1);
    assert(j < toks1.len());
    let lex = toks1[j];
    assert(toks2[j].token == toks1[j].token);
    match lex.token {
        TokV::Immediate(im) => {
            let parts1b = crate::config::join_part(parts1, lex.slice);
            let parts2b = crate::config::join_part(parts2, toks2[j].slice);
            if j + 1 < toks1.len() && toks1[j + 1].token is Colon {
                // a pattern that reached its arrow must have read a
                // well-formed width here
                assert(j + 2 < toks1.len() && toks1[j + 2].token is Integer);
                let wv = toks1[j + 2].token->Integer_0;
                let adv1 = spec_advance(states, state, TransitionKind::Immediate);
                lemma_advance(states, state, TransitionKind::Immediate);
                let parts1c = crate::config::join_part(
                    crate::config::join_part(parts1b, toks1[j + 1].slice),
                    toks1[j + 2].slice,
                );
                lemma_shape_persist(
                    toks1,
                    j + 3,
                    name,
                    adv1.0,
                    adv1.1,
                    registers1,
                    widths1.push(wv.wrap_val()),
                    parts1c,
                    orig1,
                );
                // the edge taken exists in the final arena, so the
                // replay reuses it
                lemma_persist_trans(adv1.0, sh1.states, s2);
                assert(persist_at(adv1.0[state], s2[state]));
                assert(kind_get(s2[state], TransitionKind::Immediate) == Transition::NextState(
                    adv1.1 as usize,
                ));
                assert(adv1.1 < adv1.0.len() <= sh1.states.len() <= s2.len());
                assert(spec_advance(s2, state, TransitionKind::Immediate) == (s2, adv1.1));
                assert(sh1.next >= j + 3);
                assert(toks2[j + 1].token == toks1[j + 1].token);
                assert(toks2[j + 2].token == toks1[j + 2].token);
                lemma_shape_replay(
                    toks1,
                    toks2,
                    j + 3,
                    name,
                    adv1.0,
                    s2,
                    adv1.1,
                    registers1,
                    registers2,
                    widths1.push(wv.wrap_val()),
                    widths2.push(toks2[j + 2].token->Integer_0.wrap_val()),
                    parts1c,
                    crate::config::join_part(
                        crate::config::join_part(parts2b, toks2[j + 1].slice),
                        toks2[j + 2].slice,
                    ),
                    orig1,
                    orig2,
                );
            } else {
                // a missing width is an error, but the walk goes on
                // past the offending token without moving
                assert(j + 1 < toks1.len());
                let parts1c = crate::config::join_part(parts1b, toks1[j + 1].slice);
                lemma_shape_persist(
                    toks1,
                    j + 2,
                    name,
                    states,
                    state,
                    registers1,
                    widths1,
                    parts1c,
                    orig1,
                );
                assert(sh1.next >= j + 2);
                assert(toks2[j + 1].token == toks1[j + 1].token);
                lemma_shape_replay(
                    toks1,
                    toks2,
                    j + 2,
                    name,
                    states,
                    s2,
                    state,
                    registers1,
                    registers2,
                    widths1,
                    widths2,
                    parts1c,
                    crate::config::join_part(parts2b, toks2[j + 1].slice),
                    orig1,
                    orig2,
                );
            }
        },
        TokV::Register(r) => {
            let adv1 = spec_advance(states, state, TransitionKind::Register);
            lemma_advance(states, state, TransitionKind::Register);
            lemma_shape_persist(
                toks1,
                j + 1,
                name,
                adv1.0,
                adv1.1,
                registers1 + 1,
                widths1,
                crate::config::join_part(parts1, lex.slice),
                orig1,
            );
            lemma_persist_trans(adv1.0, sh1.states, s2);
            assert(persist_at(adv1.0[state], s2[state]));
            assert(kind_get(s2[state], TransitionKind::Register) == Transition::NextState(
                adv1.1 as usize,
            ));
            assert(adv1.1 < adv1.0.len() <= sh1.states.len() <= s2.len());
            assert(spec_advance(s2, state, TransitionKind::Register) == (s2, adv1.1));
            lemma_shape_replay(
                toks1,
                toks2,
                j + 1,
                name,
                adv1.0,
                s2,
                adv1.1,
                registers1 + 1,
                registers2 + 1,
                widths1,
                widths2,
                crate::config::join_part(parts1, lex.slice),
                crate::config::join_part(parts2, toks2[j].slice),
                orig1,
                orig2,
            );
        },
        TokV::Comma => {
            let adv1 = spec_advance(states, state, TransitionKind::Comma);
            lemma_advance(states, state, TransitionKind::Comma);
            lemma_shape_persist(
                toks1,
                j + 1,
                name,
                adv1.0,
                adv1.1,
                registers1,
                widths1,
                crate::config::join_part(parts1, lex.slice),
                orig1,
            );
            lemma_persist_trans(adv1.0, sh1.states, s2);
            assert(persist_at(adv1.0[state], s2[state]));
            assert(kind_get(s2[state], TransitionKind::Comma) == Transition::NextState(
                adv1.1 as usize,
            ));
            assert(adv1.1 < adv1.0.len() <= sh1.states.len() <= s2.len());
            assert(spec_advance(s2, state, TransitionKind::Comma) == (s2, adv1.1));
            lemma_shape_replay(
                toks1,
                toks2,
                j + 1,
                name,
                adv1.0,
                s2,
                adv1.1,
                registers1,
                registers2,
                widths1,
                widths2,
                crate::config::join_part(parts1, lex.slice),
                crate::config::join_part(parts2, toks2[j].slice),
                orig1,
                orig2,
            );
        },
        TokV::Arrow => {},
        _ => {
            lemma_shape_persist(
                toks1,
                j + 1,
                name,
                states,
                state,
                registers1,
                widths1,
                crate::config::join_part(parts1, lex.slice),
                orig1,
            );
            lemma_shape_replay(
                toks1,
                toks2,
                j + 1,
                name,
                states,
                s2,
                state,
                registers1,
                registers2,
                widths1,
                widths2,
                crate::config::join_part(parts1, lex.slice),
                crate::config::join_part(parts2, toks2[j].slice),
                orig1,
                orig2,
            );
        },
    }
}

/// Accept-state uniqueness: a second pattern for the same mnemonic
/// whose token shape is identical to an accepted one walks to the
/// very same state, finds its template already set, is rejected with
/// a conflicting-pattern error, and leaves the automaton unchanged —
/// the first-defined template wins.
pub proof fn lemma_accept_state_unique(
    iv: InstrV,
    toks1: Seq<LexV>,
    toks2: Seq<LexV>,
    name: Seq<char>,
    orig1: Option<OriginV>,
    orig2: Option<OriginV>,
)
    requires
        crate::parser::instr_wf(iv),
        toks1.len() >= 1,
        toks2.len() >= 1,
        ({
            let sh1 = spec_shape(toks1, 1, name, iv.states, 0, 0, Seq::empty(), toks1[0].slice, orig1);
            sh1.arrow && sh1.states.len() <= usize::MAX
                && sh1.states[sh1.state].accept_codegen is None && forall|k: int|
                1 <= k < sh1.next ==> k < toks2.len() && (#[trigger] toks2[k]).token
                    == toks1[k].token
        }),
    ensures
        ({
            let sh1 = spec_shape(toks1, 1, name, iv.states, 0, 0, Seq::empty(), toks1[0].slice, orig1);
            let p1 = spec_pattern(iv, toks1, name, orig1);
            let iv1 = InstrV { syntaxes: p1.syntaxes, states: p1.states };
            let p2 = spec_pattern(iv1, toks2, name, orig2);
            p2.states == p1.states && p2.logs.len() > 0 && p2.logs.last() == err_log(
                orig2,
                crate::config::msg_conflicting(name),
            ) && p1.states[sh1.state].accept_codegen == Some(
                crate::config::spec_codegen(
                    toks1,
                    sh1.next,
                    name,
                    sh1.registers,
                    sh1.widths,
                    orig1,
                ).codegen,
            )
        }),
{
    let sh1 = spec_shape(toks1, 1, name, iv.states, 0, 0, Seq::empty(), toks1[0].slice, orig1);
    lemma_shape_persist(toks1, 1, name, iv.states, 0, 0, Seq::empty(), toks1[0].slice, orig1);
    let p1 = spec_pattern(iv, toks1, name, orig1);
    let iv1 = InstrV { syntaxes: p1.syntaxes, states: p1.states };
    // setting the template keeps every transition
    assert(trans_persist(sh1.states, p1.states)) by {
        assert forall|k: int| 0 <= k < sh1.states.len() implies persist_at(
            #[trigger] sh1.states[k],
            p1.states[k],
        ) by {
            if k != sh1.state {
                assert(p1.states[k] == sh1.states[k]);
            }
        }
    }
    lemma_shape_replay(
        toks1,
        toks2,
        1,
        name,
        iv.states,
        p1.states,
        0,
        0,
        0,
        Seq::empty(),
        Seq::empty(),
        toks1[0].slice,
        toks2[0].slice,
        orig1,
        orig2,
    );
    let sh2 = spec_shape(toks2, 1, name, iv1.states, 0, 0, Seq::empty(), toks2[0].slice, orig2);
    assert(sh2.state == sh1.state && sh2.states == p1.states);
    assert(p1.states[sh1.state].accept_codegen is Some);
    let p2 = spec_pattern(iv1, toks2, name, orig2);
    assert(p2.logs =~= sh2.logs + seq![err_log(orig2, crate::config::msg_conflicting(name))]);
}

/// Lines are independent: each line's bytes and diagnostics stand
/// between those of the lines around it, however the line itself
/// fared — an error on one line never aborts the ones after it.
pub proof fn lemma_line_independence(a: Seq<(Seq<char>, InstrV)>, ls: Seq<Seq<char>>, l: int)
    requires
        0 <= l < ls.len(),
    ensures
        spec_asm_from(a, ls, l).bytes == spec_line(
            a,
            crate::lexer::spec_tokens(ls[l]),
            crate::parser::line_origin(l),
        ).bytes + spec_asm_from(a, ls, l + 1).bytes,
        spec_asm_from(a, ls, l).logs == spec_line(
            a,
            crate::lexer::spec_tokens(ls[l]),
            crate::parser::line_origin(l),
        ).logs + spec_asm_from(a, ls, l + 1).logs,
{
}

} // verus!
