//! The config compiler: reads instruction-pattern lines, extends or
//! reuses each mnemonic's automaton (patterns with a common operand
//! prefix share states, like words in a trie), and records the
//! encoding template at the accepting state of every pattern.
//!
//! The behaviour is pinned down by the spec functions here
//! ([`spec_shape`], [`spec_codegen`], [`spec_brackets`],
//! [`spec_compile`]); `create_assembler_from_config` is verified
//! against them.
use vstd::prelude::*;
use vstd::string::StringExecFns;
use crate::lexer::{
    LexV, Lexeme, TokV, Token, lexemes_view, lines_view, spec_lines, spec_tokens, split_lines,
    tokenize,
};
use crate::log::{LogV, LoggedResult, Logger, Origin, OriginV, has_error};
use crate::parser::{
    Assembler, Codegen, CodegenData, InstrV, Instruction, StateV, Transition, TransitionTable,
    asm_wf, err_log, instr_wf, state_wf, warn_log,
};
use crate::text::{chars_of, dec_digits, lower_seq, lower_string, push_dec, string_of};

verus! {

// ---------------------------------------------------------------
// Diagnostics text
// ---------------------------------------------------------------
pub open spec fn msg_only_patterns() -> Seq<char> {
    "only instruction patterns are supported in the assembler config at the moment"@
}

pub open spec fn msg_imm_order(slice: Seq<char>, n: int) -> Seq<char> {
    "immediates are parsed in the order they appear regardless of number; "@ + slice
        + " will correspond to i"@ + dec_digits(n as nat) + " in codegen"@
}

pub open spec fn msg_reg_order(slice: Seq<char>, n: int) -> Seq<char> {
    "registers are parsed in the order they appear regardless of number; "@ + slice
        + " will correspond to r"@ + dec_digits(n as nat) + " in codegen"@
}

pub open spec fn msg_expected_width_colon_got(slice: Seq<char>) -> Seq<char> {
    "expected width of immediate, but got: '"@ + slice + "'"@
}

pub open spec fn msg_expected_width_got(slice: Seq<char>) -> Seq<char> {
    "expected width of immediate, but got '"@ + slice + "'"@
}

pub open spec fn msg_expected_width() -> Seq<char> {
    "expected width of immediate"@
}

pub open spec fn msg_conflicting(name: Seq<char>) -> Seq<char> {
    "conflicting patterns for instruction '"@ + name + "'"@
}

pub open spec fn msg_trunc8(slice: Seq<char>) -> Seq<char> {
    slice + " is larger than 8 bits and will be truncated"@
}

pub open spec fn msg_trunc4(slice: Seq<char>) -> Seq<char> {
    slice + " is larger than 4 bits and will be truncated"@
}

pub open spec fn msg_uses_imm(name: Seq<char>, im: u64) -> Seq<char> {
    "'"@ + name + "' uses immediate "@ + dec_digits(im as nat)
        + " which is not given in the instruction pattern"@
}

pub open spec fn msg_uses_reg(name: Seq<char>, r: u64) -> Seq<char> {
    "'"@ + name + "' uses register "@ + dec_digits(r as nat)
        + " which is not given in the instruction pattern"@
}

pub open spec fn msg_byte_aligned() -> Seq<char> {
    "immediate width must be byte aligned (for now)"@
}

pub open spec fn msg_width4() -> Seq<char> {
    "width of immediate in bracket group must be 4 (for now)"@
}

pub open spec fn msg_expected_after_got(after: Seq<char>, slice: Seq<char>) -> Seq<char> {
    "expected a literal or register after '"@ + after + "', but got '"@ + slice + "'"@
}

pub open spec fn msg_expected_after(after: Seq<char>) -> Seq<char> {
    "expected a literal or register after '"@ + after + "'"@
}

pub open spec fn msg_expected_sym_got(sym: Seq<char>, slice: Seq<char>) -> Seq<char> {
    "expected '"@ + sym + "' in bracket group, but got '"@ + slice + "'"@
}

pub open spec fn msg_expected_sym(sym: Seq<char>) -> Seq<char> {
    "expected '"@ + sym + "' in bracket group"@
}

pub open spec fn msg_expect_arrow() -> Seq<char> {
    "expected '->' following an instruction pattern"@
}

pub open spec fn msg_unexpected_in_pattern(slice: Seq<char>) -> Seq<char> {
    "unexpected token in instruction pattern: '"@ + slice + "'"@
}

pub open spec fn msg_codegen_supports(slice: Seq<char>) -> Seq<char> {
    "codegen only supports literal values, registers, and bracket groups, but got '"@ + slice
        + "'"@
}

// ---------------------------------------------------------------
// Automaton growth
// ---------------------------------------------------------------
/// The token categories an operand-shape transition exists for.
#[derive(Debug, Clone, Copy, PartialEq, Eq, Structural)]
pub enum TransitionKind {
    Register,
    Immediate,
    Comma,
}

pub open spec fn kind_get(s: StateV, kind: TransitionKind) -> Transition {
    match kind {
        TransitionKind::Register => s.register,
        TransitionKind::Immediate => s.immediate,
        TransitionKind::Comma => s.comma,
    }
}

pub open spec fn kind_set(s: StateV, kind: TransitionKind, t: Transition) -> StateV {
    match kind {
        TransitionKind::Register => StateV {
            register: t,
            immediate: s.immediate,
            comma: s.comma,
            accept_codegen: s.accept_codegen,
        },
        TransitionKind::Immediate => StateV {
            register: s.register,
            immediate: t,
            comma: s.comma,
            accept_codegen: s.accept_codegen,
        },
        TransitionKind::Comma => StateV {
            register: s.register,
            immediate: s.immediate,
            comma: t,
            accept_codegen: s.accept_codegen,
        },
    }
}

pub open spec fn fresh_state() -> StateV {
    StateV {
        register: Transition::Reject,
        immediate: Transition::Reject,
        comma: Transition::Reject,
        accept_codegen: None,
    }
}

/// Walks one shape transition: an existing edge is reused; a missing
/// one gets a freshly appended state.
pub open spec fn spec_advance(states: Seq<StateV>, state: int, kind: TransitionKind) -> (
    Seq<StateV>,
    int,
) {
    match kind_get(states[state], kind) {
        Transition::NextState(n) => (states, n as int),
        Transition::Reject => (
            states.update(
                state,
                kind_set(states[state], kind, Transition::NextState(states.len() as usize)),
            ).push(fresh_state()),
            states.len() as int,
        ),
    }
}

// ---------------------------------------------------------------
// Syntax reconstruction
// ---------------------------------------------------------------
/// Appends a token's text to the rebuilt pattern string: single
/// spaces between tokens, none after a width colon and none before a
/// comma or colon.
pub open spec fn join_part(a: Seq<char>, slice: Seq<char>) -> Seq<char> {
    if a.len() == 0 || a[a.len() - 1] == ':' || slice == seq![','] || slice == seq![':'] {
        a + slice
    } else {
        a + seq![' '] + slice
    }
}

// ---------------------------------------------------------------
// The spec compiler: operand shape
// ---------------------------------------------------------------
pub ghost struct ShapeOut {
    pub states: Seq<StateV>,
    pub state: int,
    pub registers: int,
    pub widths: Seq<u64>,
    pub syntax: Seq<char>,
    pub logs: Seq<LogV>,
    pub arrow: bool,
    pub next: int,
}

/// Reads the operand shape of one pattern, growing the automaton as
/// it goes.  Register and immediate numbering is positional: a
/// literal numeral that does not match the running count draws a
/// warning.  Each immediate carries `:width`; a missing width is an
/// error (a malformed one abandons the pattern).  The walk ends at
/// `->` (`arrow` set, `next` at the template) or at the end of the
/// line.
pub open spec fn spec_shape(
    toks: Seq<LexV>,
    j: int,
    name: Seq<char>,
    states: Seq<StateV>,
    state: int,
    registers: int,
    widths: Seq<u64>,
    parts: Seq<char>,
    orig: Option<OriginV>,
) -> ShapeOut
    decreases toks.len() - j,
{
    if j < 0 || j >= toks.len() {
        ShapeOut {
            states,
            state,
            registers,
            widths,
            syntax: parts,
            logs: Seq::empty(),
            arrow: false,
            next: j,
        }
    } else {
        let lex = toks[j];
        let parts2 = join_part(parts, lex.slice);
        match lex.token {
            TokV::Immediate(im) => {
                let warns: Seq<LogV> = if im != widths.len() as u64 {
                    seq![warn_log(orig, msg_imm_order(lex.slice, widths.len() as int))]
                } else {
                    Seq::empty()
                };
                if j + 1 < toks.len() && toks[j + 1].token is Colon {
                    let parts3 = join_part(parts2, toks[j + 1].slice);
                    if j + 2 < toks.len() {
                        match toks[j + 2].token {
                            TokV::Integer(wv) => {
                                let parts4 = join_part(parts3, toks[j + 2].slice);
                                let adv = spec_advance(states, state, TransitionKind::Immediate);
                                let rest = spec_shape(
                                    toks,
                                    j + 3,
                                    name,
                                    adv.0,
                                    adv.1,
                                    registers,
                                    widths.push(wv.wrap_val()),
                                    parts4,
                                    orig,
                                );
                                ShapeOut { logs: warns + rest.logs, ..rest }
                            },
                            _ => ShapeOut {
                                states,
                                state,
                                registers,
                                widths,
                                syntax: parts3,
                                logs: warns + seq![
                                    err_log(orig, msg_expected_width_colon_got(toks[j + 2].slice)),
                                ],
                                arrow: false,
                                next: j + 3,
                            },
                        }
                    } else {
                        ShapeOut {
                            states,
                            state,
                            registers,
                            widths,
                            syntax: parts3,
                            logs: warns + seq![err_log(orig, msg_expected_width())],
                            arrow: false,
                            next: j + 2,
                        }
                    }
                } else if j + 1 < toks.len() {
                    let parts3 = join_part(parts2, toks[j + 1].slice);
                    let rest = spec_shape(
                        toks,
                        j + 2,
                        name,
                        states,
                        state,
                        registers,
                        widths,
                        parts3,
                        orig,
                    );
                    ShapeOut {
                        logs: warns + seq![err_log(orig, msg_expected_width_got(toks[j + 1].slice))]
                            + rest.logs,
                        ..rest
                    }
                } else {
                    ShapeOut {
                        states,
                        state,
                        registers,
                        widths,
                        syntax: parts2,
                        logs: warns + seq![err_log(orig, msg_expected_width())],
                        arrow: false,
                        next: j + 1,
                    }
                }
            },
            TokV::Register(r) => {
                let warns: Seq<LogV> = if r != registers as u64 {
                    seq![warn_log(orig, msg_reg_order(lex.slice, registers))]
                } else {
                    Seq::empty()
                };
                let adv = spec_advance(states, state, TransitionKind::Register);
                let rest = spec_shape(
                    toks,
                    j + 1,
                    name,
                    adv.0,
                    adv.1,
                    registers + 1,
                    widths,
                    parts2,
                    orig,
                );
                ShapeOut { logs: warns + rest.logs, ..rest }
            },
            TokV::Comma => {
                let adv = spec_advance(states, state, TransitionKind::Comma);
                let rest = spec_shape(
                    toks,
                    j + 1,
                    name,
                    adv.0,
                    adv.1,
                    registers,
                    widths,
                    parts2,
                    orig,
                );
                rest
            },
            TokV::Arrow => ShapeOut {
                states,
                state,
                registers,
                widths,
                syntax: parts,
                logs: Seq::empty(),
                arrow: true,
                next: j + 1,
            },
            _ => {
                let rest = spec_shape(
                    toks,
                    j + 1,
                    name,
                    states,
                    state,
                    registers,
                    widths,
                    parts2,
                    orig,
                );
                ShapeOut {
                    logs: seq![err_log(orig, msg_unexpected_in_pattern(lex.slice))] + rest.logs,
                    ..rest
                }
            },
        }
    }
}

// ---------------------------------------------------------------
// The spec compiler: bracket groups
// ---------------------------------------------------------------
pub ghost struct AtomOut {
    pub next: int,
    pub atom: Option<CodegenData>,
    pub logs: Seq<LogV>,
}

/// One nibble value inside a bracket group: a literal masked to four
/// bits (warning above 0xF), a declared register reference (an
/// out-of-pattern index is an error, the atom still emitted), or an
/// immediate declared with width exactly four.
pub open spec fn spec_bracket_atom(
    toks: Seq<LexV>,
    j: int,
    name: Seq<char>,
    registers: int,
    widths: Seq<u64>,
    after: Seq<char>,
    orig: Option<OriginV>,
) -> AtomOut {
    if j < 0 || j >= toks.len() {
        AtomOut { next: j, atom: None, logs: seq![err_log(orig, msg_expected_after(after))] }
    } else {
        let lex = toks[j];
        match lex.token {
            TokV::Integer(intv) => {
                let v = intv.wrap_val();
                let warns: Seq<LogV> = if v > 0xF {
                    seq![warn_log(orig, msg_trunc4(lex.slice))]
                } else {
                    Seq::empty()
                };
                AtomOut {
                    next: j + 1,
                    atom: Some(CodegenData::Byte((v & 0xF) as u8)),
                    logs: warns,
                }
            },
            TokV::Immediate(im) => {
                if im >= widths.len() as u64 {
                    AtomOut {
                        next: j + 1,
                        atom: None,
                        logs: seq![err_log(orig, msg_uses_imm(name, im))],
                    }
                } else if widths[im as int] != 4 {
                    AtomOut { next: j + 1, atom: None, logs: seq![err_log(orig, msg_width4())] }
                } else {
                    AtomOut {
                        next: j + 1,
                        atom: Some(CodegenData::Immediate(im as usize, 4)),
                        logs: Seq::empty(),
                    }
                }
            },
            TokV::Register(r) => {
                let errs: Seq<LogV> = if r >= registers as u64 {
                    seq![err_log(orig, msg_uses_reg(name, r))]
                } else {
                    Seq::empty()
                };
                AtomOut { next: j + 1, atom: Some(CodegenData::Register(r as usize)), logs: errs }
            },
            _ => AtomOut {
                next: j + 1,
                atom: None,
                logs: seq![err_log(orig, msg_expected_after_got(after, lex.slice))],
            },
        }
    }
}

pub ghost struct SymOut {
    pub next: int,
    pub ok: bool,
    pub logs: Seq<LogV>,
}

pub open spec fn spec_expect_pipe(toks: Seq<LexV>, j: int, orig: Option<OriginV>) -> SymOut {
    if j < 0 || j >= toks.len() {
        SymOut { next: j, ok: false, logs: seq![err_log(orig, msg_expected_sym("|"@))] }
    } else if toks[j].token is Pipe {
        SymOut { next: j + 1, ok: true, logs: Seq::empty() }
    } else {
        SymOut {
            next: j + 1,
            ok: false,
            logs: seq![err_log(orig, msg_expected_sym_got("|"@, toks[j].slice))],
        }
    }
}

pub open spec fn spec_expect_close(toks: Seq<LexV>, j: int, orig: Option<OriginV>) -> SymOut {
    if j < 0 || j >= toks.len() {
        SymOut { next: j, ok: false, logs: seq![err_log(orig, msg_expected_sym("]"@))] }
    } else if toks[j].token is CloseBracket {
        SymOut { next: j + 1, ok: true, logs: Seq::empty() }
    } else {
        SymOut {
            next: j + 1,
            ok: false,
            logs: seq![err_log(orig, msg_expected_sym_got("]"@, toks[j].slice))],
        }
    }
}

pub ghost struct BracketOut {
    pub next: int,
    pub result: Option<Codegen>,
    pub logs: Seq<LogV>,
}

/// A whole bracket group after its `[`: `<nibble> | <nibble> ]`.
/// The packed step is produced only when nothing in the group erred.
pub open spec fn spec_brackets(
    toks: Seq<LexV>,
    j: int,
    name: Seq<char>,
    registers: int,
    widths: Seq<u64>,
    orig: Option<OriginV>,
) -> BracketOut {
    let upper = spec_bracket_atom(toks, j, name, registers, widths, "["@, orig);
    match upper.atom {
        None => BracketOut { next: upper.next, result: None, logs: upper.logs },
        Some(u) => {
            let pipe = spec_expect_pipe(toks, upper.next, orig);
            if !pipe.ok {
                BracketOut { next: pipe.next, result: None, logs: upper.logs + pipe.logs }
            } else {
                let lower = spec_bracket_atom(
                    toks,
                    pipe.next,
                    name,
                    registers,
                    widths,
                    "|"@,
                    orig,
                );
                match lower.atom {
                    None => BracketOut {
                        next: lower.next,
                        result: None,
                        logs: upper.logs + lower.logs,
                    },
                    Some(l) => {
                        let close = spec_expect_close(toks, lower.next, orig);
                        if !close.ok {
                            BracketOut {
                                next: close.next,
                                result: None,
                                logs: upper.logs + lower.logs + close.logs,
                            }
                        } else {
                            let logs = upper.logs + lower.logs;
                            BracketOut {
                                next: close.next,
                                result: if has_error(logs) {
                                    None
                                } else {
                                    Some(Codegen::UpperLower(u, l))
                                },
                                logs,
                            }
                        }
                    },
                }
            }
        },
    }
}

pub proof fn lemma_brackets_bounds(
    toks: Seq<LexV>,
    j: int,
    name: Seq<char>,
    registers: int,
    widths: Seq<u64>,
    orig: Option<OriginV>,
)
    requires
        0 <= j <= toks.len(),
    ensures
        j <= spec_brackets(toks, j, name, registers, widths, orig).next <= toks.len(),
{
}

// ---------------------------------------------------------------
// The spec compiler: encoding templates
// ---------------------------------------------------------------
pub ghost struct TemplateOut {
    pub codegen: Seq<Codegen>,
    pub logs: Seq<LogV>,
}

/// Reads the template after `->`: byte literals (masked, warning
/// above 255), declared register and immediate references (immediates
/// must be byte-aligned), and bracket groups.  An undeclared
/// immediate or a foreign token abandons the rest of the template.
pub open spec fn spec_codegen(
    toks: Seq<LexV>,
    j: int,
    name: Seq<char>,
    registers: int,
    widths: Seq<u64>,
    orig: Option<OriginV>,
) -> TemplateOut
    decreases toks.len() - j,
    via spec_codegen_decreases
{
    if j < 0 || j >= toks.len() {
        TemplateOut { codegen: Seq::empty(), logs: Seq::empty() }
    } else {
        let lex = toks[j];
        match lex.token {
            TokV::Integer(intv) => {
                let v = intv.wrap_val();
                let warns: Seq<LogV> = if v > 255 {
                    seq![warn_log(orig, msg_trunc8(lex.slice))]
                } else {
                    Seq::empty()
                };
                let rest = spec_codegen(toks, j + 1, name, registers, widths, orig);
                TemplateOut {
                    codegen: seq![Codegen::Data(CodegenData::Byte(v as u8))] + rest.codegen,
                    logs: warns + rest.logs,
                }
            },
            TokV::Immediate(im) => {
                if im >= widths.len() as u64 {
                    TemplateOut {
                        codegen: Seq::empty(),
                        logs: seq![err_log(orig, msg_uses_imm(name, im))],
                    }
                } else if widths[im as int] % 8 != 0 {
                    let rest = spec_codegen(toks, j + 1, name, registers, widths, orig);
                    TemplateOut {
                        codegen: rest.codegen,
                        logs: seq![err_log(orig, msg_byte_aligned())] + rest.logs,
                    }
                } else {
                    let rest = spec_codegen(toks, j + 1, name, registers, widths, orig);
                    TemplateOut {
                        codegen: seq![
                            Codegen::Data(
                                CodegenData::Immediate(im as usize, widths[im as int] as usize),
                            ),
                        ] + rest.codegen,
                        logs: rest.logs,
                    }
                }
            },
            TokV::Register(r) => {
                let errs: Seq<LogV> = if r >= registers as u64 {
                    seq![err_log(orig, msg_uses_reg(name, r))]
                } else {
                    Seq::empty()
                };
                let rest = spec_codegen(toks, j + 1, name, registers, widths, orig);
                TemplateOut {
                    codegen: seq![Codegen::Data(CodegenData::Register(r as usize))] + rest.codegen,
                    logs: errs + rest.logs,
                }
            },
            TokV::OpenBracket => {
                let br = spec_brackets(toks, j + 1, name, registers, widths, orig);
                let rest = spec_codegen(toks, br.next, name, registers, widths, orig);
                TemplateOut {
                    codegen: (match br.result {
                        Some(c) => seq![c],
                        None => Seq::empty(),
                    }) + rest.codegen,
                    logs: br.logs + rest.logs,
                }
            },
            _ => TemplateOut {
                codegen: Seq::empty(),
                logs: seq![err_log(orig, msg_codegen_supports(lex.slice))],
            },
        }
    }
}

#[via_fn]
proof fn spec_codegen_decreases(
    toks: Seq<LexV>,
    j: int,
    name: Seq<char>,
    registers: int,
    widths: Seq<u64>,
    orig: Option<OriginV>,
) {
    if 0 <= j && j < toks.len() {
        lemma_brackets_bounds(toks, j + 1, name, registers, widths, orig);
    }
}

// ---------------------------------------------------------------
// The spec compiler: whole patterns and lines
// ---------------------------------------------------------------
pub ghost struct PatternOut {
    pub states: Seq<StateV>,
    pub syntaxes: Seq<Seq<char>>,
    pub logs: Seq<LogV>,
}

/// One pattern line applied to its mnemonic's instruction: walk the
/// shape (growing the automaton), then record the template at the
/// state reached — unless it already accepts (a conflict), or the
/// arrow never came.  The rebuilt, lowercased pattern string is kept
/// for accepted patterns.
pub open spec fn spec_pattern(
    iv: InstrV,
    toks: Seq<LexV>,
    name: Seq<char>,
    orig: Option<OriginV>,
) -> PatternOut {
    let sh = spec_shape(toks, 1, name, iv.states, 0, 0, Seq::empty(), toks[0].slice, orig);
    if !sh.arrow {
        PatternOut {
            states: sh.states,
            syntaxes: iv.syntaxes,
            logs: sh.logs + seq![err_log(orig, msg_expect_arrow())],
        }
    } else if sh.states[sh.state].accept_codegen is Some {
        PatternOut {
            states: sh.states,
            syntaxes: iv.syntaxes.push(lower_seq(sh.syntax)),
            logs: sh.logs + seq![err_log(orig, msg_conflicting(name))],
        }
    } else {
        let t = spec_codegen(toks, sh.next, name, sh.registers, sh.widths, orig);
        PatternOut {
            states: sh.states.update(
                sh.state,
                StateV {
                    register: sh.states[sh.state].register,
                    immediate: sh.states[sh.state].immediate,
                    comma: sh.states[sh.state].comma,
                    accept_codegen: Some(t.codegen),
                },
            ),
            syntaxes: iv.syntaxes.push(lower_seq(sh.syntax)),
            logs: sh.logs + t.logs,
        }
    }
}

/// The index of a mnemonic's entry, if it has one.
pub open spec fn spec_index_of(m: Seq<(Seq<char>, InstrV)>, name: Seq<char>, k: int) -> Option<
    int,
>
    decreases m.len() - k,
{
    if k < 0 || k >= m.len() {
        None
    } else if m[k].0 == name {
        Some(k)
    } else {
        spec_index_of(m, name, k + 1)
    }
}

pub open spec fn fresh_instr() -> InstrV {
    InstrV { syntaxes: Seq::empty(), states: seq![fresh_state()] }
}

/// The mnemonic's entry, created fresh at the end if absent.
pub open spec fn spec_ensure_entry(m: Seq<(Seq<char>, InstrV)>, name: Seq<char>) -> (
    Seq<(Seq<char>, InstrV)>,
    int,
) {
    match spec_index_of(m, name, 0) {
        Some(i) => (m, i),
        None => (m.push((name, fresh_instr())), m.len() as int),
    }
}

pub ghost struct ConfigLineOut {
    pub map: Seq<(Seq<char>, InstrV)>,
    pub logs: Seq<LogV>,
}

/// One configuration line: blank lines are skipped; the line must
/// start with a mnemonic identifier; the pattern then extends that
/// mnemonic's automaton.  The entry is created (and kept) even when
/// the pattern itself errs.
pub open spec fn spec_config_line(
    m: Seq<(Seq<char>, InstrV)>,
    toks: Seq<LexV>,
    orig: Option<OriginV>,
) -> ConfigLineOut {
    if toks.len() == 0 {
        ConfigLineOut { map: m, logs: Seq::empty() }
    } else {
        match toks[0].token {
            TokV::Identifier(ident) => {
                let name = lower_seq(ident);
                let me = spec_ensure_entry(m, name);
                let p = spec_pattern(me.0[me.1].1, toks, name, orig);
                ConfigLineOut {
                    map: me.0.update(me.1, (name, InstrV { syntaxes: p.syntaxes, states: p.states })),
                    logs: p.logs,
                }
            },
            _ => ConfigLineOut { map: m, logs: seq![err_log(orig, msg_only_patterns())] },
        }
    }
}

pub ghost struct CompileOut {
    pub map: Seq<(Seq<char>, InstrV)>,
    pub logs: Seq<LogV>,
}

/// Folds the config lines from `l` on over the instruction map.
pub open spec fn spec_compile_from(
    m: Seq<(Seq<char>, InstrV)>,
    ls: Seq<Seq<char>>,
    l: int,
) -> CompileOut
    decreases ls.len() - l,
{
    if l < 0 || l >= ls.len() {
        CompileOut { map: m, logs: Seq::empty() }
    } else {
        let cur = spec_config_line(m, spec_tokens(ls[l]), crate::parser::line_origin(l));
        let rest = spec_compile_from(cur.map, ls, l + 1);
        CompileOut { map: rest.map, logs: cur.logs + rest.logs }
    }
}

/// The whole config compilation: the final instruction map and every
/// diagnostic, in line order.
pub open spec fn spec_compile(cfg: Seq<char>) -> CompileOut {
    spec_compile_from(Seq::empty(), spec_lines(cfg), 0)
}

// ---------------------------------------------------------------
// Message builders
// ---------------------------------------------------------------
fn build3(head: &str, slice: &String, tail: &str) -> (m: String)
    ensures
        m@ == head@ + slice@ + tail@,
{
    let mut m = String::from_str(head);
    m.append(slice.as_str());
    m.append(tail);
    proof {
        assert(m@ =~= head@ + slice@ + tail@);
    }
    m
}

fn build_imm_order(slice: &String, n: usize) -> (m: String)
    ensures
        m@ == msg_imm_order(slice@, n as int),
{
    let mut m = String::from_str(
        "immediates are parsed in the order they appear regardless of number; ",
    );
    m.append(slice.as_str());
    m.append(" will correspond to i");
    push_dec(&mut m, n as u64);
    m.append(" in codegen");
    proof {
        assert(n as u64 as nat == n as nat);
        assert(m@ =~= msg_imm_order(slice@, n as int));
    }
    m
}

fn build_reg_order(slice: &String, n: usize) -> (m: String)
    ensures
        m@ == msg_reg_order(slice@, n as int),
{
    let mut m = String::from_str(
        "registers are parsed in the order they appear regardless of number; ",
    );
    m.append(slice.as_str());
    m.append(" will correspond to r");
    push_dec(&mut m, n as u64);
    m.append(" in codegen");
    proof {
        assert(n as u64 as nat == n as nat);
        assert(m@ =~= msg_reg_order(slice@, n as int));
    }
    m
}

fn build_uses_imm(name: &String, im: u64) -> (m: String)
    ensures
        m@ == msg_uses_imm(name@, im),
{
    let mut m = String::from_str("'");
    m.append(name.as_str());
    m.append("' uses immediate ");
    push_dec(&mut m, im);
    m.append(" which is not given in the instruction pattern");
    proof {
        assert(m@ =~= msg_uses_imm(name@, im));
    }
    m
}

fn build_uses_reg(name: &String, r: u64) -> (m: String)
    ensures
        m@ == msg_uses_reg(name@, r),
{
    let mut m = String::from_str("'");
    m.append(name.as_str());
    m.append("' uses register ");
    push_dec(&mut m, r);
    m.append(" which is not given in the instruction pattern");
    proof {
        assert(m@ =~= msg_uses_reg(name@, r));
    }
    m
}

fn build_trunc8(slice: &String) -> (m: String)
    ensures
        m@ == msg_trunc8(slice@),
{
    let mut m = String::new();
    m.append(slice.as_str());
    m.append(" is larger than 8 bits and will be truncated");
    proof {
        assert(m@ =~= msg_trunc8(slice@));
    }
    m
}

fn build_trunc4(slice: &String) -> (m: String)
    ensures
        m@ == msg_trunc4(slice@),
{
    let mut m = String::new();
    m.append(slice.as_str());
    m.append(" is larger than 4 bits and will be truncated");
    proof {
        assert(m@ =~= msg_trunc4(slice@));
    }
    m
}

fn build_expected_after_got(after: &str, slice: &String) -> (m: String)
    ensures
        m@ == msg_expected_after_got(after@, slice@),
{
    let mut m = String::from_str("expected a literal or register after '");
    m.append(after);
    m.append("', but got '");
    m.append(slice.as_str());
    m.append("'");
    proof {
        assert(m@ =~= msg_expected_after_got(after@, slice@));
    }
    m
}

fn build_expected_after(after: &str) -> (m: String)
    ensures
        m@ == msg_expected_after(after@),
{
    let mut m = String::from_str("expected a literal or register after '");
    m.append(after);
    m.append("'");
    proof {
        assert(m@ =~= msg_expected_after(after@));
    }
    m
}

fn build_expected_sym_got(sym: &str, slice: &String) -> (m: String)
    ensures
        m@ == msg_expected_sym_got(sym@, slice@),
{
    let mut m = String::from_str("expected '");
    m.append(sym);
    m.append("' in bracket group, but got '");
    m.append(slice.as_str());
    m.append("'");
    proof {
        assert(m@ =~= msg_expected_sym_got(sym@, slice@));
    }
    m
}

fn build_expected_sym(sym: &str) -> (m: String)
    ensures
        m@ == msg_expected_sym(sym@),
{
    let mut m = String::from_str("expected '");
    m.append(sym);
    m.append("' in bracket group");
    proof {
        assert(m@ =~= msg_expected_sym(sym@));
    }
    m
}

// ---------------------------------------------------------------
// Executable automaton growth
// ---------------------------------------------------------------
/// Walks one shape transition, appending a fresh state where none
/// exists yet.
fn advance(states: &mut Vec<TransitionTable>, state: usize, kind: TransitionKind) -> (next: usize)
    requires
        state < old(states)@.len(),
        crate::parser::states_wf(crate::parser::states_view(old(states)@)),
    ensures
        ({
            let adv = spec_advance(
                crate::parser::states_view(old(states)@),
                state as int,
                kind,
            );
            crate::parser::states_view(final(states)@) == adv.0 && next as int == adv.1
        }),
        crate::parser::states_wf(crate::parser::states_view(final(states)@)),
        next < final(states)@.len(),
        old(states)@.len() <= final(states)@.len(),
{
    let ghost sv = crate::parser::states_view(old(states)@);
    let t = match kind {
        TransitionKind::Register => states[state].register,
        TransitionKind::Immediate => states[state].immediate,
        TransitionKind::Comma => states[state].comma,
    };
    proof {
        assert(sv[state as int] == old(states)@[state as int]@);
        assert(crate::parser::state_wf(sv[state as int], sv.len() as int));
    }
    match t {
        Transition::NextState(n) => {
            proof {
                assert(crate::parser::states_view(states@) =~= sv);
            }
            n
        },
        Transition::Reject => {
            let n = states.len();
            let mut st = states.remove(state);
            match kind {
                TransitionKind::Register => {
                    st.register = Transition::NextState(n);
                },
                TransitionKind::Immediate => {
                    st.immediate = Transition::NextState(n);
                },
                TransitionKind::Comma => {
                    st.comma = Transition::NextState(n);
                },
            }
            states.insert(state, st);
            states.push(TransitionTable::default());
            proof {
                let target = spec_advance(sv, state as int, kind).0;
                assert(st@ == kind_set(sv[state as int], kind, Transition::NextState(n)));
                assert(crate::parser::states_view(states@) =~= target) by {
                    assert forall|k: int|
                        0 <= k < states@.len() implies crate::parser::states_view(states@)[k]
                        == target[k] by {
                        assert(crate::parser::states_view(states@)[k] == states@[k]@);
                        if k < state as int {
                            assert(states@[k] == old(states)@[k]);
                        } else if k == state as int {
                            assert(states@[k] == st);
                        } else if k < states@.len() - 1 {
                            assert(states@[k] == old(states)@[k]);
                        } else {
                            assert(states@[k]@ == fresh_state());
                        }
                    }
                }
                assert(crate::parser::states_wf(target)) by {
                    assert forall|k: int|
                        0 <= k < target.len() implies crate::parser::state_wf(
                        #[trigger] target[k],
                        target.len() as int,
                    ) by {
                        if k < sv.len() && k != state as int {
                            assert(target[k] == sv[k]);
                            assert(crate::parser::state_wf(sv[k], sv.len() as int));
                        }
                    }
                }
            }
            n
        },
    }
}

// ---------------------------------------------------------------
// Executable bracket groups
// ---------------------------------------------------------------
proof fn lemma_has_error_single(l: LogV)
    ensures
        has_error(seq![l]) <==> (l.level is Error),
{
    if l.level is Error {
        assert(seq![l][0].level is Error);
    }
    if has_error(seq![l]) {
        let i = choose|i: int| 0 <= i < seq![l].len() && (#[trigger] seq![l][i]).level is Error;
        assert(seq![l][i] == l);
    }
}

proof fn lemma_has_error_empty()
    ensures
        !has_error(Seq::<LogV>::empty()),
{
    if has_error(Seq::<LogV>::empty()) {
        let i = choose|i: int|
            0 <= i < Seq::<LogV>::empty().len() && (#[trigger] Seq::<LogV>::empty()[
                i
            ]).level is Error;
    }
}

fn bracket_atom(
    toks: &Vec<Lexeme>,
    j: usize,
    name: &String,
    registers: usize,
    widths: &Vec<u64>,
    after: &str,
    logger: &mut Logger,
) -> (r: (usize, Option<CodegenData>, bool))
    requires
        j <= toks@.len(),
    ensures
        ({
            let a = spec_bracket_atom(
                lexemes_view(toks@),
                j as int,
                name@,
                registers as int,
                widths@,
                after@,
                old(logger).spec_origin(),
            );
            r.0 as int == a.next && r.1 == a.atom && r.2 == has_error(a.logs) && final(logger)@
                == old(logger)@ + a.logs && final(logger).spec_origin() == old(
                logger,
            ).spec_origin() && j <= r.0 <= toks@.len()
        }),
{
    let ghost tv = lexemes_view(toks@);
    let ghost orig0 = old(logger).spec_origin();
    if j >= toks.len() {
        logger.log_error(build_expected_after(after));
        proof {
            lemma_has_error_single(err_log(orig0, msg_expected_after(after@)));
            assert(logger@ =~= old(logger)@ + spec_bracket_atom(
                tv,
                j as int,
                name@,
                registers as int,
                widths@,
                after@,
                orig0,
            ).logs);
        }
        return (j, None, true);
    }
    let lex = &toks[j];
    proof {
        assert(tv[j as int] == toks@[j as int]@);
    }
    match &lex.token {
        Token::Integer(intv) => {
            let v = intv.wrap_value();
            if v > 0xF {
                logger.log_warning(build_trunc4(&lex.slice));
            }
            proof {
                assert(v & 0xF <= 0xF) by (bit_vector);
                lemma_has_error_single(warn_log(orig0, msg_trunc4(tv[j as int].slice)));
                lemma_has_error_empty();
                assert(logger@ =~= old(logger)@ + spec_bracket_atom(
                    tv,
                    j as int,
                    name@,
                    registers as int,
                    widths@,
                    after@,
                    old(logger).spec_origin(),
                ).logs);
            }
            (j + 1, Some(CodegenData::Byte((v & 0xF) as u8)), false)
        },
        Token::Immediate(im) => {
            let im = *im;
            if im >= widths.len() as u64 {
                logger.log_error(build_uses_imm(name, im));
                proof {
                    lemma_has_error_single(err_log(orig0, msg_uses_imm(name@, im)));
                    assert(logger@ =~= old(logger)@ + spec_bracket_atom(
                        tv,
                        j as int,
                        name@,
                        registers as int,
                        widths@,
                        after@,
                        old(logger).spec_origin(),
                    ).logs);
                }
                (j + 1, None, true)
            } else if widths[im as usize] != 4 {
                logger.log_error(String::from_str(
                    "width of immediate in bracket group must be 4 (for now)",
                ));
                proof {
                    lemma_has_error_single(err_log(orig0, msg_width4()));
                    assert(logger@ =~= old(logger)@ + spec_bracket_atom(
                        tv,
                        j as int,
                        name@,
                        registers as int,
                        widths@,
                        after@,
                        old(logger).spec_origin(),
                    ).logs);
                }
                (j + 1, None, true)
            } else {
                proof {
                    lemma_has_error_empty();
                    assert(logger@ =~= old(logger)@ + spec_bracket_atom(
                        tv,
                        j as int,
                        name@,
                        registers as int,
                        widths@,
                        after@,
                        old(logger).spec_origin(),
                    ).logs);
                }
                (j + 1, Some(CodegenData::Immediate(im as usize, 4)), false)
            }
        },
        Token::Register(r) => {
            let r = *r;
            if r >= registers as u64 {
                logger.log_error(build_uses_reg(name, r));
            }
            proof {
                lemma_has_error_single(err_log(orig0, msg_uses_reg(name@, r)));
                lemma_has_error_empty();
                assert(logger@ =~= old(logger)@ + spec_bracket_atom(
                    tv,
                    j as int,
                    name@,
                    registers as int,
                    widths@,
                    after@,
                    old(logger).spec_origin(),
                ).logs);
            }
            (j + 1, Some(CodegenData::Register(#[verifier::truncate] (r as usize))), r >= registers as u64)
        },
        _ => {
            logger.log_error(build_expected_after_got(after, &lex.slice));
            proof {
                lemma_has_error_single(
                    err_log(orig0, msg_expected_after_got(after@, tv[j as int].slice)),
                );
                assert(logger@ =~= old(logger)@ + spec_bracket_atom(
                    tv,
                    j as int,
                    name@,
                    registers as int,
                    widths@,
                    after@,
                    old(logger).spec_origin(),
                ).logs);
            }
            (j + 1, None, true)
        },
    }
}

/// One bracket group after its `[`, producing the packed step when
/// everything inside parsed cleanly.
fn codegen_brackets(
    toks: &Vec<Lexeme>,
    j: usize,
    name: &String,
    registers: usize,
    widths: &Vec<u64>,
    logger: &mut Logger,
) -> (r: (usize, Option<Codegen>))
    requires
        j <= toks@.len(),
    ensures
        ({
            let br = spec_brackets(
                lexemes_view(toks@),
                j as int,
                name@,
                registers as int,
                widths@,
                old(logger).spec_origin(),
            );
            r.0 as int == br.next && r.1 == br.result && final(logger)@ == old(logger)@ + br.logs
                && final(logger).spec_origin() == old(logger).spec_origin() && j <= r.0
                <= toks@.len()
        }),
{
    let ghost tv = lexemes_view(toks@);
    let ghost orig = old(logger).spec_origin();
    let ghost pre = old(logger)@;
    let (j1, upper, up_err) = bracket_atom(toks, j, name, registers, widths, "[", logger);
    let upper = match upper {
        None => {
            return (j1, None);
        },
        Some(u) => u,
    };
    let ghost up = spec_bracket_atom(tv, j as int, name@, registers as int, widths@, "["@, orig);
    // the separating pipe
    let pipe_ok: bool;
    let j2: usize;
    if j1 >= toks.len() {
        logger.log_error(build_expected_sym("|"));
        pipe_ok = false;
        j2 = j1;
    } else if matches!(&toks[j1].token, Token::Pipe) {
        proof {
            assert(tv[j1 as int] == toks@[j1 as int]@);
        }
        pipe_ok = true;
        j2 = j1 + 1;
    } else {
        proof {
            assert(tv[j1 as int] == toks@[j1 as int]@);
        }
        logger.log_error(build_expected_sym_got("|", &toks[j1].slice));
        pipe_ok = false;
        j2 = j1 + 1;
    }
    if !pipe_ok {
        proof {
            let br = spec_brackets(tv, j as int, name@, registers as int, widths@, orig);
            assert(logger@ =~= pre + br.logs);
        }
        return (j2, None);
    }
    let (j3, lower, lo_err) = bracket_atom(toks, j2, name, registers, widths, "|", logger);
    let lower = match lower {
        None => {
            proof {
                let br = spec_brackets(tv, j as int, name@, registers as int, widths@, orig);
                assert(logger@ =~= pre + br.logs);
            }
            return (j3, None);
        },
        Some(l) => l,
    };
    let ghost lo = spec_bracket_atom(tv, j2 as int, name@, registers as int, widths@, "|"@, orig);
    // the closing bracket
    let close_ok: bool;
    let j4: usize;
    if j3 >= toks.len() {
        logger.log_error(build_expected_sym("]"));
        close_ok = false;
        j4 = j3;
    } else if matches!(&toks[j3].token, Token::CloseBracket) {
        proof {
            assert(tv[j3 as int] == toks@[j3 as int]@);
        }
        close_ok = true;
        j4 = j3 + 1;
    } else {
        proof {
            assert(tv[j3 as int] == toks@[j3 as int]@);
        }
        logger.log_error(build_expected_sym_got("]", &toks[j3].slice));
        close_ok = false;
        j4 = j3 + 1;
    }
    if !close_ok {
        proof {
            let br = spec_brackets(tv, j as int, name@, registers as int, widths@, orig);
            assert(logger@ =~= pre + br.logs);
        }
        return (j4, None);
    }
    // any error inside the group (an undeclared register reference)
    // withholds the packed step
    let ghost glogs = up.logs + lo.logs;
    proof {
        crate::log::lemma_has_error_split(up.logs, lo.logs);
        assert(logger@ =~= pre + glogs);
    }
    if up_err || lo_err {
        (j4, None)
    } else {
        (j4, Some(Codegen::UpperLower(upper, lower)))
    }
}

// ---------------------------------------------------------------
// Executable template parsing
// ---------------------------------------------------------------
/// Reads the encoding template after `->`.
#[verifier::rlimit(60)]
fn parse_codegen(
    toks: &Vec<Lexeme>,
    start: usize,
    name: &String,
    registers: usize,
    widths: &Vec<u64>,
    logger: &mut Logger,
) -> (cg: Vec<Codegen>)
    requires
        start <= toks@.len(),
    ensures
        ({
            let t = spec_codegen(
                lexemes_view(toks@),
                start as int,
                name@,
                registers as int,
                widths@,
                old(logger).spec_origin(),
            );
            cg@ == t.codegen && final(logger)@ == old(logger)@ + t.logs
                && final(logger).spec_origin() == old(logger).spec_origin()
        }),
{
    let ghost tv = lexemes_view(toks@);
    let ghost orig = old(logger).spec_origin();
    let ghost target = spec_codegen(tv, start as int, name@, registers as int, widths@, orig);
    let mut cg: Vec<Codegen> = Vec::new();
    let mut j: usize = start;
    while j < toks.len()
        invariant
            start <= j <= toks@.len(),
            logger.spec_origin() == orig,
            target.codegen == cg@ + spec_codegen(
                tv,
                j as int,
                name@,
                registers as int,
                widths@,
                orig,
            ).codegen,
            old(logger)@ + target.logs == logger@ + spec_codegen(
                tv,
                j as int,
                name@,
                registers as int,
                widths@,
                orig,
            ).logs,
        decreases toks@.len() - j,
    {
        let ghost rest = spec_codegen(tv, j as int, name@, registers as int, widths@, orig);
        let lex = &toks[j];
        proof {
            assert(tv[j as int] == toks@[j as int]@);
        }
        match &lex.token {
            Token::Integer(intv) => {
                let v = intv.wrap_value();
                if v > 255 {
                    logger.log_warning(build_trunc8(&lex.slice));
                }
                cg.push(Codegen::byte(v as u8));
                proof {
                    assert(target.codegen =~= cg@ + spec_codegen(
                        tv,
                        j + 1,
                        name@,
                        registers as int,
                        widths@,
                        orig,
                    ).codegen);
                    assert(old(logger)@ + target.logs =~= logger@ + spec_codegen(
                        tv,
                        j + 1,
                        name@,
                        registers as int,
                        widths@,
                        orig,
                    ).logs);
                }
                j = j + 1;
            },
            Token::Immediate(im) => {
                let im = *im;
                if im >= widths.len() as u64 {
                    logger.log_error(build_uses_imm(name, im));
                    proof {
                        assert(target.codegen =~= cg@);
                        assert(old(logger)@ + target.logs =~= logger@);
                    }
                    return cg;
                } else if widths[im as usize] % 8 != 0 {
                    logger.log_error(String::from_str(
                        "immediate width must be byte aligned (for now)",
                    ));
                    proof {
                        assert(target.codegen =~= cg@ + spec_codegen(
                            tv,
                            j + 1,
                            name@,
                            registers as int,
                            widths@,
                            orig,
                        ).codegen);
                        assert(old(logger)@ + target.logs =~= logger@ + spec_codegen(
                            tv,
                            j + 1,
                            name@,
                            registers as int,
                            widths@,
                            orig,
                        ).logs);
                    }
                    j = j + 1;
                } else {
                    let w = widths[im as usize];
                    cg.push(Codegen::immediate(im as usize, #[verifier::truncate] (w as usize)));
                    proof {
                        assert(target.codegen =~= cg@ + spec_codegen(
                            tv,
                            j + 1,
                            name@,
                            registers as int,
                            widths@,
                            orig,
                        ).codegen);
                        assert(old(logger)@ + target.logs =~= logger@ + spec_codegen(
                            tv,
                            j + 1,
                            name@,
                            registers as int,
                            widths@,
                            orig,
                        ).logs);
                    }
                    j = j + 1;
                }
            },
            Token::Register(r) => {
                let r = *r;
                if r >= registers as u64 {
                    logger.log_error(build_uses_reg(name, r));
                }
                cg.push(Codegen::register(#[verifier::truncate] (r as usize)));
                proof {
                    assert(target.codegen =~= cg@ + spec_codegen(
                        tv,
                        j + 1,
                        name@,
                        registers as int,
                        widths@,
                        orig,
                    ).codegen);
                    assert(old(logger)@ + target.logs =~= logger@ + spec_codegen(
                        tv,
                        j + 1,
                        name@,
                        registers as int,
                        widths@,
                        orig,
                    ).logs);
                }
                j = j + 1;
            },
            Token::OpenBracket => {
                let (next, result) = codegen_brackets(toks, j + 1, name, registers, widths, logger);
                match result {
                    Some(c) => {
                        cg.push(c);
                    },
                    None => {},
                }
                proof {
                    assert(target.codegen =~= cg@ + spec_codegen(
                        tv,
                        next as int,
                        name@,
                        registers as int,
                        widths@,
                        orig,
                    ).codegen);
                    assert(old(logger)@ + target.logs =~= logger@ + spec_codegen(
                        tv,
                        next as int,
                        name@,
                        registers as int,
                        widths@,
                        orig,
                    ).logs);
                    lemma_brackets_bounds(tv, j + 1, name@, registers as int, widths@, orig);
                }
                j = next;
            },
            _ => {
                logger.log_error(build_codegen_supports(&lex.slice));
                proof {
                    assert(target.codegen =~= cg@);
                    assert(old(logger)@ + target.logs =~= logger@);
                }
                return cg;
            },
        }
    }
    proof {
        assert(target.codegen =~= cg@);
        assert(old(logger)@ + target.logs =~= logger@);
    }
    cg
}

fn build_codegen_supports(slice: &String) -> (m: String)
    ensures
        m@ == msg_codegen_supports(slice@),
{
    build3(
        "codegen only supports literal values, registers, and bracket groups, but got '",
        slice,
        "'",
    )
}

// ---------------------------------------------------------------
// Executable pattern compilation
// ---------------------------------------------------------------
/// Appends one token's text to the pattern string under the spacing
/// rule of [`join_part`].
fn join_part_exec(parts: &mut Vec<char>, slice: &String)
    ensures
        final(parts)@ == join_part(old(parts)@, slice@),
{
    let cs = chars_of(slice.as_str());
    let is_comma = cs.len() == 1 && cs[0] == ',';
    let is_colon_tok = cs.len() == 1 && cs[0] == ':';
    proof {
        if is_comma {
            assert(slice@ =~= seq![',']);
        } else {
            assert(slice@ != seq![',']) by {
                if slice@ == seq![','] {
                    assert(cs@.len() == 1 && cs@[0] == ',');
                }
            }
        }
        if is_colon_tok {
            assert(slice@ =~= seq![':']);
        } else {
            assert(slice@ != seq![':']) by {
                if slice@ == seq![':'] {
                    assert(cs@.len() == 1 && cs@[0] == ':');
                }
            }
        }
    }
    let no_space = parts.len() == 0 || parts[parts.len() - 1] == ':' || is_comma || is_colon_tok;
    let ghost base = old(parts)@;
    if !no_space {
        parts.push(' ');
        proof {
            assert(parts@ =~= base + seq![' ']);
        }
    }
    let ghost mid = parts@;
    let mut i: usize = 0;
    while i < cs.len()
        invariant
            i <= cs@.len(),
            cs@ == slice@,
            parts@ == mid + slice@.subrange(0, i as int),
        decreases cs@.len() - i,
    {
        parts.push(cs[i]);
        proof {
            assert(parts@ =~= mid + slice@.subrange(0, i + 1 as int));
        }
        i = i + 1;
    }
    proof {
        assert(slice@.subrange(0, slice@.len() as int) =~= slice@);
        assert(parts@ =~= join_part(base, slice@));
    }
}

/// Compiles one pattern line into its mnemonic's instruction.
#[verifier::rlimit(100)]
fn process_pattern(entry: &mut Instruction, toks: &Vec<Lexeme>, name: &String, logger: &mut Logger)
    requires
        toks@.len() >= 1,
        instr_wf(old(entry)@),
    ensures
        ({
            let p = spec_pattern(
                old(entry)@,
                lexemes_view(toks@),
                name@,
                old(logger).spec_origin(),
            );
            crate::parser::states_view(final(entry).states@) == p.states
                && crate::parser::syntaxes_view(final(entry).syntaxes@) == p.syntaxes
                && final(logger)@ == old(logger)@ + p.logs
                && final(logger).spec_origin() == old(logger).spec_origin()
                && instr_wf(final(entry)@)
        }),
{
    let ghost tv = lexemes_view(toks@);
    let ghost orig = old(logger).spec_origin();
    let ghost pre0 = old(logger)@;
    let ghost sh_target = spec_shape(
        tv,
        1,
        name@,
        crate::parser::states_view(old(entry).states@),
        0,
        0,
        Seq::empty(),
        tv[0].slice,
        orig,
    );
    proof {
        assert(tv[0] == toks@[0]@);
    }
    let mut parts: Vec<char> = chars_of(toks[0].slice.as_str());
    let mut state: usize = 0;
    let mut registers: usize = 0;
    let mut widths: Vec<u64> = Vec::new();
    let mut j: usize = 1;
    while j < toks.len()
        invariant
            1 <= j <= toks@.len(),
            registers < j,
            state < entry.states@.len(),
            crate::parser::states_wf(crate::parser::states_view(entry.states@)),
            entry.states@.len() >= old(entry).states@.len(),
            entry.syntaxes@ == old(entry).syntaxes@,
            logger.spec_origin() == orig,
            ({
                let rest = spec_shape(
                    tv,
                    j as int,
                    name@,
                    crate::parser::states_view(entry.states@),
                    state as int,
                    registers as int,
                    widths@,
                    parts@,
                    orig,
                );
                sh_target.states == rest.states && sh_target.state == rest.state
                    && sh_target.registers == rest.registers && sh_target.widths == rest.widths
                    && sh_target.syntax == rest.syntax && sh_target.arrow == rest.arrow
                    && sh_target.next == rest.next && pre0 + sh_target.logs == logger@ + rest.logs
            }),
        decreases toks@.len() - j,
    {
        let ghost rest = spec_shape(
            tv,
            j as int,
            name@,
            crate::parser::states_view(entry.states@),
            state as int,
            registers as int,
            widths@,
            parts@,
            orig,
        );
        let ghost lg0 = logger@;
        let lex = &toks[j];
        proof {
            assert(tv[j as int] == toks@[j as int]@);
        }
        match &lex.token {
            Token::Immediate(im) => {
                let im = *im;
                if im != widths.len() as u64 {
                    logger.log_warning(build_imm_order(&lex.slice, widths.len()));
                }
                join_part_exec(&mut parts, &lex.slice);
                if j + 1 < toks.len() && matches!(&toks[j + 1].token, Token::Colon) {
                    proof {
                        assert(tv[j + 1] == toks@[j + 1]@);
                    }
                    join_part_exec(&mut parts, &toks[j + 1].slice);
                    if j + 2 < toks.len() {
                        proof {
                            assert(tv[j + 2] == toks@[j + 2]@);
                        }
                        let width_tok = &toks[j + 2];
                        match &width_tok.token {
                            Token::Integer(wv) => {
                                join_part_exec(&mut parts, &width_tok.slice);
                                widths.push(wv.wrap_value());
                                let next = advance(
                                    &mut entry.states,
                                    state,
                                    TransitionKind::Immediate,
                                );
                                state = next;
                                proof {
                                    let rest2 = spec_shape(
                                        tv,
                                        j + 3,
                                        name@,
                                        crate::parser::states_view(entry.states@),
                                        state as int,
                                        registers as int,
                                        widths@,
                                        parts@,
                                        orig,
                                    );
                                    assert(rest.logs =~= (if tv[j as int].token->Immediate_0
                                        != (widths@.len() - 1) as u64 {
                                        seq![
                                            warn_log(
                                                orig,
                                                msg_imm_order(
                                                    tv[j as int].slice,
                                                    widths@.len() - 1,
                                                ),
                                            ),
                                        ]
                                    } else {
                                        Seq::<LogV>::empty()
                                    }) + rest2.logs);
                                    assert(pre0 + sh_target.logs =~= logger@ + rest2.logs);
                                }
                                j = j + 3;
                            },
                            _ => {
                                logger.log_error(
                                    build3(
                                        "expected width of immediate, but got: '",
                                        &width_tok.slice,
                                        "'",
                                    ),
                                );
                                logger.log_error(
                                    String::from_str(
                                        "expected '->' following an instruction pattern",
                                    ),
                                );
                                proof {
                                    assert(!sh_target.arrow);
                                    let warns: Seq<LogV> = if tv[j as int].token->Immediate_0
                                        != widths@.len() as u64 {
                                        seq![
                                            warn_log(
                                                orig,
                                                msg_imm_order(
                                                    tv[j as int].slice,
                                                    widths@.len() as int,
                                                ),
                                            ),
                                        ]
                                    } else {
                                        Seq::<LogV>::empty()
                                    };
                                    assert(rest.logs =~= warns + seq![
                                        err_log(
                                            orig,
                                            msg_expected_width_colon_got(tv[j + 2].slice),
                                        ),
                                    ]);
                                    assert(logger@ =~= lg0 + (rest.logs + seq![
                                        err_log(orig, msg_expect_arrow()),
                                    ]));
                                    assert(pre0 + sh_target.logs =~= lg0 + rest.logs);
                                    let e2 = err_log(orig, msg_expect_arrow());
                                    assert((lg0 + rest.logs) + seq![e2] =~= lg0 + (rest.logs
                                        + seq![e2]));
                                    assert((pre0 + sh_target.logs) + seq![e2] =~= pre0 + (
                                    sh_target.logs + seq![e2]));
                                    assert(logger@ =~= pre0 + (sh_target.logs + seq![e2]));
                                }
                                return ;
                            },
                        }
                    } else {
                        logger.log_error(String::from_str("expected width of immediate"));
                        logger.log_error(
                            String::from_str("expected '->' following an instruction pattern"),
                        );
                        proof {
                            assert(!sh_target.arrow);
                            let warns: Seq<LogV> = if tv[j as int].token->Immediate_0
                                != widths@.len() as u64 {
                                seq![
                                    warn_log(
                                        orig,
                                        msg_imm_order(tv[j as int].slice, widths@.len() as int),
                                    ),
                                ]
                            } else {
                                Seq::<LogV>::empty()
                            };
                            assert(rest.logs =~= warns + seq![
                                err_log(orig, msg_expected_width()),
                            ]);
                            assert(logger@ =~= lg0 + (rest.logs + seq![
                                err_log(orig, msg_expect_arrow()),
                            ]));
                            assert(pre0 + sh_target.logs =~= lg0 + rest.logs);
                            let e2 = err_log(orig, msg_expect_arrow());
                            assert((lg0 + rest.logs) + seq![e2] =~= lg0 + (rest.logs + seq![e2]));
                            assert((pre0 + sh_target.logs) + seq![e2] =~= pre0 + (sh_target.logs
                                + seq![e2]));
                            assert(logger@ =~= pre0 + (sh_target.logs + seq![e2]));
                        }
                        return ;
                    }
                } else if j + 1 < toks.len() {
                    proof {
                        assert(tv[j + 1] == toks@[j + 1]@);
                    }
                    logger.log_error(
                        build3("expected width of immediate, but got '", &toks[j + 1].slice, "'"),
                    );
                    join_part_exec(&mut parts, &toks[j + 1].slice);
                    proof {
                        let rest2 = spec_shape(
                            tv,
                            j + 2,
                            name@,
                            crate::parser::states_view(entry.states@),
                            state as int,
                            registers as int,
                            widths@,
                            parts@,
                            orig,
                        );
                        assert(pre0 + sh_target.logs =~= logger@ + rest2.logs);
                    }
                    j = j + 2;
                } else {
                    logger.log_error(String::from_str("expected width of immediate"));
                    proof {
                        let rest2 = spec_shape(
                            tv,
                            j + 1,
                            name@,
                            crate::parser::states_view(entry.states@),
                            state as int,
                            registers as int,
                            widths@,
                            parts@,
                            orig,
                        );
                        assert(pre0 + sh_target.logs =~= logger@ + rest2.logs);
                    }
                    j = j + 1;
                }
            },
            Token::Register(r) => {
                let r = *r;
                if r != registers as u64 {
                    logger.log_warning(build_reg_order(&lex.slice, registers));
                }
                join_part_exec(&mut parts, &lex.slice);
                let next = advance(&mut entry.states, state, TransitionKind::Register);
                state = next;
                registers = registers + 1;
                proof {
                    let rest2 = spec_shape(
                        tv,
                        j + 1,
                        name@,
                        crate::parser::states_view(entry.states@),
                        state as int,
                        registers as int,
                        widths@,
                        parts@,
                        orig,
                    );
                    assert(pre0 + sh_target.logs =~= logger@ + rest2.logs);
                }
                j = j + 1;
            },
            Token::Comma => {
                join_part_exec(&mut parts, &lex.slice);
                let next = advance(&mut entry.states, state, TransitionKind::Comma);
                state = next;
                proof {
                    let rest2 = spec_shape(
                        tv,
                        j + 1,
                        name@,
                        crate::parser::states_view(entry.states@),
                        state as int,
                        registers as int,
                        widths@,
                        parts@,
                        orig,
                    );
                    assert(pre0 + sh_target.logs =~= logger@ + rest2.logs);
                }
                j = j + 1;
            },
            Token::Arrow => {
                // the shape ends here; what follows is the template
                proof {
                    assert(sh_target.arrow);
                    assert(sh_target.states == crate::parser::states_view(entry.states@));
                    assert(sh_target.state == state as int);
                    assert(sh_target.syntax == parts@);
                    assert(sh_target.next == j + 1);
                    assert(pre0 + sh_target.logs =~= logger@);
                }
                let accepts = matches!(&entry.states[state].accept_codegen, Some(_));
                proof {
                    assert(crate::parser::states_view(entry.states@)[state as int] == entry.states@[
                        state as int
                    ]@);
                }
                if accepts {
                    logger.log_error(build3("conflicting patterns for instruction '", name, "'"));
                } else {
                    let cg = parse_codegen(toks, j + 1, name, registers, &widths, logger);
                    let ghost pre_states = crate::parser::states_view(entry.states@);
                    let mut st = entry.states.remove(state);
                    st.accept_codegen = Some(cg);
                    entry.states.insert(state, st);
                    proof {
                        let target_states = pre_states.update(
                            state as int,
                            StateV {
                                register: pre_states[state as int].register,
                                immediate: pre_states[state as int].immediate,
                                comma: pre_states[state as int].comma,
                                accept_codegen: Some(cg@),
                            },
                        );
                        assert(crate::parser::states_view(entry.states@) =~= target_states) by {
                            assert forall|k: int|
                                0 <= k < entry.states@.len() implies crate::parser::states_view(
                                entry.states@,
                            )[k] == target_states[k] by {
                                assert(crate::parser::states_view(entry.states@)[k]
                                    == entry.states@[k]@);
                                if k == state as int {
                                    assert(entry.states@[k] == st);
                                }
                            }
                        }
                        assert(crate::parser::states_wf(target_states)) by {
                            assert forall|k: int|
                                0 <= k < target_states.len() implies crate::parser::state_wf(
                                #[trigger] target_states[k],
                                target_states.len() as int,
                            ) by {
                                if k != state as int {
                                    assert(target_states[k] == pre_states[k]);
                                }
                                assert(crate::parser::state_wf(
                                    pre_states[k],
                                    pre_states.len() as int,
                                ));
                            }
                        }
                    }
                }
                let syn = string_of(&parts);
                let lowered = lower_string(&syn);
                entry.syntaxes.push(lowered);
                proof {
                    let p = spec_pattern(old(entry)@, tv, name@, orig);
                    assert(crate::parser::syntaxes_view(entry.syntaxes@) =~= crate::parser::syntaxes_view(
                        old(entry).syntaxes@,
                    ).push(lower_seq(sh_target.syntax)));
                    assert(logger@ =~= pre0 + p.logs);
                }
                return ;
            },
            _ => {
                logger.log_error(build3("unexpected token in instruction pattern: '", &lex.slice, "'"));
                join_part_exec(&mut parts, &lex.slice);
                proof {
                    let rest2 = spec_shape(
                        tv,
                        j + 1,
                        name@,
                        crate::parser::states_view(entry.states@),
                        state as int,
                        registers as int,
                        widths@,
                        parts@,
                        orig,
                    );
                    assert(pre0 + sh_target.logs =~= logger@ + rest2.logs);
                }
                j = j + 1;
            },
        }
    }
    // the line ended without `->`
    logger.log_error(String::from_str("expected '->' following an instruction pattern"));
    proof {
        assert(!sh_target.arrow);
        assert(logger@ =~= pre0 + (sh_target.logs + seq![err_log(orig, msg_expect_arrow())]));
    }
}

/// The index of the mnemonic's entry, appending a fresh one-state
/// instruction if it is new.
fn find_or_insert(map: &mut Vec<(String, Instruction)>, name: &String) -> (idx: usize)
    ensures
        ({
            let me = spec_ensure_entry(
                crate::parser::instructions_view(old(map)@),
                name@,
            );
            crate::parser::instructions_view(final(map)@) == me.0 && idx as int == me.1
        }),
        idx < final(map)@.len(),
        final(map)@[idx as int].0@ == name@,
        asm_wf(crate::parser::instructions_view(old(map)@)) ==> asm_wf(
            crate::parser::instructions_view(final(map)@),
        ),
{
    let ghost mv = crate::parser::instructions_view(map@);
    let n = map.len();
    let mut k: usize = 0;
    while k < n
        invariant
            k <= n,
            n == mv.len(),
            map@ == old(map)@,
            spec_index_of(mv, name@, 0) == spec_index_of(mv, name@, k as int),
        decreases n - k,
    {
        proof {
            assert(mv[k as int] == (map@[k as int].0@, map@[k as int].1@));
        }
        if map[k].0 == *name {
            return k;
        }
        k = k + 1;
    }
    let mut states: Vec<TransitionTable> = Vec::new();
    states.push(TransitionTable::default());
    let fresh = Instruction { syntaxes: Vec::new(), states };
    proof {
        assert(fresh@.syntaxes =~= fresh_instr().syntaxes);
        assert(fresh@.states =~= fresh_instr().states);
        assert(fresh@ == fresh_instr());
    }
    map.push((name.clone(), fresh));
    proof {
        assert(crate::parser::instructions_view(map@) =~= mv.push((name@, fresh_instr())));
        let newv = crate::parser::instructions_view(map@);
        if asm_wf(mv) {
            assert(asm_wf(newv)) by {
                assert forall|j: int| 0 <= j < newv.len() implies instr_wf(
                    (#[trigger] newv[j]).1,
                ) by {
                    if j < mv.len() {
                        assert(newv[j] == mv[j]);
                    } else {
                        assert(newv[j].1 == fresh_instr());
                        assert(fresh_instr().states[0] == fresh_state());
                    }
                }
            }
        }
    }
    n
}

/// Compiles a configuration text into an assembler: one pattern per
/// line, patterns for one mnemonic merged into a single automaton.
/// The table is produced exactly when no line erred; every diagnostic
/// is kept either way, tagged with its line.
pub fn create_assembler_from_config(config: &str) -> (r: LoggedResult<Assembler>)
    ensures
        r.spec_logs() == spec_compile(config@).logs,
        has_error(spec_compile(config@).logs) ==> r.spec_result() is None,
        !has_error(spec_compile(config@).logs) ==> (r.spec_result() matches Some(a) && a@
            == spec_compile(config@).map && a.wf()),
{
    let cs = chars_of(config);
    let lines = split_lines(&cs);
    let ghost lsv = spec_lines(config@);
    let ghost target = spec_compile_from(Seq::empty(), lsv, 0);
    let mut map: Vec<(String, Instruction)> = Vec::new();
    let mut logger = Logger::new(None);
    let mut l: usize = 0;
    proof {
        assert(crate::parser::instructions_view(map@) =~= Seq::<(Seq<char>, InstrV)>::empty());
    }
    while l < lines.len()
        invariant
            l <= lines@.len(),
            lines_view(lines@) == lsv,
            asm_wf(crate::parser::instructions_view(map@)),
            target.map == spec_compile_from(
                crate::parser::instructions_view(map@),
                lsv,
                l as int,
            ).map,
            target.logs == logger@ + spec_compile_from(
                crate::parser::instructions_view(map@),
                lsv,
                l as int,
            ).logs,
        decreases lines@.len() - l,
    {
        let ghost mv = crate::parser::instructions_view(map@);
        let ghost pre_logs = logger@;
        let ghost cur = spec_config_line(
            mv,
            spec_tokens(lsv[l as int]),
            crate::parser::line_origin(l as int),
        );
        logger.set_origin(Some(Origin { file: "[unknown]".to_owned(), line: l }));
        proof {
            assert(logger.spec_origin() == crate::parser::line_origin(l as int));
        }
        let toks = tokenize(&lines[l]);
        proof {
            assert(lines@[l as int]@ == lsv[l as int]);
            assert(lexemes_view(toks@) == spec_tokens(lsv[l as int]));
        }
        if toks.len() > 0 {
            let first = &toks[0];
            proof {
                assert(lexemes_view(toks@)[0] == toks@[0]@);
            }
            match &first.token {
                Token::Identifier(ident) => {
                    let name = lower_string(ident);
                    let idx = find_or_insert(&mut map, &name);
                    let ghost m1 = crate::parser::instructions_view(map@);
                    let ghost pre_entry = map@[idx as int];
                    let mut entry = map.remove(idx);
                    proof {
                        assert(asm_wf(m1));
                        assert(m1[idx as int] == (pre_entry.0@, pre_entry.1@));
                        assert(instr_wf(entry.1@));
                    }
                    process_pattern(&mut entry.1, &toks, &name, &mut logger);
                    map.insert(idx, entry);
                    proof {
                        let p = spec_pattern(
                            m1[idx as int].1,
                            lexemes_view(toks@),
                            name@,
                            crate::parser::line_origin(l as int),
                        );
                        let upd = m1.update(
                            idx as int,
                            (name@, InstrV { syntaxes: p.syntaxes, states: p.states }),
                        );
                        assert(crate::parser::instructions_view(map@) =~= upd) by {
                            assert forall|k: int|
                                0 <= k < map@.len() implies crate::parser::instructions_view(
                                map@,
                            )[k] == upd[k] by {
                                assert(crate::parser::instructions_view(map@)[k] == (
                                    map@[k].0@,
                                    map@[k].1@,
                                ));
                                if k == idx as int {
                                    assert(map@[k] == entry);
                                    assert(entry.0@ == name@);
                                } else if k < idx as int {
                                } else {
                                }
                            }
                        }
                        assert(cur.map == upd);
                        assert(logger@ =~= pre_logs + cur.logs);
                        assert(asm_wf(upd)) by {
                            assert forall|k: int| 0 <= k < upd.len() implies instr_wf(
                                (#[trigger] upd[k]).1,
                            ) by {
                                if k != idx as int {
                                    assert(upd[k] == m1[k]);
                                }
                            }
                        }
                    }
                },
                _ => {
                    logger.log_error(
                        String::from_str(
                            "only instruction patterns are supported in the assembler config at the moment",
                        ),
                    );
                    proof {
                        assert(logger@ =~= pre_logs + cur.logs);
                    }
                },
            }
        } else {
            proof {
                assert(cur.logs =~= Seq::<LogV>::empty());
                assert(logger@ =~= pre_logs + cur.logs);
            }
        }
        proof {
            let rest = spec_compile_from(
                crate::parser::instructions_view(map@),
                lsv,
                l + 1,
            );
            assert(spec_compile_from(mv, lsv, l as int).map == rest.map);
            assert(spec_compile_from(mv, lsv, l as int).logs =~= cur.logs + rest.logs);
            assert(target.logs =~= logger@ + rest.logs);
        }
        l = l + 1;
    }
    proof {
        let done = spec_compile_from(
            crate::parser::instructions_view(map@),
            lsv,
            lines@.len() as int,
        );
        assert(done.logs =~= Seq::<LogV>::empty());
        assert(target.logs =~= logger@);
        assert(target.map == crate::parser::instructions_view(map@));
    }
    let table = Assembler { instructions: map };
    logger.into_result(table)
}

} // verus!
