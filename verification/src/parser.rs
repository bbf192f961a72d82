//! The instruction model and the assembler: per-mnemonic automatons
//! with an encoding template at every accepting state, and the
//! encoder that drives them over tokenized source lines, captures
//! operand values in encounter order, and evaluates the matching
//! template into bytes.
//!
//! The behaviour is pinned down by the spec interpreter here
//! ([`spec_walk`], [`spec_encode`], [`spec_line`], [`spec_assemble`]);
//! `Assembler::assemble` is verified against it.
use vstd::prelude::*;
use vstd::string::StringExecFns;
use crate::lexer::{
    LexV, Lexeme, TokV, Token, lexemes_view, lines_view, spec_lines, spec_tokens, split_lines,
    tokenize,
};
use crate::log::{Level, LogV, LoggedResult, Logger, Origin, OriginV, has_error};
use crate::text::{chars_of, dec_digits, lower_seq, lower_string, push_dec};

verus! {

// ---------------------------------------------------------------
// The encoding template model
// ---------------------------------------------------------------
/// One value source: a fixed byte, the Nth captured immediate (with
/// its declared bit width), or the Nth captured register.
#[derive(Debug, Clone, Copy, PartialEq, Eq, Structural)]
pub enum CodegenData {
    Byte(u8),
    Immediate(usize, usize),
    Register(usize),
}

/// One encoding step: a value written out whole, or two values packed
/// into the upper and lower nibble of a single byte.
#[derive(Debug, Clone, Copy, PartialEq, Eq, Structural)]
pub enum Codegen {
    Data(CodegenData),
    UpperLower(CodegenData, CodegenData),
}

impl Codegen {
    pub fn byte(b: u8) -> (r: Self)
        ensures
            r == Codegen::Data(CodegenData::Byte(b)),
    {
        Codegen::Data(CodegenData::Byte(b))
    }

    pub fn immediate(imm: usize, b: usize) -> (r: Self)
        ensures
            r == Codegen::Data(CodegenData::Immediate(imm, b)),
    {
        Codegen::Data(CodegenData::Immediate(imm, b))
    }

    pub fn register(r: usize) -> (c: Self)
        ensures
            c == Codegen::Data(CodegenData::Register(r)),
    {
        Codegen::Data(CodegenData::Register(r))
    }
}

// ---------------------------------------------------------------
// The automaton model
// ---------------------------------------------------------------
/// Where one token category leads from a state.
#[derive(Debug, Clone, Copy, PartialEq, Eq, Structural)]
pub enum Transition {
    Reject,
    NextState(usize),
}

impl Default for Transition {
    fn default() -> (r: Self)
        ensures
            r == Transition::Reject,
    {
        Transition::Reject
    }
}

pub ghost struct StateV {
    pub register: Transition,
    pub immediate: Transition,
    pub comma: Transition,
    pub accept_codegen: Option<Seq<Codegen>>,
}

/// One automaton state: a transition per recognized token category,
/// and the encoding template if the state accepts.
#[derive(Debug)]
pub struct TransitionTable {
    pub register: Transition,
    pub immediate: Transition,
    pub comma: Transition,
    pub accept_codegen: Option<Vec<Codegen>>,
}

impl View for TransitionTable {
    type V = StateV;

    open spec fn view(&self) -> StateV {
        StateV {
            register: self.register,
            immediate: self.immediate,
            comma: self.comma,
            accept_codegen: match self.accept_codegen {
                Some(ref cg) => Some(cg@),
                None => None,
            },
        }
    }
}

impl Default for TransitionTable {
    fn default() -> (r: Self)
        ensures
            r@ == (StateV {
                register: Transition::Reject,
                immediate: Transition::Reject,
                comma: Transition::Reject,
                accept_codegen: None,
            }),
    {
        TransitionTable {
            register: Transition::Reject,
            immediate: Transition::Reject,
            comma: Transition::Reject,
            accept_codegen: None,
        }
    }
}

pub ghost struct InstrV {
    pub syntaxes: Seq<Seq<char>>,
    pub states: Seq<StateV>,
}

/// One compiled instruction: its automaton (state 0 is the start
/// state) and the human-readable pattern strings, kept for
/// diagnostics.
#[derive(Debug)]
pub struct Instruction {
    pub syntaxes: Vec<String>,
    pub states: Vec<TransitionTable>,
}

pub open spec fn syntaxes_view(v: Seq<String>) -> Seq<Seq<char>> {
    v.map_values(|s: String| s@)
}

pub open spec fn states_view(v: Seq<TransitionTable>) -> Seq<StateV> {
    v.map_values(|t: TransitionTable| t@)
}

impl View for Instruction {
    type V = InstrV;

    open spec fn view(&self) -> InstrV {
        InstrV { syntaxes: syntaxes_view(self.syntaxes@), states: states_view(self.states@) }
    }
}

/// The compiled instruction table: lowercase mnemonic to instruction,
/// in first-definition order.
#[derive(Debug)]
pub struct Assembler {
    pub instructions: Vec<(String, Instruction)>,
}

pub open spec fn instructions_view(m: Seq<(String, Instruction)>) -> Seq<(Seq<char>, InstrV)> {
    m.map_values(|p: (String, Instruction)| (p.0@, p.1@))
}

impl View for Assembler {
    type V = Seq<(Seq<char>, InstrV)>;

    open spec fn view(&self) -> Seq<(Seq<char>, InstrV)> {
        instructions_view(self.instructions@)
    }
}

// ---------------------------------------------------------------
// Automaton well-formedness
// ---------------------------------------------------------------
pub open spec fn trans_ok(t: Transition, n: int) -> bool {
    t matches Transition::NextState(k) ==> (k as int) < n
}

pub open spec fn state_wf(s: StateV, n: int) -> bool {
    trans_ok(s.register, n) && trans_ok(s.immediate, n) && trans_ok(s.comma, n)
}

pub open spec fn states_wf(sv: Seq<StateV>) -> bool {
    forall|j: int| 0 <= j < sv.len() ==> state_wf(#[trigger] sv[j], sv.len() as int)
}

/// Every transition stays inside the state arena, and the start state
/// exists.
pub open spec fn instr_wf(iv: InstrV) -> bool {
    iv.states.len() > 0 && states_wf(iv.states)
}

pub open spec fn asm_wf(a: Seq<(Seq<char>, InstrV)>) -> bool {
    forall|j: int| 0 <= j < a.len() ==> instr_wf((#[trigger] a[j]).1)
}

/// The instruction a mnemonic maps to: the first entry with that name.
pub open spec fn spec_lookup(a: Seq<(Seq<char>, InstrV)>, name: Seq<char>) -> Option<InstrV>
    decreases a.len(),
{
    if a.len() == 0 {
        None
    } else if a[0].0 == name {
        Some(a[0].1)
    } else {
        spec_lookup(a.drop_first(), name)
    }
}

// ---------------------------------------------------------------
// Diagnostics text
// ---------------------------------------------------------------
pub open spec fn err_log(orig: Option<OriginV>, msg: Seq<char>) -> LogV {
    LogV { origin: orig, message: msg, level: Level::Error }
}

pub open spec fn warn_log(orig: Option<OriginV>, msg: Seq<char>) -> LogV {
    LogV { origin: orig, message: msg, level: Level::Warning }
}

pub open spec fn msg_unknown_instruction(slice: Seq<char>) -> Seq<char> {
    "unknown instruction: '"@ + slice + "'"@
}

pub open spec fn msg_unexpected_token(slice: Seq<char>) -> Seq<char> {
    "unexpected token: '"@ + slice + "'"@
}

pub open spec fn msg_unexpected_immediate(slice: Seq<char>) -> Seq<char> {
    "unexpected immediate: '"@ + slice + "'"@
}

pub open spec fn msg_unexpected_register(slice: Seq<char>) -> Seq<char> {
    "unexpected register: '"@ + slice + "'"@
}

pub open spec fn msg_register_oob(slice: Seq<char>) -> Seq<char> {
    "register out of bounds: '"@ + slice + "'"@
}

pub open spec fn msg_unexpected_comma() -> Seq<char> {
    "unexpected comma"@
}

pub open spec fn msg_syntax_error() -> Seq<char> {
    "syntax error"@
}

pub open spec fn msg_capture_oob() -> Seq<char> {
    "codegen capture out of range"@
}

/// The first `k` syntaxes rendered as a quoted, comma-separated list.
pub open spec fn syntaxes_prefix(list: Seq<Seq<char>>, k: int) -> Seq<char>
    decreases k,
{
    if k <= 0 || k > list.len() {
        Seq::empty()
    } else {
        syntaxes_prefix(list, k - 1) + (if k - 1 > 0 {
            ", "@
        } else {
            Seq::<char>::empty()
        }) + "\""@ + list[k - 1] + "\""@
    }
}

pub open spec fn msg_syntaxes(name: Seq<char>, list: Seq<Seq<char>>) -> Seq<char> {
    "syntaxes available for "@ + name + ": ["@ + syntaxes_prefix(list, list.len() as int) + "]"@
}

pub open spec fn msg_truncated(v: u64, b: usize) -> Seq<char> {
    "'"@ + dec_digits(v as nat) + "' will be truncated to "@ + dec_digits(b as nat) + " bits"@
}

fn build_slice_msg(head: &str, slice: &String, tail: &str) -> (m: String)
    ensures
        m@ == head@ + slice@ + tail@,
{
    let mut m = String::from_str(head);
    m.append(slice.as_str());
    m.append(tail);
    proof {
        assert(m@ =~= head@ + slice@ + tail@);
    }
    m
}

pub(crate) fn build_unknown_instruction(slice: &String) -> (m: String)
    ensures
        m@ == msg_unknown_instruction(slice@),
{
    build_slice_msg("unknown instruction: '", slice, "'")
}

pub(crate) fn build_unexpected_token(slice: &String) -> (m: String)
    ensures
        m@ == msg_unexpected_token(slice@),
{
    build_slice_msg("unexpected token: '", slice, "'")
}

fn build_unexpected_immediate(slice: &String) -> (m: String)
    ensures
        m@ == msg_unexpected_immediate(slice@),
{
    build_slice_msg("unexpected immediate: '", slice, "'")
}

fn build_unexpected_register(slice: &String) -> (m: String)
    ensures
        m@ == msg_unexpected_register(slice@),
{
    build_slice_msg("unexpected register: '", slice, "'")
}

fn build_register_oob(slice: &String) -> (m: String)
    ensures
        m@ == msg_register_oob(slice@),
{
    build_slice_msg("register out of bounds: '", slice, "'")
}

fn build_syntaxes(name: &String, list: &Vec<String>) -> (m: String)
    ensures
        m@ == msg_syntaxes(name@, list@.map_values(|s: String| s@)),
{
    let ghost lv = list@.map_values(|s: String| s@);
    let mut m = String::from_str("syntaxes available for ");
    m.append(name.as_str());
    m.append(": [");
    let ghost head = "syntaxes available for "@ + name@ + ": ["@;
    proof {
        assert(m@ =~= head + syntaxes_prefix(lv, 0));
    }
    let mut k: usize = 0;
    while k < list.len()
        invariant
            k <= list.len(),
            lv == list@.map_values(|s: String| s@),
            m@ == head + syntaxes_prefix(lv, k as int),
        decreases list.len() - k,
    {
        if k > 0 {
            m.append(", ");
        }
        m.append("\"");
        m.append(list[k].as_str());
        m.append("\"");
        proof {
            assert(lv[k as int] == list@[k as int]@);
            assert(m@ =~= head + syntaxes_prefix(lv, k + 1));
        }
        k = k + 1;
    }
    m.append("]");
    proof {
        assert(m@ =~= msg_syntaxes(name@, lv));
    }
    m
}

fn build_truncated(v: u64, b: usize) -> (m: String)
    ensures
        m@ == msg_truncated(v, b),
{
    let mut m = String::from_str("'");
    push_dec(&mut m, v);
    m.append("' will be truncated to ");
    push_dec(&mut m, b as u64);
    m.append(" bits");
    proof {
        assert(b as u64 as nat == b as nat);
        assert(m@ =~= msg_truncated(v, b));
    }
    m
}

// ---------------------------------------------------------------
// The spec interpreter: automaton walk
// ---------------------------------------------------------------
pub ghost enum WalkOut {
    Accept { codegen: Seq<Codegen>, regs: Seq<u8>, imms: Seq<u64> },
    Fail { logs: Seq<LogV> },
}

/// Drives the automaton over the tokens after the mnemonic.  Each
/// register or immediate consumed is captured in encounter order; at
/// the end of the tokens the state must accept.  Every failure names
/// the offending token and, where it helps, the known syntaxes.
pub open spec fn spec_walk(
    iv: InstrV,
    name: Seq<char>,
    toks: Seq<LexV>,
    i: int,
    state: int,
    regs: Seq<u8>,
    imms: Seq<u64>,
    orig: Option<OriginV>,
) -> WalkOut
    decreases toks.len() - i,
{
    if i < 0 || i >= toks.len() {
        match iv.states[state].accept_codegen {
            Some(cg) => WalkOut::Accept { codegen: cg, regs, imms },
            None => WalkOut::Fail {
                logs: seq![
                    err_log(orig, msg_syntax_error()),
                    err_log(orig, msg_syntaxes(name, iv.syntaxes)),
                ],
            },
        }
    } else {
        let lex = toks[i];
        match lex.token {
            TokV::Integer(intv) => match iv.states[state].immediate {
                Transition::NextState(next) => spec_walk(
                    iv,
                    name,
                    toks,
                    i + 1,
                    next as int,
                    regs,
                    imms.push(intv.wrap_val()),
                    orig,
                ),
                Transition::Reject => WalkOut::Fail {
                    logs: seq![
                        err_log(orig, msg_unexpected_immediate(lex.slice)),
                        err_log(orig, msg_syntaxes(name, iv.syntaxes)),
                    ],
                },
            },
            TokV::Register(r) => match iv.states[state].register {
                Transition::NextState(next) => if r > 15 {
                    WalkOut::Fail { logs: seq![err_log(orig, msg_register_oob(lex.slice))] }
                } else {
                    spec_walk(iv, name, toks, i + 1, next as int, regs.push(r as u8), imms, orig)
                },
                Transition::Reject => WalkOut::Fail {
                    logs: seq![
                        err_log(orig, msg_unexpected_register(lex.slice)),
                        err_log(orig, msg_syntaxes(name, iv.syntaxes)),
                    ],
                },
            },
            TokV::Comma => match iv.states[state].comma {
                Transition::NextState(next) => spec_walk(
                    iv,
                    name,
                    toks,
                    i + 1,
                    next as int,
                    regs,
                    imms,
                    orig,
                ),
                Transition::Reject => WalkOut::Fail {
                    logs: seq![
                        err_log(orig, msg_unexpected_comma()),
                        err_log(orig, msg_syntaxes(name, iv.syntaxes)),
                    ],
                },
            },
            _ => WalkOut::Fail {
                logs: seq![
                    err_log(orig, msg_unexpected_token(lex.slice)),
                    err_log(orig, msg_syntaxes(name, iv.syntaxes)),
                ],
            },
        }
    }
}

// ---------------------------------------------------------------
// The spec interpreter: template evaluation
// ---------------------------------------------------------------
/// A nibble or byte value read through the capture buffers; nothing
/// if the capture index is out of range.
pub open spec fn spec_decode_atom(atom: CodegenData, regs: Seq<u8>, imms: Seq<u64>) -> Option<
    u8,
> {
    match atom {
        CodegenData::Byte(b) => Some(b),
        CodegenData::Register(r) => if r < regs.len() {
            Some(regs[r as int])
        } else {
            None
        },
        CodegenData::Immediate(i, _) => if i < imms.len() {
            Some((imms[i as int] as u8))
        } else {
            None
        },
    }
}

/// Whether a value does not fit the declared width (then the encoder
/// warns and writes the low bits).
pub open spec fn imm_truncated(v: u64, b: usize) -> bool {
    b < 64 && (v >> (b as u64)) != 0
}

/// The `i`th little-endian byte of a value (zero beyond its eight
/// bytes).
pub open spec fn le_byte(v: u64, i: int) -> u8 {
    if 0 <= i < 8 {
        (v >> ((8 * i) as u64)) as u8
    } else {
        0
    }
}

/// The low `n` bytes of a value, little-endian, zero-extended.
pub open spec fn le_bytes(v: u64, n: nat) -> Seq<u8> {
    Seq::new(n, |i: int| le_byte(v, i))
}

pub ghost struct EncodeOut {
    pub bytes: Seq<u8>,
    pub logs: Seq<LogV>,
    pub ok: bool,
}

/// Evaluates the template steps from `j` on against the captures.
/// Immediates emit their low `width/8` bytes little-endian, with a
/// warning when the value does not fit the width; a capture index out
/// of range is an error that abandons the rest of the template.
pub open spec fn spec_encode(
    cg: Seq<Codegen>,
    j: int,
    regs: Seq<u8>,
    imms: Seq<u64>,
    orig: Option<OriginV>,
) -> EncodeOut
    decreases cg.len() - j,
{
    if j < 0 || j >= cg.len() {
        EncodeOut { bytes: Seq::empty(), logs: Seq::empty(), ok: true }
    } else {
        match cg[j] {
            Codegen::Data(CodegenData::Immediate(imm, b)) => {
                if imm < imms.len() {
                    let v = imms[imm as int];
                    let warns: Seq<LogV> = if imm_truncated(v, b) {
                        seq![warn_log(orig, msg_truncated(v, b))]
                    } else {
                        Seq::empty()
                    };
                    let rest = spec_encode(cg, j + 1, regs, imms, orig);
                    EncodeOut {
                        bytes: le_bytes(v, (b / 8) as nat) + rest.bytes,
                        logs: warns + rest.logs,
                        ok: rest.ok,
                    }
                } else {
                    EncodeOut {
                        bytes: Seq::empty(),
                        logs: seq![err_log(orig, msg_capture_oob())],
                        ok: false,
                    }
                }
            },
            Codegen::Data(atom) => match spec_decode_atom(atom, regs, imms) {
                Some(byte) => {
                    let rest = spec_encode(cg, j + 1, regs, imms, orig);
                    EncodeOut {
                        bytes: seq![byte] + rest.bytes,
                        logs: rest.logs,
                        ok: rest.ok,
                    }
                },
                None => EncodeOut {
                    bytes: Seq::empty(),
                    logs: seq![err_log(orig, msg_capture_oob())],
                    ok: false,
                },
            },
            Codegen::UpperLower(upper, lower) => {
                match (spec_decode_atom(upper, regs, imms), spec_decode_atom(lower, regs, imms)) {
                    (Some(du), Some(dl)) => {
                        let rest = spec_encode(cg, j + 1, regs, imms, orig);
                        EncodeOut {
                            bytes: seq![((du & 0xF) << 4 | (dl & 0xF)) as u8] + rest.bytes,
                            logs: rest.logs,
                            ok: rest.ok,
                        }
                    },
                    _ => EncodeOut {
                        bytes: Seq::empty(),
                        logs: seq![err_log(orig, msg_capture_oob())],
                        ok: false,
                    },
                }
            },
        }
    }
}

// ---------------------------------------------------------------
// The spec interpreter: lines
// ---------------------------------------------------------------
pub ghost struct LineOut {
    pub bytes: Seq<u8>,
    pub logs: Seq<LogV>,
}

/// One matched instruction line: walk the automaton, then evaluate
/// the accepting template.  A line that fails contributes no bytes.
pub open spec fn spec_instr_line(
    iv: InstrV,
    name: Seq<char>,
    toks: Seq<LexV>,
    orig: Option<OriginV>,
) -> LineOut {
    match spec_walk(iv, name, toks, 1, 0, Seq::empty(), Seq::empty(), orig) {
        WalkOut::Fail { logs } => LineOut { bytes: Seq::empty(), logs },
        WalkOut::Accept { codegen, regs, imms } => {
            let e = spec_encode(codegen, 0, regs, imms, orig);
            if e.ok {
                LineOut { bytes: e.bytes, logs: e.logs }
            } else {
                LineOut { bytes: Seq::empty(), logs: e.logs }
            }
        },
    }
}

/// One source line: empty lines do nothing; the first token must be
/// an identifier naming a known instruction.
pub open spec fn spec_line(
    a: Seq<(Seq<char>, InstrV)>,
    toks: Seq<LexV>,
    orig: Option<OriginV>,
) -> LineOut {
    if toks.len() == 0 {
        LineOut { bytes: Seq::empty(), logs: Seq::empty() }
    } else {
        match toks[0].token {
            TokV::Identifier(ident) => {
                let name = lower_seq(ident);
                match spec_lookup(a, name) {
                    None => LineOut {
                        bytes: Seq::empty(),
                        logs: seq![err_log(orig, msg_unknown_instruction(toks[0].slice))],
                    },
                    Some(iv) => spec_instr_line(iv, name, toks, orig),
                }
            },
            _ => LineOut {
                bytes: Seq::empty(),
                logs: seq![err_log(orig, msg_unexpected_token(toks[0].slice))],
            },
        }
    }
}

/// The origin attached to diagnostics of the given 0-based line.
pub open spec fn line_origin(l: int) -> Option<OriginV> {
    Some(OriginV { file: "[unknown]"@, line: l as usize })
}

pub ghost struct AsmOut {
    pub bytes: Seq<u8>,
    pub logs: Seq<LogV>,
}

/// Assembles the lines from `l` on: each line independently, bytes
/// and diagnostics in line order.
pub open spec fn spec_asm_from(a: Seq<(Seq<char>, InstrV)>, ls: Seq<Seq<char>>, l: int) -> AsmOut
    decreases ls.len() - l,
{
    if l < 0 || l >= ls.len() {
        AsmOut { bytes: Seq::empty(), logs: Seq::empty() }
    } else {
        let cur = spec_line(a, spec_tokens(ls[l]), line_origin(l));
        let rest = spec_asm_from(a, ls, l + 1);
        AsmOut { bytes: cur.bytes + rest.bytes, logs: cur.logs + rest.logs }
    }
}

/// The whole assembly run over a source text.
pub open spec fn spec_assemble(a: Seq<(Seq<char>, InstrV)>, src: Seq<char>) -> AsmOut {
    spec_asm_from(a, spec_lines(src), 0)
}

// ---------------------------------------------------------------
// Executable assembler
// ---------------------------------------------------------------
fn decode_atom(atom: &CodegenData, regs: &Vec<u8>, imms: &Vec<u64>) -> (r: Option<u8>)
    ensures
        r == spec_decode_atom(*atom, regs@, imms@),
{
    match atom {
        CodegenData::Byte(b) => Some(*b),
        CodegenData::Register(r) => if *r < regs.len() {
            Some(regs[*r])
        } else {
            None
        },
        CodegenData::Immediate(i, _) => if *i < imms.len() {
            Some(imms[*i] as u8)
        } else {
            None
        },
    }
}

/// Evaluates one accepting template against the captures, appending
/// the line's bytes to `output` only when every capture resolves.
fn encode_template(
    cg: &Vec<Codegen>,
    regs: &Vec<u8>,
    imms: &Vec<u64>,
    logger: &mut Logger,
    output: &mut Vec<u8>,
)
    ensures
        final(logger)@ == old(logger)@ + spec_encode(
            cg@,
            0,
            regs@,
            imms@,
            old(logger).spec_origin(),
        ).logs,
        final(logger).spec_origin() == old(logger).spec_origin(),
        spec_encode(cg@, 0, regs@, imms@, old(logger).spec_origin()).ok ==> final(output)@ == old(
            output,
        )@ + spec_encode(cg@, 0, regs@, imms@, old(logger).spec_origin()).bytes,
        !spec_encode(cg@, 0, regs@, imms@, old(logger).spec_origin()).ok ==> final(output)@ == old(
            output,
        )@,
{
    let ghost orig = old(logger).spec_origin();
    let ghost target = spec_encode(cg@, 0, regs@, imms@, orig);
    let mut line_buf: Vec<u8> = Vec::new();
    let mut j: usize = 0;
    while j < cg.len()
        invariant
            j <= cg@.len(),
            logger.spec_origin() == orig,
            target.bytes == line_buf@ + spec_encode(cg@, j as int, regs@, imms@, orig).bytes,
            old(logger)@ + target.logs == logger@ + spec_encode(
                cg@,
                j as int,
                regs@,
                imms@,
                orig,
            ).logs,
            target.ok == spec_encode(cg@, j as int, regs@, imms@, orig).ok,
            output@ == old(output)@,
        decreases cg@.len() - j,
    {
        let ghost rest = spec_encode(cg@, j as int, regs@, imms@, orig);
        let step = cg[j];
        match step {
            Codegen::Data(CodegenData::Immediate(imm, b)) => {
                if imm < imms.len() {
                    let v = imms[imm];
                    if b < 64 && (v >> (b as u64)) != 0 {
                        logger.log_warning(build_truncated(v, b));
                    }
                    let count = b / 8;
                    let ghost pre_buf = line_buf@;
                    let mut x: usize = 0;
                    while x < count
                        invariant
                            x <= count,
                            line_buf@ == pre_buf + le_bytes(v, x as nat),
                        decreases count - x,
                    {
                        let byte: u8 = if x < 8 {
                            (v >> ((8 * x) as u64)) as u8
                        } else {
                            0
                        };
                        line_buf.push(byte);
                        proof {
                            assert(byte == le_byte(v, x as int));
                            assert(pre_buf + le_bytes(v, (x + 1) as nat) =~= (pre_buf + le_bytes(
                                v,
                                x as nat,
                            )).push(le_byte(v, x as int)));
                        }
                        x = x + 1;
                    }
                    proof {
                        assert(rest.bytes =~= le_bytes(v, (b / 8) as nat) + spec_encode(
                            cg@,
                            j + 1,
                            regs@,
                            imms@,
                            orig,
                        ).bytes);
                        assert(target.bytes =~= line_buf@ + spec_encode(
                            cg@,
                            j + 1,
                            regs@,
                            imms@,
                            orig,
                        ).bytes);
                        assert(old(logger)@ + target.logs =~= logger@ + spec_encode(
                            cg@,
                            j + 1,
                            regs@,
                            imms@,
                            orig,
                        ).logs);
                    }
                } else {
                    logger.log_error(String::from_str("codegen capture out of range"));
                    proof {
                        assert(old(logger)@ + target.logs =~= logger@);
                    }
                    return ;
                }
            },
            Codegen::Data(atom) => {
                match decode_atom(&atom, regs, imms) {
                    Some(byte) => {
                        line_buf.push(byte);
                        proof {
                            assert(target.bytes =~= line_buf@ + spec_encode(
                                cg@,
                                j + 1,
                                regs@,
                                imms@,
                                orig,
                            ).bytes);
                        }
                    },
                    None => {
                        logger.log_error(String::from_str("codegen capture out of range"));
                        proof {
                            assert(old(logger)@ + target.logs =~= logger@);
                        }
                        return ;
                    },
                }
            },
            Codegen::UpperLower(upper, lower) => {
                let du = decode_atom(&upper, regs, imms);
                let dl = decode_atom(&lower, regs, imms);
                match (du, dl) {
                    (Some(u), Some(l)) => {
                        line_buf.push((u & 0xF) << 4 | (l & 0xF));
                        proof {
                            assert(target.bytes =~= line_buf@ + spec_encode(
                                cg@,
                                j + 1,
                                regs@,
                                imms@,
                                orig,
                            ).bytes);
                        }
                    },
                    _ => {
                        logger.log_error(String::from_str("codegen capture out of range"));
                        proof {
                            assert(old(logger)@ + target.logs =~= logger@);
                        }
                        return ;
                    },
                }
            },
        }
        j = j + 1;
    }
    proof {
        assert(target.bytes =~= line_buf@);
        assert(old(logger)@ + target.logs =~= logger@);
    }
    output.append(&mut line_buf);
}

/// Walks one instruction's automaton over a tokenized line and, on
/// acceptance, evaluates the template.
fn run_instruction(
    ins: &Instruction,
    name: &String,
    toks: &Vec<Lexeme>,
    logger: &mut Logger,
    output: &mut Vec<u8>,
)
    requires
        instr_wf(ins@),
        toks@.len() >= 1,
    ensures
        final(logger)@ == old(logger)@ + spec_instr_line(
            ins@,
            name@,
            lexemes_view(toks@),
            old(logger).spec_origin(),
        ).logs,
        final(logger).spec_origin() == old(logger).spec_origin(),
        final(output)@ == old(output)@ + spec_instr_line(
            ins@,
            name@,
            lexemes_view(toks@),
            old(logger).spec_origin(),
        ).bytes,
{
    let ghost iv = ins@;
    let ghost tv = lexemes_view(toks@);
    let ghost orig = old(logger).spec_origin();
    let ghost target = spec_walk(iv, name@, tv, 1, 0, Seq::empty(), Seq::empty(), orig);
    let mut state: usize = 0;
    let mut i: usize = 1;
    let mut regs: Vec<u8> = Vec::new();
    let mut imms: Vec<u64> = Vec::new();
    while i < toks.len()
        invariant
            1 <= i <= tv.len(),
            state < iv.states.len(),
            spec_walk(iv, name@, tv, i as int, state as int, regs@, imms@, orig) == target,
            logger@ == old(logger)@,
            logger.spec_origin() == orig,
            output@ == old(output)@,
        decreases tv.len() - i,
    {
        let lex = &toks[i];
        proof {
            assert(tv[i as int] == toks@[i as int]@);
        }
        match &lex.token {
            Token::Integer(intv) => {
                match ins.states[state].immediate {
                    Transition::NextState(next) => {
                        imms.push(intv.wrap_value());
                        proof {
                            assert(state_wf(iv.states[state as int], iv.states.len() as int));
                            assert(spec_walk(iv, name@, tv, i + 1, next as int, regs@, imms@, orig)
                                == target);
                        }
                        state = next;
                        i = i + 1;
                    },
                    Transition::Reject => {
                        logger.log_error(build_unexpected_immediate(&lex.slice));
                        logger.log_error(build_syntaxes(name, &ins.syntaxes));
                        proof {
                            assert(logger@ =~= old(logger)@ + target->Fail_logs);
                        }
                        return ;
                    },
                }
            },
            Token::Register(r) => {
                match ins.states[state].register {
                    Transition::NextState(next) => {
                        if *r > 15 {
                            logger.log_error(build_register_oob(&lex.slice));
                            proof {
                                assert(logger@ =~= old(logger)@ + target->Fail_logs);
                            }
                            return ;
                        }
                        regs.push(*r as u8);
                        proof {
                            assert(state_wf(iv.states[state as int], iv.states.len() as int));
                            assert(spec_walk(iv, name@, tv, i + 1, next as int, regs@, imms@, orig)
                                == target);
                        }
                        state = next;
                        i = i + 1;
                    },
                    Transition::Reject => {
                        logger.log_error(build_unexpected_register(&lex.slice));
                        logger.log_error(build_syntaxes(name, &ins.syntaxes));
                        proof {
                            assert(logger@ =~= old(logger)@ + target->Fail_logs);
                        }
                        return ;
                    },
                }
            },
            Token::Comma => {
                match ins.states[state].comma {
                    Transition::NextState(next) => {
                        proof {
                            assert(state_wf(iv.states[state as int], iv.states.len() as int));
                            assert(spec_walk(iv, name@, tv, i + 1, next as int, regs@, imms@, orig)
                                == target);
                        }
                        state = next;
                        i = i + 1;
                    },
                    Transition::Reject => {
                        logger.log_error(String::from_str("unexpected comma"));
                        logger.log_error(build_syntaxes(name, &ins.syntaxes));
                        proof {
                            assert(logger@ =~= old(logger)@ + target->Fail_logs);
                        }
                        return ;
                    },
                }
            },
            _ => {
                logger.log_error(build_unexpected_token(&lex.slice));
                logger.log_error(build_syntaxes(name, &ins.syntaxes));
                proof {
                    assert(logger@ =~= old(logger)@ + target->Fail_logs);
                }
                return ;
            },
        }
    }
    // all tokens consumed: the state must accept
    match &ins.states[state].accept_codegen {
        Some(cg) => {
            proof {
                assert(target == WalkOut::Accept { codegen: cg@, regs: regs@, imms: imms@ });
            }
            encode_template(cg, &regs, &imms, logger, output);
            proof {
                let e = spec_encode(cg@, 0, regs@, imms@, orig);
                assert(spec_instr_line(iv, name@, tv, orig).logs == e.logs);
                assert(logger@ == old(logger)@ + spec_instr_line(iv, name@, tv, orig).logs);
                assert(output@ =~= old(output)@ + spec_instr_line(iv, name@, tv, orig).bytes);
            }
        },
        None => {
            logger.log_error(String::from_str("syntax error"));
            logger.log_error(build_syntaxes(name, &ins.syntaxes));
            proof {
                assert(logger@ =~= old(logger)@ + target->Fail_logs);
            }
        },
    }
}

impl Assembler {
    /// Structural well-formedness of every compiled automaton.
    pub open spec fn wf(&self) -> bool {
        asm_wf(self@)
    }

    /// The first instruction entry with the given name, if any.
    fn find_instruction<'a>(&'a self, name: &String) -> (r: Option<&'a Instruction>)
        ensures
            match r {
                Some(ins) => spec_lookup(self@, name@) == Some(ins@) && (self.wf()
                    ==> instr_wf(ins@)),
                None => spec_lookup(self@, name@) is None,
            },
    {
        let ghost a = self@;
        proof {
            assert(a.skip(0) =~= a);
        }
        let n = self.instructions.len();
        let mut k: usize = 0;
        while k < n
            invariant
                k <= n,
                n == a.len(),
                spec_lookup(a, name@) == spec_lookup(a.skip(k as int), name@),
            decreases n - k,
        {
            proof {
                assert(a.skip(k as int)[0] == a[k as int]);
                assert(a.skip(k as int).drop_first() =~= a.skip(k + 1));
            }
            if self.instructions[k].0 == *name {
                proof {
                    assert(a[k as int].0 == name@);
                }
                return Some(&self.instructions[k].1);
            }
            k = k + 1;
        }
        proof {
            assert(a.skip(n as int) =~= Seq::<(Seq<char>, InstrV)>::empty());
        }
        None
    }

    /// Encodes every line of `source` against the compiled table.
    /// Produces the byte stream exactly when no line errs; all
    /// diagnostics are kept either way, tagged with their line.
    pub fn assemble(&self, source: &str) -> (r: LoggedResult<Vec<u8>>)
        requires
            self.wf(),
        ensures
            r.spec_logs() == spec_assemble(self@, source@).logs,
            has_error(spec_assemble(self@, source@).logs) ==> r.spec_result() is None,
            !has_error(spec_assemble(self@, source@).logs) ==> (r.spec_result() matches Some(v)
                && v@ == spec_assemble(self@, source@).bytes),
    {
        let ghost a = self@;
        let cs = chars_of(source);
        let lines = split_lines(&cs);
        let ghost lsv = spec_lines(source@);
        let ghost target = spec_asm_from(a, lsv, 0);
        let mut logger = Logger::new(None);
        let mut output: Vec<u8> = Vec::new();
        let mut l: usize = 0;
        while l < lines.len()
            invariant
                l <= lines@.len(),
                lines_view(lines@) == lsv,
                target.bytes == output@ + spec_asm_from(a, lsv, l as int).bytes,
                target.logs == logger@ + spec_asm_from(a, lsv, l as int).logs,
            decreases lines@.len() - l,
        {
            let ghost pre_logs = logger@;
            let ghost pre_out = output@;
            let ghost cur = spec_line(a, spec_tokens(lsv[l as int]), line_origin(l as int));
            logger.set_origin(Some(Origin { file: "[unknown]".to_owned(), line: l }));
            proof {
                assert(logger.spec_origin() == line_origin(l as int));
            }
            let toks = tokenize(&lines[l]);
            proof {
                assert(lines@[l as int]@ == lsv[l as int]);
                assert(lexemes_view(toks@) == spec_tokens(lsv[l as int]));
            }
            if toks.len() > 0 {
                let first = &toks[0];
                proof {
                    assert(lexemes_view(toks@)[0] == toks@[0]@);
                }
                match &first.token {
                    Token::Identifier(ident) => {
                        let name = lower_string(ident);
                        match self.find_instruction(&name) {
                            Some(ins) => {
                                run_instruction(ins, &name, &toks, &mut logger, &mut output);
                                proof {
                                    assert(logger@ =~= pre_logs + cur.logs);
                                    assert(output@ =~= pre_out + cur.bytes);
                                }
                            },
                            None => {
                                logger.log_error(build_unknown_instruction(&first.slice));
                                proof {
                                    assert(logger@ =~= pre_logs + cur.logs);
                                    assert(output@ =~= pre_out + cur.bytes);
                                }
                            },
                        }
                    },
                    _ => {
                        logger.log_error(build_unexpected_token(&first.slice));
                        proof {
                            assert(logger@ =~= pre_logs + cur.logs);
                            assert(output@ =~= pre_out + cur.bytes);
                        }
                    },
                }
            } else {
                proof {
                    assert(cur.logs =~= Seq::<LogV>::empty());
                    assert(logger@ =~= pre_logs + cur.logs);
                    assert(output@ =~= pre_out + cur.bytes);
                }
            }
            proof {
                assert(spec_asm_from(a, lsv, l as int).bytes =~= cur.bytes + spec_asm_from(
                    a,
                    lsv,
                    l + 1,
                ).bytes);
                assert(spec_asm_from(a, lsv, l as int).logs =~= cur.logs + spec_asm_from(
                    a,
                    lsv,
                    l + 1,
                ).logs);
                assert(target.bytes =~= output@ + spec_asm_from(a, lsv, l + 1).bytes);
                assert(target.logs =~= logger@ + spec_asm_from(a, lsv, l + 1).logs);
            }
            l = l + 1;
        }
        proof {
            assert(spec_asm_from(a, lsv, lines@.len() as int).bytes =~= Seq::<u8>::empty());
            assert(spec_asm_from(a, lsv, lines@.len() as int).logs =~= Seq::<LogV>::empty());
            assert(target.bytes =~= output@);
            assert(target.logs =~= logger@);
        }
        logger.into_result(output)
    }
}

} // verus!
