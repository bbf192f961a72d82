//! End-to-end tests of the config compiler and the assembler.
use asmgen::config::create_assembler_from_config;
use asmgen::log::{Level, Log};
use asmgen::parser::Assembler;

fn compile(cfg: &str) -> (Option<Assembler>, Vec<Log>) {
    create_assembler_from_config(cfg).unwrap()
}

fn compile_ok(cfg: &str) -> Assembler {
    let (table, logs) = compile(cfg);
    for l in &logs {
        assert!(!l.is_error(), "unexpected error: {}", l.message());
    }
    table.expect("configuration should compile")
}

fn run(table: &Assembler, src: &str) -> (Option<Vec<u8>>, Vec<Log>) {
    table.assemble(src).unwrap()
}

fn run_ok(table: &Assembler, src: &str) -> Vec<u8> {
    let (bytes, logs) = run(table, src);
    for l in &logs {
        assert!(!l.is_error(), "unexpected error: {}", l.message());
    }
    bytes.expect("source should assemble")
}

#[test]
fn add_two_registers_encodes_literal_register_values() {
    let table = compile_ok("add r0, r1 -> 0x01 r0 r1");
    let bytes = run_ok(&table, "add r2, r3");
    assert_eq!(bytes, vec![0x01, 0x02, 0x03]);
}

#[test]
fn wide_immediate_is_truncated_with_a_warning() {
    let table = compile_ok("ldi i0:8 -> 0x02 i0");
    let (bytes, logs) = run(&table, "ldi 0x1FF");
    assert_eq!(bytes, Some(vec![0x02, 0xFF]));
    let warnings: Vec<&Log> = logs.iter().filter(|l| l.level() == Level::Warning).collect();
    assert_eq!(warnings.len(), 1);
    assert_eq!(warnings[0].message(), "'511' will be truncated to 8 bits");
}

#[test]
fn bracket_group_packs_two_nibbles() {
    let table = compile_ok("pack r0, r1 -> [r0 | r1]");
    let bytes = run_ok(&table, "pack r5, r2");
    assert_eq!(bytes, vec![0x52]);
}

#[test]
fn fitting_immediate_draws_no_warning() {
    let table = compile_ok("ldi i0:8 -> 0x02 i0");
    let (bytes, logs) = run(&table, "ldi 0xFF");
    assert_eq!(bytes, Some(vec![0x02, 0xFF]));
    assert!(logs.is_empty());
}

#[test]
fn multibyte_immediate_is_little_endian() {
    let table = compile_ok("st i0:16 -> 0x30 i0");
    let bytes = run_ok(&table, "st 0x1234");
    assert_eq!(bytes, vec![0x30, 0x34, 0x12]);
}

#[test]
fn compiling_twice_encodes_identically() {
    let cfg = "add r0, r1 -> 0x01 r0 r1\nldi i0:8 -> 0x02 i0";
    let src = "add r1, r2\nldi 0x7F\nadd r0, r0";
    let a1 = compile_ok(cfg);
    let a2 = compile_ok(cfg);
    let (b1, l1) = run(&a1, src);
    let (b2, l2) = run(&a2, src);
    assert_eq!(b1, b2);
    assert_eq!(l1.len(), l2.len());
    for (x, y) in l1.iter().zip(l2.iter()) {
        assert_eq!(x.message(), y.message());
        assert_eq!(x.level(), y.level());
    }
}

#[test]
fn captures_are_positional_not_literal() {
    // the first numeral is off (r3 in position 0), which only warns;
    // during assembly the first register fills slot 0, the second
    // slot 1
    let (table, logs) = compile("mov r3, r1 -> 0x10 r0 r1");
    let warnings: Vec<&Log> = logs.iter().filter(|l| l.level() == Level::Warning).collect();
    assert_eq!(warnings.len(), 1);
    assert_eq!(
        warnings[0].message(),
        "registers are parsed in the order they appear regardless of number; \
         r3 will correspond to r0 in codegen",
    );
    let table = table.expect("warnings never block compilation");
    let bytes = run_ok(&table, "mov r9, r4");
    assert_eq!(bytes, vec![0x10, 0x09, 0x04]);
}

#[test]
fn conflicting_patterns_are_rejected() {
    let (table, logs) = compile("foo r0 -> 0x01 r0\nfoo r0 -> 0x02 r0");
    assert!(table.is_none());
    let errors: Vec<&Log> = logs.iter().filter(|l| l.is_error()).collect();
    assert_eq!(errors.len(), 1);
    assert_eq!(errors[0].message(), "conflicting patterns for instruction 'foo'");
}

#[test]
fn shared_prefix_patterns_merge_into_one_automaton() {
    let table = compile_ok("mov r0 -> 0x01 r0\nmov r0, r1 -> 0x02 r0 r1");
    assert_eq!(run_ok(&table, "mov r7"), vec![0x01, 0x07]);
    assert_eq!(run_ok(&table, "mov r7, r8"), vec![0x02, 0x07, 0x08]);
}

#[test]
fn unknown_instruction_fails_only_its_own_line() {
    let table = compile_ok("nop -> 0x00");
    let (bytes, logs) = run(&table, "xyz\nnop\nzap r1");
    assert!(bytes.is_none());
    let errors: Vec<&Log> = logs.iter().filter(|l| l.is_error()).collect();
    assert_eq!(errors.len(), 2);
    assert_eq!(errors[0].message(), "unknown instruction: 'xyz'");
    assert_eq!(errors[1].message(), "unknown instruction: 'zap'");
}

#[test]
fn error_lines_carry_their_line_number() {
    let table = compile_ok("nop -> 0x00");
    let (_, logs) = run(&table, "nop\nxyz");
    let errors: Vec<&Log> = logs.iter().filter(|l| l.is_error()).collect();
    assert_eq!(errors.len(), 1);
    let origin = errors[0].origin().as_ref().expect("assembly errors carry an origin");
    assert_eq!(origin.line, 1);
    assert_eq!(origin.file, "[unknown]");
}

#[test]
fn syntax_error_lists_the_known_syntaxes() {
    let table = compile_ok("add r0, r1 -> 0x01 r0 r1");
    let (bytes, logs) = run(&table, "add r1");
    assert!(bytes.is_none());
    assert_eq!(logs.len(), 2);
    assert_eq!(logs[0].message(), "syntax error");
    assert_eq!(logs[1].message(), "syntaxes available for add: [\"add r0, r1\"]");
}

#[test]
fn unexpected_operand_kind_is_reported() {
    let table = compile_ok("add r0, r1 -> 0x01 r0 r1");
    let (bytes, logs) = run(&table, "add 5, r1");
    assert!(bytes.is_none());
    assert_eq!(logs[0].message(), "unexpected immediate: '5'");
}

#[test]
fn source_register_above_fifteen_is_an_error() {
    let table = compile_ok("add r0 -> 0x01 r0");
    let (bytes, logs) = run(&table, "add r16");
    assert!(bytes.is_none());
    assert_eq!(logs.len(), 1);
    assert_eq!(logs[0].message(), "register out of bounds: 'r16'");
}

#[test]
fn mnemonics_and_registers_are_case_insensitive() {
    let table = compile_ok("MOV R0 -> 0xAA R0");
    let bytes = run_ok(&table, "mOv R3");
    assert_eq!(bytes, vec![0xAA, 0x03]);
}

#[test]
fn empty_template_emits_nothing() {
    let table = compile_ok("nop ->");
    let bytes = run_ok(&table, "nop\nnop");
    assert_eq!(bytes, Vec::<u8>::new());
}

#[test]
fn empty_source_assembles_to_nothing() {
    let table = compile_ok("nop -> 0x00");
    assert_eq!(run_ok(&table, ""), Vec::<u8>::new());
    assert_eq!(run_ok(&table, "\n\n"), Vec::<u8>::new());
}

#[test]
fn comments_are_elided() {
    let table = compile_ok("add r0 -> 0x01 r0 // trailing comment\n/* lead */ nop -> 0x00");
    let bytes = run_ok(&table, "add r1 // use one\nnop /* mid */");
    assert_eq!(bytes, vec![0x01, 0x01, 0x00]);
}

#[test]
fn missing_arrow_is_an_error() {
    let (table, logs) = compile("add r0, r1");
    assert!(table.is_none());
    let errors: Vec<&Log> = logs.iter().filter(|l| l.is_error()).collect();
    assert_eq!(errors.len(), 1);
    assert_eq!(errors[0].message(), "expected '->' following an instruction pattern");
}

#[test]
fn missing_immediate_width_is_an_error() {
    let (table, logs) = compile("ldi i0 -> i0");
    assert!(table.is_none());
    assert!(logs.iter().any(|l| l.message().starts_with("expected width of immediate")));
}

#[test]
fn non_byte_aligned_immediate_is_rejected_in_codegen() {
    let (table, logs) = compile("ldi i0:3 -> i0");
    assert!(table.is_none());
    assert!(logs.iter().any(|l| l.message() == "immediate width must be byte aligned (for now)"));
}

#[test]
fn undeclared_references_are_rejected() {
    let (table, logs) = compile("add r0 -> r1");
    assert!(table.is_none());
    assert!(logs.iter().any(
        |l| l.message() == "'add' uses register 1 which is not given in the instruction pattern",
    ));
    let (table, logs) = compile("ldi i0:8 -> i1");
    assert!(table.is_none());
    assert!(logs.iter().any(
        |l| l.message() == "'ldi' uses immediate 1 which is not given in the instruction pattern",
    ));
}

#[test]
fn bracket_group_takes_width_four_immediates() {
    let table = compile_ok("x i0:4 -> [i0 | 5]");
    let bytes = run_ok(&table, "x 0xB");
    assert_eq!(bytes, vec![0xB5]);
}

#[test]
fn bracket_group_rejects_wider_immediates() {
    let (table, logs) = compile("x i0:8 -> [i0 | 5]");
    assert!(table.is_none());
    assert!(logs.iter().any(
        |l| l.message() == "width of immediate in bracket group must be 4 (for now)",
    ));
}

#[test]
fn bracket_literal_over_a_nibble_warns_and_masks() {
    let (table, logs) = compile("y -> [0x1F | 1]");
    let warnings: Vec<&Log> = logs.iter().filter(|l| l.level() == Level::Warning).collect();
    assert_eq!(warnings.len(), 1);
    assert_eq!(warnings[0].message(), "0x1F is larger than 4 bits and will be truncated");
    let table = table.expect("a nibble warning never blocks compilation");
    assert_eq!(run_ok(&table, "y"), vec![0xF1]);
}

#[test]
fn malformed_bracket_group_is_an_error() {
    let (table, logs) = compile("z r0 -> [r0 r0]");
    assert!(table.is_none());
    assert!(logs.iter().any(|l| l.message() == "expected '|' in bracket group, but got 'r0'"));
    let (asm2, logs2) = compile("z r0 -> [r0 | r0");
    assert!(asm2.is_none());
    assert!(logs2.iter().any(|l| l.message() == "expected ']' in bracket group"));
}

#[test]
fn byte_literal_over_eight_bits_warns_and_masks() {
    let (table, logs) = compile("big -> 300");
    let warnings: Vec<&Log> = logs.iter().filter(|l| l.level() == Level::Warning).collect();
    assert_eq!(warnings.len(), 1);
    assert_eq!(warnings[0].message(), "300 is larger than 8 bits and will be truncated");
    let table = table.expect("a byte warning never blocks compilation");
    assert_eq!(run_ok(&table, "big"), vec![44]);
}

#[test]
fn config_line_must_start_with_an_identifier() {
    let (table, logs) = compile("5 -> 0x01");
    assert!(table.is_none());
    assert_eq!(
        logs[0].message(),
        "only instruction patterns are supported in the assembler config at the moment",
    );
}

#[test]
fn capture_buffers_are_fresh_per_line() {
    // the second line captures fewer immediates than the first; a
    // buffer carried across lines would leak the first line's value
    let table = compile_ok("a i0:8, i1:8 -> i1\nb i0:8 -> i0");
    let bytes = run_ok(&table, "a 1, 2\nb 3");
    assert_eq!(bytes, vec![2, 3]);
}

#[test]
fn missing_comma_is_a_syntax_mismatch() {
    let table = compile_ok("add r0, r1 -> 0x01 r0 r1");
    let (bytes, logs) = run(&table, "add r0 r1");
    assert!(bytes.is_none());
    assert_eq!(logs[0].message(), "unexpected register: 'r1'");
}

#[test]
fn unexpected_comma_is_reported() {
    let table = compile_ok("add r0 -> 0x01 r0");
    let (bytes, logs) = run(&table, "add , r0");
    assert!(bytes.is_none());
    assert_eq!(logs[0].message(), "unexpected comma");
}

#[test]
fn foreign_token_in_source_is_reported() {
    let table = compile_ok("add r0 -> 0x01 r0");
    let (bytes, logs) = run(&table, "add ->");
    assert!(bytes.is_none());
    assert_eq!(logs[0].message(), "unexpected token: '->'");
}

#[test]
fn source_line_must_start_with_an_identifier() {
    let table = compile_ok("add r0 -> 0x01 r0");
    let (bytes, logs) = run(&table, "5 add r0");
    assert!(bytes.is_none());
    assert_eq!(logs.len(), 1);
    assert_eq!(logs[0].message(), "unexpected token: '5'");
}

#[test]
fn carriage_returns_do_not_split_differently() {
    let table = compile_ok("add r0 -> 0x01 r0\r\nnop -> 0x00");
    let bytes = run_ok(&table, "add r1\r\nnop\r\n");
    assert_eq!(bytes, vec![0x01, 0x01, 0x00]);
}

#[test]
fn binary_and_decimal_literals_encode_alike() {
    let table = compile_ok("lit i0:8 -> i0");
    assert_eq!(run_ok(&table, "lit 0b1010\nlit 10\nlit 0xA"), vec![10, 10, 10]);
}
