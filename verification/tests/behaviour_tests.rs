use lib::analyzer::{types_compatible, AnalyzeError, Analyzer};
use lib::chip8::Addr;
use lib::codegen::CodeGen;
use lib::lexer::Lexer;
use lib::parser::ast::{BuiltinFunction, Program, Type};
use lib::parser::Parser;

fn parse(source: &str) -> Program {
    let mut lexer = Lexer::new(source);
    let tokens = lexer.tokenize().unwrap();
    let mut parser = Parser::new(tokens);
    parser.parse_program().unwrap()
}

fn analysis_errors(source: &str) -> Vec<AnalyzeError> {
    let program = parse(source);
    let mut analyzer = Analyzer::new();
    analyzer.analyze(&program).unwrap_err()
}

fn lex_error_text(source: &str) -> String {
    let mut lexer = Lexer::new(source);
    lexer.tokenize().unwrap_err().message()
}

fn parse_error_text(source: &str) -> String {
    let mut lexer = Lexer::new(source);
    let tokens = lexer.tokenize().unwrap();
    let mut parser = Parser::new(tokens);
    parser.parse_program().unwrap_err().located_message()
}

// ---- lexer messages ----

#[test]
fn lex_message_unexpected_character() {
    assert_eq!(lex_error_text("let x = @;"), "1:9: unexpected character: '@'");
}

#[test]
fn lex_message_single_ampersand() {
    assert_eq!(lex_error_text("a & b"), "1:3: unexpected character: '&'");
}

#[test]
fn lex_message_counts_lines_and_columns() {
    assert_eq!(lex_error_text("fn\n  $"), "2:3: unexpected character: '$'");
}

#[test]
fn lex_message_hex_prefix_without_digits() {
    assert_eq!(lex_error_text("0x"), "1:1: expected hex digits after hex");
}

#[test]
fn lex_message_binary_prefix_without_digits() {
    assert_eq!(
        lex_error_text("let a = 0b;"),
        "1:9: expected binary digits after binary"
    );
}

#[test]
fn lex_message_decimal_overflow() {
    assert_eq!(
        lex_error_text("99999999999999999999"),
        "1:1: invalid decimal number: 99999999999999999999"
    );
}

// ---- parser messages ----

#[test]
fn parse_message_bad_top_level() {
    assert_eq!(
        parse_error_text("42"),
        "1:1: expected 'fn', 'let', 'enum', or 'struct', found IntLiteral(42)"
    );
}

#[test]
fn parse_message_missing_colon() {
    assert_eq!(
        parse_error_text("let X u8 = 1;"),
        "1:7: expected Colon, found Ident(\"u8\")"
    );
}

#[test]
fn parse_message_invalid_assignment_target() {
    assert_eq!(
        parse_error_text("fn main() -> () { 1 = 2; }"),
        "1:21: invalid assignment target"
    );
}

#[test]
fn parse_message_statement_without_terminator() {
    assert_eq!(
        parse_error_text("fn main() -> () { 1 2 }"),
        "1:21: expected ';' or '}', found IntLiteral(2)"
    );
}

#[test]
fn parse_message_without_location() {
    let mut lexer = Lexer::new("42");
    let tokens = lexer.tokenize().unwrap();
    let mut parser = Parser::new(tokens);
    let err = parser.parse_program().unwrap_err();
    assert_eq!(
        err.message(),
        "expected 'fn', 'let', 'enum', or 'struct', found IntLiteral(42)"
    );
}

// ---- analyzer messages ----

#[test]
fn analyze_message_missing_main() {
    let errs = analysis_errors("fn helper() -> () { }");
    assert_eq!(errs.len(), 1);
    assert_eq!(errs[0].message(), "missing 'main' function");
}

#[test]
fn analyze_message_let_type_mismatch() {
    let errs = analysis_errors("fn main() -> () { let x: u8 = true; }");
    assert_eq!(errs[0].message(), "type mismatch in let: expected U8, found Bool");
}

#[test]
fn analyze_message_undefined_function() {
    let errs = analysis_errors("fn main() -> () { foo(); }");
    assert_eq!(errs[0].message(), "undefined function: 'foo'");
}

#[test]
fn analyze_message_undefined_variable() {
    let errs = analysis_errors("fn main() -> () { let y: u8 = x; }");
    assert_eq!(errs[0].message(), "undefined variable: 'x'");
}

#[test]
fn analyze_message_argument_count() {
    let errs = analysis_errors("fn f(a: u8) -> u8 { a } fn main() -> () { f(); }");
    assert_eq!(errs[0].message(), "'f' expects 1 args, got 0");
}

#[test]
fn analyze_message_immutable_global() {
    let errs = analysis_errors("let X: u8 = 1; fn main() -> () { X = 2; }");
    assert_eq!(errs[0].message(), "cannot assign to immutable global: 'X'");
}

// ---- code generation ----

#[test]
fn generate_without_main_leaves_entry_word_zero() {
    let program = parse("fn helper() -> () { }");
    let bytes = CodeGen::new().generate(&program);
    assert_eq!(bytes[0], 0x00);
    assert_eq!(bytes[1], 0x00);
}

#[test]
fn generate_jumps_to_the_last_main() {
    // two definitions named `main` (refused by the analyzer): the later one is the entry
    let program = parse("fn main() -> () { } fn main() -> () { clear(); }");
    let bytes = CodeGen::new().generate(&program);
    assert_eq!(bytes[0], 0x12);
    assert!(bytes[1] > 0x02);
}

#[test]
fn generate_ends_with_the_data_section() {
    let program = parse(
        "let A: u8 = 7; let S: sprite(2) = [0xFF, 0x81]; let F: bool = true; fn main() -> () { }",
    );
    let bytes = CodeGen::new().generate(&program);
    let n = bytes.len();
    assert!(n >= 4);
    assert_eq!(&bytes[n - 4..], &[7u8, 0xFF, 0x81, 0x00]);
    assert_eq!((n - 4) % 2, 0);
    assert_eq!(bytes[0] & 0xF0, 0x10);
}

// ---- built-in names and type compatibility ----

#[test]
fn builtin_names_round_trip() {
    let all = [
        BuiltinFunction::Clear,
        BuiltinFunction::Draw,
        BuiltinFunction::WaitKey,
        BuiltinFunction::IsKeyPressed,
        BuiltinFunction::Delay,
        BuiltinFunction::SetDelay,
        BuiltinFunction::SetSound,
        BuiltinFunction::Random,
        BuiltinFunction::Bcd,
        BuiltinFunction::DrawDigit,
        BuiltinFunction::RandomEnum,
    ];
    for b in all {
        assert_eq!(BuiltinFunction::from_name(b.name()), Some(b));
    }
    assert_eq!(BuiltinFunction::from_name("draw_sprite"), None);
    assert_eq!(BuiltinFunction::from_name(""), None);
}

#[test]
fn types_compatible_is_reflexive_on_examples() {
    let types = [
        Type::U8,
        Type::Bool,
        Type::Unit,
        Type::Array(Box::new(Type::U8), 3),
        Type::Array(Box::new(Type::Array(Box::new(Type::Bool), 2)), 4),
        Type::Sprite(5),
        Type::UserType("Pos".to_string()),
    ];
    for t in types.iter() {
        assert!(types_compatible(t, t));
    }
}

#[test]
fn types_compatible_is_not_transitive() {
    let s1 = Type::Sprite(1);
    let s2 = Type::Sprite(2);
    let a2 = Type::Array(Box::new(Type::U8), 2);
    assert!(types_compatible(&s1, &s2));
    assert!(types_compatible(&s2, &a2));
    assert!(!types_compatible(&s1, &a2));
    // an array never stands for a sprite the other way round
    assert!(!types_compatible(&a2, &s2));
}

#[test]
fn program_start_is_0x200() {
    assert_eq!(Addr::program_start().raw(), 0x200);
}

/// Whether a 16-bit word is one of the instructions this compiler emits.
fn is_instruction(w: u16) -> bool {
    match w >> 12 {
        0x0 => w == 0x00E0 || w == 0x00EE,
        0x1 | 0x2 | 0x3 | 0x4 | 0x6 | 0x7 | 0xA | 0xB | 0xC => true,
        0x5 | 0x9 => w & 0xF == 0,
        0x8 => matches!(w & 0xF, 0x0..=0x7 | 0xE),
        0xD => w & 0xF != 0,
        0xE => matches!(w & 0xFF, 0x9E | 0xA1),
        0xF => matches!(w & 0xFF, 0x07 | 0x0A | 0x15 | 0x18 | 0x1E | 0x29 | 0x33 | 0x55 | 0x65),
        _ => false,
    }
}

#[test]
fn generate_emits_whole_instructions() {
    let source = r#"
        let BOARD_W: u8 = 10;
        let BOARD_H: u8 = 20;
        let block_sprite: sprite(1) = [0b11000000];

        fn draw_block(x: u8, y: u8) -> () {
            draw(block_sprite, x, y);
        }

        fn clamp(val: u8, max: u8) -> u8 {
            if val > max { max } else { val }
        }

        fn game_loop() -> () {
            loop {
                let key: u8 = wait_key();
                if key == 5 {
                    break;
                };
            };
        }

        fn main() -> () {
            clear();
            draw_block(clamp(BOARD_W, 8), BOARD_H);
            game_loop();
        }
    "#;
    let program = parse(source);
    let mut analyzer = Analyzer::new();
    assert!(analyzer.analyze(&program).is_ok());
    let bytes = CodeGen::new().generate(&program);
    let data = [10u8, 20, 0b11000000];
    let code_len = bytes.len() - data.len();
    assert_eq!(&bytes[code_len..], &data);
    assert_eq!(code_len % 2, 0);
    for k in (0..code_len).step_by(2) {
        let w = (bytes[k] as u16) << 8 | bytes[k + 1] as u16;
        assert!(is_instruction(w), "word {:04X} at {}", w, k);
    }
    // the entry jump lands inside the code, past itself
    let entry = ((bytes[0] as usize) << 8 | bytes[1] as usize) - 0x1000;
    assert!(0x202 <= entry && entry < 0x200 + code_len);
}

#[test]
fn unresolved_call_leaves_a_zero_word() {
    // a call of an undefined function (refused by the analyzer) keeps its zero word
    let program = parse("fn main() -> () { nowhere(); }");
    let bytes = CodeGen::new().generate(&program);
    let mut zero_words = 0;
    for k in (0..bytes.len()).step_by(2) {
        let w = (bytes[k] as u16) << 8 | bytes[k + 1] as u16;
        if w == 0 {
            zero_words += 1;
        } else {
            assert!(is_instruction(w));
        }
    }
    assert_eq!(zero_words, 1);
}

#[test]
fn calls_go_to_the_last_definition() {
    // a later definition of a function replaces an earlier one, as for `main`
    let program = parse("fn f() -> u8 { 1 } fn f() -> u8 { 2 } fn main() -> () { let x: u8 = f(); }");
    let bytes = CodeGen::new().generate(&program);
    let calls: Vec<u16> = (0..bytes.len() - 1)
        .step_by(2)
        .map(|k| (bytes[k] as u16) << 8 | bytes[k + 1] as u16)
        .filter(|w| w >> 12 == 0x2)
        .collect();
    assert_eq!(calls.len(), 1);
    // the first `f` starts right after the entry jump, at 0x202
    assert!(calls[0] & 0x0FFF > 0x202);
}

fn words(source: &str) -> Vec<u16> {
    let rom = CodeGen::new().generate(&parse(source));
    rom.chunks(2)
        .filter(|c| c.len() == 2)
        .map(|c| ((c[0] as u16) << 8) | c[1] as u16)
        .collect()
}

#[test]
fn call_is_call_to_the_callee_start_and_value_comes_from_v0() {
    // layout: JP main (0x200), helper at 0x202: LD V0,7 / RET, main at 0x206
    let w = words("fn helper() -> u8 { 7 } fn main() -> u8 { let x: u8 = helper(); x }");
    assert_eq!(w[0], 0x1206);
    assert_eq!(w[1], 0x6007);
    assert_eq!(w[2], 0x00EE);
    assert!(w.contains(&0x2202));
    // with `a` in V0, the call's value goes from V0 to the next register, V1
    let w = words("fn helper() -> u8 { 7 } fn main() -> u8 { let a: u8 = 1; let x: u8 = helper(); x + a }");
    let at = w.iter().position(|&x| x == 0x2202).expect("CALL to helper");
    assert_eq!(w[at + 1], 0x8100);
}

#[test]
fn builtins_emit_their_instructions() {
    let w = words("fn main() -> () { clear(); }");
    assert!(w.contains(&0x00E0));
    let w = words("fn main() -> () { set_delay(60); }");
    assert!(w.iter().any(|&x| x & 0xF0FF == 0xF015));
    let w = words("fn main() -> () { set_sound(3); }");
    assert!(w.iter().any(|&x| x & 0xF0FF == 0xF018));
    let w = words("fn main() -> () { let k: u8 = wait_key(); }");
    assert!(w.iter().any(|&x| x & 0xF0FF == 0xF00A));
    let w = words("fn main() -> () { let d: u8 = delay(); }");
    assert!(w.iter().any(|&x| x & 0xF0FF == 0xF007));
    let w = words("fn main() -> () { let r: u8 = random(7); }");
    let at = w.iter().position(|&x| x & 0xF0FF == 0xC0FF).expect("RND r, FF");
    assert_eq!(w[at + 1] & 0xF00F, 0x8002);
    let w = words("fn main() -> () { bcd(9); }");
    assert!(w.iter().any(|&x| x & 0xF0FF == 0xF033));
    let w = words("fn main() -> () { draw_digit(1, 2, 3); }");
    let at = w.iter().position(|&x| x & 0xF0FF == 0xF029).expect("LD F, v");
    assert_eq!(w[at + 1] & 0xF00F, 0xD005);
}

#[test]
fn draw_loads_the_sprite_address_then_draws_its_rows() {
    let rom = CodeGen::new().generate(&parse(
        "let s: sprite(3) = [1, 2, 3]; fn main() -> () { draw(s, 0, 0); }",
    ));
    let code_len = rom.len() - 3;
    let w: Vec<u16> = rom[..code_len]
        .chunks(2)
        .map(|c| ((c[0] as u16) << 8) | c[1] as u16)
        .collect();
    let at = w.iter().position(|&x| x & 0xF000 == 0xD000).expect("DRW");
    assert_eq!(w[at] & 0x000F, 3);
    assert_eq!(w[at - 1], 0xA000 | (0x200 + code_len as u16));
}

#[test]
fn let_copies_the_value_into_the_next_register() {
    // `a` lives in V0, `b` in V1: LD V1, 5 then ... the tail copies V1 to V0
    let w = words("fn main() -> u8 { let a: u8 = 3; let b: u8 = 5; b }");
    assert_eq!(w[1], 0x6003);
    assert_eq!(w[2], 0x6105);
    assert_eq!(w[3], 0x8010);
}

#[test]
fn token_spans_follow_the_text() {
    let tokens = Lexer::new("fn main() -> u8 {\n  -- note\n  let x: u8 = 1;\n  x\n}")
        .tokenize()
        .unwrap();
    assert_eq!((tokens[0].span.line, tokens[0].span.column), (1, 1));
    for w in tokens.windows(2) {
        let (a, b) = (w[0].span, w[1].span);
        assert!(a.line < b.line || (a.line == b.line && a.column < b.column));
    }
}

#[test]
fn empty_main_opens_with_a_jump_to_it_and_ends_in_a_jump_to_itself() {
    let w = words("fn main() -> () { }");
    let n = w.len();
    assert_eq!(w[0], 0x1202);
    assert_eq!(w[n - 1], 0x1000 | (0x200 + 2 * (n as u16 - 1)));
}

#[test]
fn functions_are_laid_out_in_order_and_close_with_ret() {
    // f at 0x202: its value (x + 1) is left in V0 before its RET; main follows it
    let w = words("fn f(x: u8) -> u8 { x + 1 } fn main() -> u8 { f(2) }");
    let main_start = (w[0] & 0x0FFF) as usize;
    let ret_at = w.iter().position(|&x| x == 0x00EE).expect("RET of f");
    assert_eq!(0x200 + 2 * (ret_at + 1), main_start);
    assert!(w.contains(&0x2202));
}

#[test]
fn tail_self_call_jumps_to_the_function_start() {
    let w = words("fn count(n: u8) -> u8 { if n == 0 { 0 } else { count(n - 1) } } fn main() -> u8 { count(5) }");
    let ret_at = w.iter().position(|&x| x == 0x00EE).expect("RET of count");
    assert!(w[1..ret_at].contains(&0x1202));
    assert!(!w[1..ret_at].iter().any(|&x| x & 0xF000 == 0x2000));
}

#[test]
fn global_read_loads_from_the_data_section() {
    let rom = CodeGen::new().generate(&parse("let g: u8 = 9; fn main() -> u8 { g }"));
    let code_len = rom.len() - 1;
    assert_eq!(rom[code_len], 9);
    let w: Vec<u16> = rom[..code_len]
        .chunks(2)
        .map(|c| ((c[0] as u16) << 8) | c[1] as u16)
        .collect();
    assert!(w.contains(&(0xA000 | (0x200 + code_len as u16))));
    assert!(w.contains(&0xF065));
}
