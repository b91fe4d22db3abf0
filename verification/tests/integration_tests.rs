use lib::analyzer::Analyzer;
use lib::codegen::CodeGen;
use lib::emitter::{check_rom_size, MAX_ROM_SIZE};
use lib::lexer::Lexer;
use lib::parser::Parser;

fn compile_to_bytes(source: &str) -> Vec<u8> {
    let mut lexer = Lexer::new(source);
    let tokens = lexer.tokenize().unwrap();
    let mut parser = Parser::new(tokens);
    let program = parser.parse_program().unwrap();
    let mut analyzer = Analyzer::new();
    analyzer.analyze(&program).unwrap();
    let mut codegen = CodeGen::new();
    codegen.generate(&program)
}

#[test]
fn test_full_pipeline() {
    let source = r#"
        fn main() -> () {
            clear();
        }
    "#;
    let bytes = compile_to_bytes(source);
    assert!(!bytes.is_empty());
    // the program starts with JP main
    assert_eq!(bytes[0] & 0xF0, 0x10);
}

#[test]
fn test_rom_size_limit() {
    // a ROM above 3584 bytes is refused
    let big_bytes = vec![0u8; 4000];
    let result = check_rom_size(&big_bytes);
    assert!(result.is_err());
    assert_eq!(
        result.unwrap_err().message,
        "ROM size 4000 bytes exceeds maximum 3584 bytes"
    );
}

#[test]
fn test_rom_size_at_limit_is_accepted() {
    assert_eq!(MAX_ROM_SIZE, 3584);
    assert!(check_rom_size(&vec![0u8; 3584]).is_ok());
    assert!(check_rom_size(&vec![0u8; 3585]).is_err());
    assert!(check_rom_size(&Vec::new()).is_ok());
}

#[test]
fn test_design_doc_program_e2e() {
    let source = r#"
        let BOARD_W: u8 = 10;
        let BOARD_H: u8 = 20;
        let block_sprite: sprite(1) = [0b11000000];

        fn draw_block(x: u8, y: u8) -> () {
            draw(block_sprite, x, y);
        }

        fn clamp(val: u8, max: u8) -> u8 {
            if val > max { max } else { val }
        }

        fn game_loop() -> () {
            loop {
                let key: u8 = wait_key();
                if key == 5 {
                    break;
                };
            };
        }

        fn main() -> () {
            clear();
            game_loop();
        }
    "#;
    let bytes = compile_to_bytes(source);
    assert!(!bytes.is_empty());
    // the image fits in memory, so it may be written out
    assert!(check_rom_size(&bytes).is_ok());
}
