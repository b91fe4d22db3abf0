use lib::codegen::CodeGen;
use lib::lexer::Lexer;
use lib::parser::Parser;

/// A small CHIP-8 interpreter for the tests.
///
/// It supports only the opcodes the compiler emits.
/// Drawing, timer and key instructions do nothing.

const MEM_SIZE: usize = 4096;
const PROGRAM_START: u16 = 0x200;
const MAX_CYCLES: usize = 10000;

struct Chip8 {
    mem: [u8; MEM_SIZE],
    v: [u8; 16],
    i: u16,
    pc: u16,
    stack: Vec<u16>,
}

impl Chip8 {
    fn new(program: &[u8]) -> Self {
        let mut mem = [0u8; MEM_SIZE];
        let start = PROGRAM_START as usize;
        let end = start + program.len();
        mem[start..end].copy_from_slice(program);
        Chip8 {
            mem,
            v: [0; 16],
            i: 0,
            pc: PROGRAM_START,
            stack: Vec::new(),
        }
    }

    /// Runs the program and returns V0 once it halts.
    /// `None` when it hangs.
    fn run_and_get_v0(&mut self) -> Option<u8> {
        for _ in 0..MAX_CYCLES {
            let hi = self.mem[self.pc as usize] as u16;
            let lo = self.mem[self.pc as usize + 1] as u16;
            let op = (hi << 8) | lo;

            let nnn = op & 0x0FFF;
            let x = ((op >> 8) & 0x0F) as usize;
            let y = ((op >> 4) & 0x0F) as usize;
            let kk = (op & 0xFF) as u8;
            let nibble = (op & 0x0F) as u8;

            match op & 0xF000 {
                0x0000 => match op {
                    0x00E0 => {
                        // CLS - nop
                        self.pc += 2;
                    }
                    0x00EE => {
                        // RET
                        if let Some(addr) = self.stack.pop() {
                            self.pc = addr;
                        } else {
                            // empty stack: main has finished
                            return Some(self.v[0]);
                        }
                    }
                    _ => self.pc += 2, // unknown 0xxx - skip
                },
                0x1000 => {
                    // JP nnn
                    if nnn == self.pc {
                        // jump-to-self = halt
                        return Some(self.v[0]);
                    }
                    self.pc = nnn;
                }
                0x2000 => {
                    // CALL nnn
                    self.stack.push(self.pc + 2);
                    self.pc = nnn;
                }
                0x3000 => {
                    // SE Vx, kk
                    self.pc += if self.v[x] == kk { 4 } else { 2 };
                }
                0x4000 => {
                    // SNE Vx, kk
                    self.pc += if self.v[x] != kk { 4 } else { 2 };
                }
                0x5000 => {
                    // SE Vx, Vy
                    self.pc += if self.v[x] == self.v[y] { 4 } else { 2 };
                }
                0x6000 => {
                    // LD Vx, kk
                    self.v[x] = kk;
                    self.pc += 2;
                }
                0x7000 => {
                    // ADD Vx, kk
                    self.v[x] = self.v[x].wrapping_add(kk);
                    self.pc += 2;
                }
                0x8000 => {
                    match nibble {
                        0x0 => self.v[x] = self.v[y],
                        0x1 => self.v[x] |= self.v[y],
                        0x2 => self.v[x] &= self.v[y],
                        0x3 => self.v[x] ^= self.v[y],
                        0x4 => {
                            let sum = self.v[x] as u16 + self.v[y] as u16;
                            self.v[0xF] = if sum > 255 { 1 } else { 0 };
                            self.v[x] = sum as u8;
                        }
                        0x5 => {
                            self.v[0xF] = if self.v[x] >= self.v[y] { 1 } else { 0 };
                            self.v[x] = self.v[x].wrapping_sub(self.v[y]);
                        }
                        0x6 => {
                            self.v[0xF] = self.v[y] & 1;
                            self.v[x] = self.v[y] >> 1;
                        }
                        0x7 => {
                            self.v[0xF] = if self.v[y] >= self.v[x] { 1 } else { 0 };
                            self.v[x] = self.v[y].wrapping_sub(self.v[x]);
                        }
                        0xE => {
                            self.v[0xF] = (self.v[y] >> 7) & 1;
                            self.v[x] = self.v[y] << 1;
                        }
                        _ => {}
                    }
                    self.pc += 2;
                }
                0x9000 => {
                    // SNE Vx, Vy
                    self.pc += if self.v[x] != self.v[y] { 4 } else { 2 };
                }
                0xA000 => {
                    // LD I, nnn
                    self.i = nnn;
                    self.pc += 2;
                }
                0xB000 => {
                    // JP V0, nnn
                    self.pc = nnn + self.v[0] as u16;
                }
                0xC000 => {
                    // RND Vx, kk - a fixed value for the tests
                    self.v[x] = 0x42 & kk;
                    self.pc += 2;
                }
                0xD000 => {
                    // DRW - nop (collision = 0)
                    self.v[0xF] = 0;
                    self.pc += 2;
                }
                0xE000 => {
                    match kk {
                        0x9E => {
                            // SKP - no key is ever pressed
                            self.pc += 2;
                        }
                        0xA1 => {
                            // SKNP - no key is pressed, so skip
                            self.pc += 4;
                        }
                        _ => self.pc += 2,
                    }
                }
                0xF000 => {
                    match kk {
                        0x07 => {
                            // LD Vx, DT - the timer reads 0
                            self.v[x] = 0;
                            self.pc += 2;
                        }
                        0x0A => {
                            // LD Vx, K - returns 0 for the tests
                            self.v[x] = 0;
                            self.pc += 2;
                        }
                        0x15 | 0x18 => {
                            // LD DT/ST - nop
                            self.pc += 2;
                        }
                        0x1E => {
                            // ADD I, Vx
                            self.i += self.v[x] as u16;
                            self.pc += 2;
                        }
                        0x29 => {
                            // LD F, Vx - font address
                            self.i = (self.v[x] as u16) * 5;
                            self.pc += 2;
                        }
                        0x33 => {
                            // BCD
                            let val = self.v[x];
                            self.mem[self.i as usize] = val / 100;
                            self.mem[self.i as usize + 1] = (val / 10) % 10;
                            self.mem[self.i as usize + 2] = val % 10;
                            self.pc += 2;
                        }
                        0x55 => {
                            // LD [I], V0..Vx
                            for r in 0..=x {
                                self.mem[self.i as usize + r] = self.v[r];
                            }
                            self.pc += 2;
                        }
                        0x65 => {
                            // LD V0..Vx, [I]
                            for r in 0..=x {
                                self.v[r] = self.mem[self.i as usize + r];
                            }
                            self.pc += 2;
                        }
                        _ => self.pc += 2,
                    }
                }
                _ => self.pc += 2,
            }
        }
        // cycle limit reached: the program hangs
        None
    }
}

fn compile(input: &str) -> Vec<u8> {
    let mut lexer = Lexer::new(input);
    let tokens = lexer.tokenize().unwrap();
    let mut parser = Parser::new(tokens);
    let program = parser.parse_program().unwrap();
    let mut codegen = CodeGen::new();
    codegen.generate(&program)
}

fn compile_and_run(input: &str) -> u8 {
    let bytes = compile(input);
    let mut vm = Chip8::new(&bytes);
    vm.run_and_get_v0().expect("program hanged (cycle limit)")
}

#[test]
fn test_empty_main() {
    let bytes = compile("fn main() -> () { }");
    // JP main (1NNN) + main body (JP self = halt)
    assert!(bytes.len() >= 4);
    // the first instruction is JP (1xxx)
    assert_eq!(bytes[0] & 0xF0, 0x10);
    // main ends in a self loop (JP to itself)
    let last_two = &bytes[bytes.len() - 2..];
    assert_eq!(
        last_two[0] & 0xF0,
        0x10,
        "expected JP instruction at end of main"
    );
    // the jump target is the address of the instruction itself
    let jump_target = ((last_two[0] as u16 & 0x0F) << 8) | last_two[1] as u16;
    let instruction_addr = 0x200 + (bytes.len() as u16 - 2);
    assert_eq!(jump_target, instruction_addr, "expected self-loop halt");
}

#[test]
fn test_main_halts_without_stack_underflow() {
    // a finite program whose main returns a value halts in its self loop
    let result = compile_and_run("fn main() -> u8 { 42 }");
    assert_eq!(result, 42);
}

#[test]
fn test_clear_call() {
    let bytes = compile(
        "fn main() -> () {
            clear();
        }",
    );
    // holds 00E0 (CLS)
    let has_cls = bytes.windows(2).any(|w| w[0] == 0x00 && w[1] == 0xE0);
    assert!(has_cls, "expected CLS instruction, got: {:02X?}", bytes);
}

#[test]
fn test_set_delay() {
    let bytes = compile(
        "fn main() -> () {
            set_delay(60);
        }",
    );
    // holds 6XKK (LD Vx, 60 = 0x3C)
    let has_ld = bytes
        .windows(2)
        .any(|w| (w[0] & 0xF0) == 0x60 && w[1] == 60);
    assert!(has_ld, "expected LD Vx, 60, got: {:02X?}", bytes);
    // holds FX15 (set_delay)
    let has_set_delay = bytes
        .windows(2)
        .any(|w| (w[0] & 0xF0) == 0xF0 && w[1] == 0x15);
    assert!(
        has_set_delay,
        "expected FX15 instruction, got: {:02X?}",
        bytes
    );
}

#[test]
fn test_wait_key() {
    let bytes = compile(
        "fn main() -> () {
            let k: u8 = wait_key();
        }",
    );
    // holds FX0A (wait_key)
    let has_wait = bytes
        .windows(2)
        .any(|w| (w[0] & 0xF0) == 0xF0 && w[1] == 0x0A);
    assert!(has_wait, "expected FX0A instruction, got: {:02X?}", bytes);
}

#[test]
fn test_loop_generates_jp() {
    let bytes = compile(
        "fn main() -> () {
            loop {
                break;
            };
        }",
    );
    // holds JP (1NNN) (the loop back)
    let jp_count = bytes
        .chunks(2)
        .filter(|w| w.len() == 2 && (w[0] & 0xF0) == 0x10)
        .count();
    // at least two JPs: JP main + the loop back + the break
    assert!(
        jp_count >= 2,
        "expected at least 2 JP instructions, got {}, bytes: {:02X?}",
        jp_count,
        bytes
    );
}

#[test]
fn test_function_call_generates_call() {
    let bytes = compile(
        "fn helper() -> () { clear(); }
         fn main() -> () { helper(); }",
    );
    // holds CALL (2NNN)
    let has_call = bytes
        .chunks(2)
        .any(|w| w.len() == 2 && (w[0] & 0xF0) == 0x20);
    assert!(has_call, "expected CALL instruction, got: {:02X?}", bytes);
}

#[test]
fn codegen_tests_test_sprite_and_draw() {
    let bytes = compile(
        "let s: sprite(1) = [0b11110000];
         fn main() -> () {
            let x: u8 = 10;
            let y: u8 = 5;
            draw(s, x, y);
        }",
    );
    // holds ANNN (LD I, addr)
    let has_ld_i = bytes
        .chunks(2)
        .any(|w| w.len() == 2 && (w[0] & 0xF0) == 0xA0);
    assert!(has_ld_i, "expected ANNN instruction, got: {:02X?}", bytes);
    // holds DXYN (DRW)
    let has_drw = bytes
        .chunks(2)
        .any(|w| w.len() == 2 && (w[0] & 0xF0) == 0xD0);
    assert!(has_drw, "expected DXYN instruction, got: {:02X?}", bytes);
}

#[test]
fn test_if_generates_skip_and_jp() {
    let bytes = compile(
        "fn main() -> () {
            let x: u8 = 5;
            if x == 5 {
                clear();
            };
        }",
    );
    // instructions were generated
    assert!(bytes.len() > 4);
}

#[test]
fn test_binary_add() {
    let bytes = compile(
        "fn main() -> () {
            let x: u8 = 3;
            let y: u8 = 4;
            let z: u8 = x + y;
        }",
    );
    // holds 8XY4 (ADD Vx, Vy)
    let has_add = bytes
        .chunks(2)
        .any(|w| w.len() == 2 && (w[0] & 0xF0) == 0x80 && (w[1] & 0x0F) == 0x04);
    assert!(has_add, "expected ADD instruction, got: {:02X?}", bytes);
}

#[test]
fn test_output_starts_with_jp() {
    let bytes = compile("fn main() -> () { }");
    // a program always starts with JP main
    assert_eq!(bytes[0] & 0xF0, 0x10, "first instruction should be JP");
}

#[test]
fn codegen_tests_test_design_doc_program() {
    let bytes = compile(
        r#"
        let BOARD_W: u8 = 10;
        let BOARD_H: u8 = 20;
        let block_sprite: sprite(1) = [0b11000000];

        fn draw_block(x: u8, y: u8) -> () {
            draw(block_sprite, x, y);
        }

        fn clamp(val: u8, max: u8) -> u8 {
            if val > max { max } else { val }
        }

        fn game_loop() -> () {
            loop {
                let key: u8 = wait_key();
                if key == 5 {
                    break;
                };
            };
        }

        fn main() -> () {
            clear();
            game_loop();
        }
    "#,
    );
    // compiles and produces bytecode
    assert!(bytes.len() > 10, "expected substantial bytecode output");
    // JP main
    assert_eq!(bytes[0] & 0xF0, 0x10);
}

#[test]
fn test_match_generates_se_jp() {
    let bytes = compile(
        "fn main() -> u8 {
            let x: u8 = 1;
            match x {
                0 => 10,
                1 => 20,
                2 => 30,
            }
        }",
    );
    // match produces the SE + JP pattern
    assert!(bytes.len() > 10);
    // holds SE (3xxx)
    assert!(
        bytes.chunks(2).any(|c| c[0] & 0xF0 == 0x30),
        "expected SE instruction in match codegen"
    );
}

#[test]
fn test_enum_variant_generates_ld_imm() {
    let bytes = compile(
        "enum Dir { Up, Down, Left }
         fn main() -> u8 {
            let d: Dir = Dir::Down;
            match d {
                Dir::Up => 0,
                Dir::Down => 1,
                Dir::Left => 2,
            }
         }",
    );
    assert!(bytes.len() > 4);
}

#[test]
fn test_function_call_saves_registers() {
    let bytes = compile(
        "fn add_one(x: u8) -> u8 {
            x + 1
        }
        fn main() -> u8 {
            let a: u8 = 5;
            let b: u8 = add_one(a);
            a + b
        }",
    );
    // holds FX55 (LD [I], Vx) and FX65 (LD Vx, [I])
    let has_fx55 = bytes.chunks(2).any(|c| c[1] == 0x55 && c[0] & 0xF0 == 0xF0);
    let has_fx65 = bytes.chunks(2).any(|c| c[1] == 0x65 && c[0] & 0xF0 == 0xF0);
    assert!(has_fx55, "expected FX55 (register save) instruction");
    assert!(has_fx65, "expected FX65 (register restore) instruction");
}

#[test]
fn test_pipe_compiles() {
    let bytes = compile(
        "fn double(x: u8) -> u8 { x + x }
         fn main() -> u8 { 5 |> double() }",
    );
    // the pipe is desugared by the parser: the same bytecode as a plain call
    assert!(bytes.len() > 4);
    // holds CALL (2NNN)
    assert!(
        bytes.chunks(2).any(|c| c[0] & 0xF0 == 0x20),
        "expected CALL instruction"
    );
}

#[test]
fn test_function_body_result_copied_to_v0() {
    // draw() returns VF; a function whose body ends in VF needs LD V0, VF before RET
    let bytes = compile(
        "let sprite: sprite(1) = [0b11110000];
         fn check(x: u8, y: u8) -> bool {
            draw(sprite, x, y)
         }
         fn main() -> () {
            let c: bool = check(0, 0);
         }",
    );
    // check holds LD V0, VF (80F0, not the 8F0x pattern)
    // 8XY0 = LD Vx, Vy -> 80F0 = LD V0, VF
    let has_ld_v0_vf = bytes.chunks(2).any(|c| c[0] == 0x80 && c[1] == 0xF0);
    assert!(
        has_ld_v0_vf,
        "expected LD V0, VF before RET in function returning draw result"
    );
}

#[test]
fn test_random_enum_generates_rnd() {
    let bytes = compile(
        "enum Piece { I, O, T, S, Z, L, J }
         fn main() -> Piece { random_enum(Piece) }",
    );
    // holds an RND instruction (CXKK)
    let has_rnd = bytes.chunks(2).any(|c| (c[0] & 0xF0) == 0xC0);
    assert!(has_rnd, "expected RND instruction for random_enum");
}

#[test]
fn test_random_enum_power_of_two() {
    // 4 variants (a power of two): mask = 3, no rejection sampling
    let bytes = compile(
        "enum Dir { Up, Down, Left, Right }
         fn main() -> Dir { random_enum(Dir) }",
    );
    let has_rnd = bytes.chunks(2).any(|c| (c[0] & 0xF0) == 0xC0);
    assert!(has_rnd, "expected RND instruction for random_enum");
    // holds RND Vx, 0x03 (mask = 3)
    let has_rnd_mask3 = bytes
        .chunks(2)
        .any(|c| (c[0] & 0xF0) == 0xC0 && c[1] == 0x03);
    assert!(
        has_rnd_mask3,
        "expected RND with mask 0x03 for 4-variant enum"
    );
}

#[test]
fn test_tco_self_recursion_generates_jp() {
    // tail recursion compiles to JP, not CALL
    let bytes = compile(
        "fn count(n: u8) -> u8 {
            if n == 0 { 0 } else { count(n - 1) }
         }
         fn main() -> u8 { count(5) }",
    );
    // the tail call inside count is a JP (1NNN)
    // the call of count from main is a CALL (2NNN)
    // JPs: the first instruction (to main), the TCO jump in count, and the branches
    let jp_count = bytes.chunks(2).filter(|c| (c[0] & 0xF0) == 0x10).count();
    let call_count = bytes.chunks(2).filter(|c| (c[0] & 0xF0) == 0x20).count();
    // one CALL only, main -> count (the tail call became a JP)
    assert_eq!(call_count, 1, "expected exactly 1 CALL (main -> count)");
    // JPs: the jump to main + the if/else jumps + the TCO jump (at least 3)
    assert!(
        jp_count >= 3,
        "expected at least 3 JP instructions (main + if-else + TCO)"
    );
}

#[test]
fn test_non_tail_recursion_generates_call() {
    // recursion outside tail position stays a CALL
    let bytes = compile(
        "fn add_one(n: u8) -> u8 {
            if n == 0 { 0 } else { add_one(n - 1) + 1 }
         }
         fn main() -> u8 { add_one(3) }",
    );
    // add_one(n-1) + 1 is not a tail call: two CALLs (main -> add_one, add_one -> add_one)
    let call_count = bytes.chunks(2).filter(|c| (c[0] & 0xF0) == 0x20).count();
    assert_eq!(
        call_count, 2,
        "expected 2 CALL instructions (non-tail recursion)"
    );
}

#[test]
fn test_struct_literal_and_field_access() {
    // a struct literal and a field access compile
    let bytes = compile(
        "struct Pos { x: u8, y: u8 }
         fn main() -> u8 {
            let p: Pos = Pos { x: 10, y: 20 };
            p.x
         }",
    );
    // compiles to suitable bytecode
    assert!(bytes.len() >= 4);
    // holds LD (6XKK) instructions (loading 10 and 20)
    let has_ld_10 = bytes.chunks(2).any(|c| (c[0] & 0xF0) == 0x60 && c[1] == 10);
    let has_ld_20 = bytes.chunks(2).any(|c| (c[0] & 0xF0) == 0x60 && c[1] == 20);
    assert!(has_ld_10, "expected LD with value 10");
    assert!(has_ld_20, "expected LD with value 20");
}

#[test]
fn test_enum_equality_compiles() {
    let bytes = compile(
        "enum Dir { Up, Down }
         fn main() -> bool {
            let d: Dir = Dir::Up;
            d == Dir::Down
         }",
    );
    // holds SE (5XY0) (the equality test)
    let has_se = bytes.chunks(2).any(|c| (c[0] & 0xF0) == 0x50);
    assert!(has_se, "expected SE instruction for enum equality");
}

#[test]
fn test_struct_equality_compiles() {
    let bytes = compile(
        "struct Pos { x: u8, y: u8 }
         fn main() -> bool {
            let a: Pos = Pos { x: 1, y: 2 };
            let b: Pos = Pos { x: 1, y: 2 };
            a == b
         }",
    );
    // holds at least two SE (5XY0) (one test per field)
    let se_count = bytes.chunks(2).filter(|c| (c[0] & 0xF0) == 0x50).count();
    assert!(
        se_count >= 2,
        "expected at least 2 SE instructions for struct equality (field-by-field)"
    );
}

#[test]
fn test_struct_param_memory_backed() {
    // struct parameters are passed through memory
    let bytes = compile(
        "struct Pos { x: u8, y: u8 }
         fn get_x(p: Pos) -> u8 { p.x }
         fn main() -> u8 {
            let p: Pos = Pos { x: 5, y: 10 };
            get_x(p)
         }",
    );
    assert!(bytes.len() >= 4);
    // holds a CALL instruction
    let has_call = bytes.chunks(2).any(|c| (c[0] & 0xF0) == 0x20);
    assert!(has_call, "expected CALL instruction");
}

#[test]
fn test_multiple_struct_params_no_overflow() {
    // several struct arguments do not overflow the registers
    let bytes = compile(
        "struct Pos { x: u8, y: u8 }
         fn add_pos(a: Pos, b: Pos) -> u8 {
            a.x + b.x
         }
         fn main() -> u8 {
            let p1: Pos = Pos { x: 1, y: 2 };
            let p2: Pos = Pos { x: 3, y: 4 };
            add_pos(p1, p2)
         }",
    );
    assert!(bytes.len() >= 4);
    let has_call = bytes.chunks(2).any(|c| (c[0] & 0xF0) == 0x20);
    assert!(has_call, "expected CALL instruction");
}

#[test]
fn test_struct_return_to_memory() {
    // the result of a function that returns a struct is usable through memory
    let bytes = compile(
        "struct Pos { x: u8, y: u8 }
         fn make_pos(x: u8, y: u8) -> Pos {
            Pos { x: x, y: y }
         }
         fn main() -> u8 {
            let p: Pos = make_pos(10, 20);
            p.x
         }",
    );
    assert!(bytes.len() >= 4);
}

#[test]
fn test_nested_struct_field_access_memory() {
    // a nested struct field access works
    let bytes = compile(
        "struct Pos { x: u8, y: u8 }
         struct Entity { pos: Pos, hp: u8 }
         fn get_entity_x(e: Entity) -> u8 {
            e.pos.x
         }
         fn main() -> u8 {
            let e: Entity = Entity { pos: Pos { x: 42, y: 10 }, hp: 100 };
            get_entity_x(e)
         }",
    );
    assert!(bytes.len() >= 4);
    // 42 is loaded
    let has_ld_42 = bytes.chunks(2).any(|c| (c[0] & 0xF0) == 0x60 && c[1] == 42);
    assert!(has_ld_42, "expected LD with value 42");
}

#[test]
fn test_struct_equality_memory_backed() {
    // equality of two structs in memory works
    let bytes = compile(
        "struct Pos { x: u8, y: u8 }
         fn same_pos(a: Pos, b: Pos) -> bool {
            a == b
         }
         fn main() -> bool {
            let p1: Pos = Pos { x: 1, y: 2 };
            let p2: Pos = Pos { x: 1, y: 2 };
            same_pos(p1, p2)
         }",
    );
    assert!(bytes.len() >= 4);
    // holds SE (5XY0) (one test per field)
    let se_count = bytes.chunks(2).filter(|c| (c[0] & 0xF0) == 0x50).count();
    assert!(
        se_count >= 2,
        "expected at least 2 SE instructions for struct equality"
    );
}

#[test]
fn test_tco_with_struct_param() {
    // TCO with a struct argument works
    let bytes = compile(
        "struct Pos { x: u8, y: u8 }
         fn move_right(p: Pos, n: u8) -> u8 {
            if n == 0 {
               p.x
            } else {
               move_right(Pos { x: p.x + 1, y: p.y }, n - 1)
            }
         }
         fn main() -> u8 {
            move_right(Pos { x: 0, y: 0 }, 5)
         }",
    );
    assert!(bytes.len() >= 4);
    // holds a JP instruction (TCO)
    let has_jp = bytes.chunks(2).any(|c| (c[0] & 0xF0) == 0x10);
    assert!(has_jp, "expected JP instruction for TCO");
}

#[test]
fn test_tco_after_struct_let_does_not_leak_temps() {
    let bytes = compile(
        "struct GameState { a: u8, b: u8, c: u8, d: u8, e: u8, f: u8 }
         fn next_state(state: GameState) -> GameState {
             state
         }
         fn loop_state(state: GameState, n: u8) -> u8 {
             if n == 0 {
                state.a
             } else {
                let next: GameState = next_state(state);
                loop_state(next, n - 1)
             }
         }
         fn main() -> u8 {
             loop_state(GameState { a: 1, b: 2, c: 3, d: 4, e: 5, f: 6 }, 3)
         }",
    );
    assert!(bytes.len() >= 4);
    let has_jp = bytes.chunks(2).any(|c| (c[0] & 0xF0) == 0x10);
    assert!(has_jp, "expected JP instruction for TCO after struct let");
}

#[test]
fn test_issue34_multiple_struct_args() {
    // several struct arguments together with a local variable
    let bytes = compile(
        "struct Pos { x: u8, y: u8 }
         fn distance_x(a: Pos, b: Pos) -> u8 {
            let dx: u8 = b.x - a.x;
            dx
         }
         fn main() -> u8 {
            let p1: Pos = Pos { x: 10, y: 20 };
            let p2: Pos = Pos { x: 30, y: 40 };
            distance_x(p1, p2)
         }",
    );
    assert!(bytes.len() >= 4);
}

#[test]
fn test_struct_update_memory() {
    // struct update syntax works on memory
    let bytes = compile(
        "struct Pos { x: u8, y: u8 }
         fn move_x(p: Pos) -> Pos {
            Pos { x: p.x + 1, ..p }
         }
         fn main() -> u8 {
            let p: Pos = Pos { x: 5, y: 10 };
            let q: Pos = move_x(p);
            q.x
         }",
    );
    assert!(bytes.len() >= 4);
}

#[test]
fn test_if_else_returns_struct_from_memory() {
    // if/else returning a struct held in memory
    let bytes = compile(
        "struct Pos { x: u8, y: u8 }
         fn choose(c: bool, a: Pos, b: Pos) -> Pos {
            if c { a } else { b }
         }
         fn main() -> u8 {
            let p: Pos = choose(true, Pos { x: 1, y: 2 }, Pos { x: 3, y: 4 });
            p.x
         }",
    );
    assert!(bytes.len() >= 4);
}

#[test]
fn test_mul_compiles() {
    let bytes = compile(
        "fn main() -> u8 {
            let a: u8 = 3;
            let b: u8 = 4;
            a * b
         }",
    );
    assert!(bytes.len() >= 4);
    // holds a JP instruction (the loop)
    let jp_count = bytes.chunks(2).filter(|c| (c[0] & 0xF0) == 0x10).count();
    assert!(jp_count >= 2, "expected JP instructions for mul loop");
}

#[test]
fn test_div_compiles() {
    let bytes = compile(
        "fn main() -> u8 {
            let a: u8 = 12;
            let b: u8 = 3;
            a / b
         }",
    );
    assert!(bytes.len() >= 4);
}

#[test]
fn test_mod_compiles() {
    let bytes = compile(
        "fn main() -> u8 {
            let a: u8 = 10;
            let b: u8 = 3;
            a % b
         }",
    );
    assert!(bytes.len() >= 4);
}

#[test]
fn test_mutable_global_read_write() {
    let bytes = compile(
        "let mut score: u8 = 0;
         fn add_score(points: u8) -> () {
            score = score + points;
         }
         fn main() -> () {
            add_score(10);
         }",
    );
    assert!(bytes.len() >= 4);
    // holds FX55 (LdIVx) (the global write)
    let has_fx55 = bytes.chunks(2).any(|c| (c[1] & 0xFF) == 0x55);
    assert!(has_fx55, "expected FX55 instruction for global write");
}

#[test]
fn test_array_index_assign_compiles() {
    let bytes = compile(
        "let mut board: [u8; 4] = [0, 0, 0, 0];
         fn main() -> () {
            board[2] = 42;
         }",
    );
    assert!(bytes.len() >= 4);
    // holds FX1E (AddI) (the index computation)
    let has_fx1e = bytes.chunks(2).any(|c| (c[1] & 0xFF) == 0x1E);
    assert!(has_fx1e, "expected FX1E instruction for index calculation");
}

// ============================================================
// Tests that run the output on the CHIP-8 interpreter
// ============================================================

#[test]
fn test_run_simple_return() {
    assert_eq!(compile_and_run("fn main() -> u8 { 42 }"), 42);
}

#[test]
fn test_run_flat_struct_field_access() {
    assert_eq!(
        compile_and_run(
            "struct Big { a: u8, b: u8, c: u8, d: u8, e: u8 }
             fn get_e(s: Big) -> u8 { s.e }
             fn main() -> u8 {
                get_e(Big { a: 1, b: 3, c: 5, d: 7, e: 9 })
             }"
        ),
        9
    );
}

#[test]
fn test_run_flat_struct_first_field() {
    assert_eq!(
        compile_and_run(
            "struct Pos { x: u8, y: u8 }
             fn get_x(p: Pos) -> u8 { p.x }
             fn main() -> u8 {
                get_x(Pos { x: 42, y: 10 })
             }"
        ),
        42
    );
}

#[test]
fn test_run_issue42_nested_struct_speed() {
    // a scalar field of a nested struct (after the nested struct)
    assert_eq!(
        compile_and_run(
            "struct Pos { x: u8, y: u8 }
             struct GameState { piece: u8, pos: Pos, score: u8, speed: u8 }
             fn get_speed(s: GameState) -> u8 { s.speed }
             fn main() -> u8 {
                get_speed(GameState { piece: 1, pos: Pos { x: 2, y: 3 }, score: 8, speed: 9 })
             }"
        ),
        9
    );
}

#[test]
fn test_run_issue42_nested_struct_pos_x() {
    // a field access into a nested struct
    assert_eq!(
        compile_and_run(
            "struct Pos { x: u8, y: u8 }
             struct GameState { piece: u8, pos: Pos, score: u8, speed: u8 }
             fn get_px(s: GameState) -> u8 { s.pos.x }
             fn main() -> u8 {
                get_px(GameState { piece: 1, pos: Pos { x: 2, y: 3 }, score: 8, speed: 9 })
             }"
        ),
        2
    );
}

#[test]
fn test_run_issue42_nested_struct_pos_y() {
    assert_eq!(
        compile_and_run(
            "struct Pos { x: u8, y: u8 }
             struct GameState { piece: u8, pos: Pos, score: u8, speed: u8 }
             fn get_py(s: GameState) -> u8 { s.pos.y }
             fn main() -> u8 {
                get_py(GameState { piece: 1, pos: Pos { x: 2, y: 3 }, score: 8, speed: 9 })
             }"
        ),
        3
    );
}

#[test]
fn test_run_issue42_nested_struct_score() {
    assert_eq!(
        compile_and_run(
            "struct Pos { x: u8, y: u8 }
             struct GameState { piece: u8, pos: Pos, score: u8, speed: u8 }
             fn get_score(s: GameState) -> u8 { s.score }
             fn main() -> u8 {
                get_score(GameState { piece: 1, pos: Pos { x: 2, y: 3 }, score: 8, speed: 9 })
             }"
        ),
        8
    );
}

#[test]
fn test_run_issue42_nested_struct_piece() {
    assert_eq!(
        compile_and_run(
            "struct Pos { x: u8, y: u8 }
             struct GameState { piece: u8, pos: Pos, score: u8, speed: u8 }
             fn get_piece(s: GameState) -> u8 { s.piece }
             fn main() -> u8 {
                get_piece(GameState { piece: 1, pos: Pos { x: 2, y: 3 }, score: 8, speed: 9 })
             }"
        ),
        1
    );
}

#[test]
fn test_run_issue42_nested_struct_with_let() {
    // a nested struct passed through a let binding
    assert_eq!(
        compile_and_run(
            "struct Pos { x: u8, y: u8 }
             struct GameState { piece: u8, pos: Pos, score: u8, speed: u8 }
             fn get_speed(s: GameState) -> u8 { s.speed }
             fn main() -> u8 {
                let gs: GameState = GameState { piece: 1, pos: Pos { x: 2, y: 3 }, score: 8, speed: 9 };
                get_speed(gs)
             }"
        ),
        9
    );
}

#[test]
fn test_run_issue42_nested_struct_let_and_local() {
    // a let binding together with other locals
    assert_eq!(
        compile_and_run(
            "struct Pos { x: u8, y: u8 }
             struct GameState { piece: u8, pos: Pos, score: u8, speed: u8 }
             fn get_speed(s: GameState) -> u8 { s.speed }
             fn main() -> u8 {
                let x: u8 = 100;
                let gs: GameState = GameState { piece: 1, pos: Pos { x: 2, y: 3 }, score: 8, speed: 9 };
                get_speed(gs)
             }"
        ),
        9
    );
}

#[test]
fn test_run_issue42_multiple_nested_calls() {
    // several field accesses in separate functions
    assert_eq!(
        compile_and_run(
            "struct Pos { x: u8, y: u8 }
             struct GameState { piece: u8, pos: Pos, score: u8, speed: u8 }
             fn get_speed(s: GameState) -> u8 { s.speed }
             fn get_score(s: GameState) -> u8 { s.score }
             fn main() -> u8 {
                let gs: GameState = GameState { piece: 1, pos: Pos { x: 2, y: 3 }, score: 8, speed: 9 };
                let sp: u8 = get_speed(gs);
                let sc: u8 = get_score(gs);
                sp + sc
             }"
        ),
        17
    );
}

#[test]
fn test_run_issue42_deeply_nested() {
    // three levels of nesting
    assert_eq!(
        compile_and_run(
            "struct Inner { val: u8 }
             struct Mid { inner: Inner, tag: u8 }
             struct Outer { mid: Mid, extra: u8 }
             fn get_val(o: Outer) -> u8 { o.mid.inner.val }
             fn get_extra(o: Outer) -> u8 { o.extra }
             fn main() -> u8 {
                let o: Outer = Outer { mid: Mid { inner: Inner { val: 77 }, tag: 88 }, extra: 99 };
                get_val(o) + get_extra(o)
             }"
        ),
        176 // 77 + 99
    );
}

#[test]
fn test_run_issue42_deeply_nested_val_only() {
    // three levels of nesting, reading inner.val only
    assert_eq!(
        compile_and_run(
            "struct Inner { val: u8 }
             struct Mid { inner: Inner, tag: u8 }
             struct Outer { mid: Mid, extra: u8 }
             fn get_val(o: Outer) -> u8 { o.mid.inner.val }
             fn main() -> u8 {
                get_val(Outer { mid: Mid { inner: Inner { val: 77 }, tag: 88 }, extra: 99 })
             }"
        ),
        77
    );
}

#[test]
fn test_run_issue42_deeply_nested_tag() {
    assert_eq!(
        compile_and_run(
            "struct Inner { val: u8 }
             struct Mid { inner: Inner, tag: u8 }
             struct Outer { mid: Mid, extra: u8 }
             fn get_tag(o: Outer) -> u8 { o.mid.tag }
             fn main() -> u8 {
                get_tag(Outer { mid: Mid { inner: Inner { val: 77 }, tag: 88 }, extra: 99 })
             }"
        ),
        88
    );
}

#[test]
fn test_run_issue42_deeply_nested_extra() {
    assert_eq!(
        compile_and_run(
            "struct Inner { val: u8 }
             struct Mid { inner: Inner, tag: u8 }
             struct Outer { mid: Mid, extra: u8 }
             fn get_extra(o: Outer) -> u8 { o.extra }
             fn main() -> u8 {
                get_extra(Outer { mid: Mid { inner: Inner { val: 77 }, tag: 88 }, extra: 99 })
             }"
        ),
        99
    );
}

#[test]
fn test_run_issue42_mid_struct_access() {
    // two levels of nesting: Mid { inner: Inner, tag } directly
    assert_eq!(
        compile_and_run(
            "struct Inner { val: u8 }
             struct Mid { inner: Inner, tag: u8 }
             fn get_tag(m: Mid) -> u8 { m.tag }
             fn main() -> u8 {
                get_tag(Mid { inner: Inner { val: 77 }, tag: 88 })
             }"
        ),
        88
    );
}

// ===== struct field access keeps its values =====

#[test]
fn test_run_issue44_struct_first_field_passed_correctly() {
    // V0 is not clobbered when a struct is passed with no locals:
    // field0 (V0) survives the loads of the following fields
    assert_eq!(
        compile_and_run(
            "struct Big { a: u8, b: u8, c: u8, d: u8, e: u8 }
             fn get_a(s: Big) -> u8 { s.a }
             fn main() -> u8 {
                get_a(Big { a: 42, b: 2, c: 3, d: 4, e: 5 })
             }"
        ),
        42
    );
}

#[test]
fn test_run_issue44_struct_pass_no_local_vars() {
    // with no locals, the first field of a two-field struct is right
    assert_eq!(
        compile_and_run(
            "struct Pair { x: u8, y: u8 }
             fn first(p: Pair) -> u8 { p.x }
             fn main() -> u8 {
                first(Pair { x: 7, y: 99 })
             }"
        ),
        7
    );
}

#[test]
fn test_run_issue44_multiple_calls_with_struct_fields() {
    // several function calls together with struct field accesses
    assert_eq!(
        compile_and_run(
            "struct State { speed: u8, score: u8, level: u8 }
             fn use_score(s: u8) -> u8 { s }
             fn make_state(sp: u8, sc: u8, lv: u8) -> State {
                State { speed: sp, score: sc, level: lv }
             }
             fn on_land(st: State) -> State {
                use_score(st.score);
                let x: u8 = 5;
                make_state(st.speed, st.score + 1, x)
             }
             fn main() -> u8 {
                let s: State = State { speed: 10, score: 20, level: 30 };
                let s2: State = on_land(s);
                s2.speed
             }"
        ),
        10
    );
}

#[test]
fn test_run_issue44_struct_all_fields_after_pass() {
    // every field of the struct is right after the function calls
    assert_eq!(
        compile_and_run(
            "struct Triple { a: u8, b: u8, c: u8 }
             fn sum_fields(t: Triple) -> u8 { t.a + t.b + t.c }
             fn main() -> u8 {
                sum_fields(Triple { a: 10, b: 20, c: 30 })
             }"
        ),
        60
    );
}

// ===== copying a nested struct keeps the registers =====

#[test]
fn test_run_issue46_nested_struct_literal_preserves_registers() {
    // copying the nested struct (Pos) keeps V0/V1
    // a broken copy would give score = 0 (V1 overwritten by Pos.y = 0)
    assert_eq!(
        compile_and_run(
            "struct Pos { x: u8, y: u8 }
             struct GameState { piece: u8, pos: Pos, score: u8, speed: u8 }
             fn make_gs(p: u8, sc: u8, sp: u8) -> GameState {
                GameState { piece: p, pos: Pos { x: 28, y: 0 }, score: sc, speed: sp }
             }
             fn main() -> u8 {
                let gs: GameState = make_gs(1, 6, 15);
                gs.score
             }"
        ),
        6
    );
}

#[test]
fn test_run_issue46_on_land_pattern() {
    // struct fields survive a call of update_score
    assert_eq!(
        compile_and_run(
            "struct Pos { x: u8, y: u8 }
             struct GameState { piece: u8, pos: Pos, score: u8, speed: u8 }
             fn use_val(v: u8) -> u8 { v }
             fn make_gs(p: u8, sc: u8, sp: u8) -> GameState {
                GameState { piece: p, pos: Pos { x: 28, y: 0 }, score: sc, speed: sp }
             }
             fn on_land(state: GameState) -> GameState {
                use_val(state.score);
                let p: u8 = 7;
                make_gs(p, state.score + 1, state.speed)
             }
             fn main() -> u8 {
                let s: GameState = GameState { piece: 1, pos: Pos { x: 2, y: 3 }, score: 5, speed: 15 };
                let r: GameState = on_land(s);
                r.score
             }"
        ),
        6
    );
}

#[test]
fn test_run_issue46_struct_update_syntax_preserves_registers() {
    // struct update syntax (base) keeps the registers
    assert_eq!(
        compile_and_run(
            "struct Pos { x: u8, y: u8 }
             struct GameState { piece: u8, pos: Pos, score: u8, speed: u8 }
             fn update(gs: GameState) -> GameState {
                GameState { ..gs, score: gs.score + 1 }
             }
             fn main() -> u8 {
                let s: GameState = GameState { piece: 1, pos: Pos { x: 2, y: 3 }, score: 10, speed: 20 };
                let r: GameState = update(s);
                r.score
             }"
        ),
        11
    );
}

#[test]
fn test_run_issue46_nested_struct_piece_preserved() {
    // piece (V0) survives the copy of a nested struct
    assert_eq!(
        compile_and_run(
            "struct Pos { x: u8, y: u8 }
             struct GameState { piece: u8, pos: Pos, score: u8, speed: u8 }
             fn make_gs(p: u8, sc: u8, sp: u8) -> GameState {
                GameState { piece: p, pos: Pos { x: 28, y: 0 }, score: sc, speed: sp }
             }
             fn main() -> u8 {
                let gs: GameState = make_gs(42, 6, 15);
                gs.piece
             }"
        ),
        42
    );
}

// ---- leaf functions: caller-save ----

#[test]
fn test_leaf_function_fewer_saves() {
    // calling a leaf function saves fewer registers:
    // fewer FX55/FX65 than for a non-leaf function
    let leaf_bytes = compile(
        "fn add_one(x: u8) -> u8 { x + 1 }
         fn main() -> u8 {
            let a: u8 = 1;
            let b: u8 = 2;
            let c: u8 = 3;
            let d: u8 = 4;
            let e: u8 = 5;
            add_one(a) + b + c + d + e
         }",
    );
    let non_leaf_bytes = compile(
        "fn identity(x: u8) -> u8 { x }
         fn add_one(x: u8) -> u8 { identity(x) + 1 }
         fn main() -> u8 {
            let a: u8 = 1;
            let b: u8 = 2;
            let c: u8 = 3;
            let d: u8 = 4;
            let e: u8 = 5;
            add_one(a) + b + c + d + e
         }",
    );

    // compare the highest register saved by FX55
    // a leaf call saves a smaller range
    let leaf_max_save = leaf_bytes
        .chunks(2)
        .filter(|c| c[1] == 0x55 && c[0] & 0xF0 == 0xF0)
        .map(|c| c[0] & 0x0F)
        .max()
        .unwrap_or(0);
    let non_leaf_max_save = non_leaf_bytes
        .chunks(2)
        .filter(|c| c[1] == 0x55 && c[0] & 0xF0 == 0xF0)
        .map(|c| c[0] & 0x0F)
        .max()
        .unwrap_or(0);
    assert!(
        leaf_max_save < non_leaf_max_save,
        "leaf caller-save should use fewer registers: leaf={}, non_leaf={}",
        leaf_max_save,
        non_leaf_max_save
    );
}

#[test]
fn test_leaf_optimization_correctness() {
    // the leaf function optimisation computes the right result
    assert_eq!(
        compile_and_run(
            "fn add_one(x: u8) -> u8 { x + 1 }
             fn main() -> u8 {
                let a: u8 = 10;
                let b: u8 = 20;
                let c: u8 = add_one(a);
                a + b + c
             }"
        ),
        41 // 10 + 20 + 11 = 41
    );
}

#[test]
fn test_leaf_optimization_multiple_calls() {
    // every variable is kept across several leaf calls
    assert_eq!(
        compile_and_run(
            "fn double(x: u8) -> u8 { x + x }
             fn main() -> u8 {
                let a: u8 = 3;
                let b: u8 = 5;
                let c: u8 = double(a);
                let d: u8 = double(b);
                c + d
             }"
        ),
        16 // 6 + 10 = 16
    );
}

#[test]
fn test_leaf_optimization_with_struct_param() {
    // a leaf function with a struct parameter works
    assert_eq!(
        compile_and_run(
            "struct Pos { x: u8, y: u8 }
             fn sum_pos(p: Pos) -> u8 { p.x + p.y }
             fn main() -> u8 {
                let a: u8 = 100;
                let p: Pos = Pos { x: 10, y: 20 };
                let s: u8 = sum_pos(p);
                s + a
             }"
        ),
        130 // 30 + 100 = 130
    );
}

#[test]
fn test_non_leaf_still_saves_all() {
    // a call of a non-leaf function saves every register
    assert_eq!(
        compile_and_run(
            "fn identity(x: u8) -> u8 { x }
             fn add_via_identity(x: u8) -> u8 { identity(x) + 1 }
             fn main() -> u8 {
                let a: u8 = 10;
                let b: u8 = 20;
                let c: u8 = add_via_identity(a);
                a + b + c
             }"
        ),
        41 // 10 + 20 + 11 = 41
    );
}

// ---- behaviour of the generated code, run on the interpreter above ----

#[test]
fn test_run_match_selects_arm() {
    assert_eq!(
        compile_and_run(
            "fn main() -> u8 {
                let x: u8 = 1;
                match x {
                    0 => 10,
                    1 => 20,
                    2 => 30,
                }
            }"
        ),
        20
    );
}

#[test]
fn test_run_match_last_arm_is_default() {
    assert_eq!(
        compile_and_run(
            "fn main() -> u8 {
                let x: u8 = 9;
                match x {
                    0 => 10,
                    1 => 20,
                    2 => 30,
                }
            }"
        ),
        30
    );
}

#[test]
fn test_run_enum_match() {
    assert_eq!(
        compile_and_run(
            "enum Dir { Up, Down, Left }
             fn main() -> u8 {
                let d: Dir = Dir::Down;
                match d {
                    Dir::Up => 7,
                    Dir::Down => 8,
                    Dir::Left => 9,
                }
             }"
        ),
        8
    );
}

#[test]
fn test_run_mul_div_mod() {
    assert_eq!(
        compile_and_run("fn main() -> u8 { let a: u8 = 3; let b: u8 = 4; a * b }"),
        12
    );
    assert_eq!(
        compile_and_run("fn main() -> u8 { let a: u8 = 12; let b: u8 = 3; a / b }"),
        4
    );
    assert_eq!(
        compile_and_run("fn main() -> u8 { let a: u8 = 10; let b: u8 = 3; a % b }"),
        1
    );
    assert_eq!(
        compile_and_run("fn main() -> u8 { let a: u8 = 17; let b: u8 = 5; a / b + a % b }"),
        5
    );
}

#[test]
fn test_run_division_by_zero() {
    // a zero divisor gives quotient 0 and remainder the dividend
    assert_eq!(
        compile_and_run("fn main() -> u8 { let a: u8 = 7; let b: u8 = 0; a / b }"),
        0
    );
    assert_eq!(
        compile_and_run("fn main() -> u8 { let a: u8 = 7; let b: u8 = 0; a % b }"),
        7
    );
}

#[test]
fn test_run_comparisons() {
    let cases = [
        ("3 < 5", 1),
        ("5 < 3", 0),
        ("3 < 3", 0),
        ("3 <= 3", 0),
        ("2 <= 3", 1),
        ("4 <= 3", 0),
        ("4 > 3", 1),
        ("3 > 3", 0),
        ("3 >= 4", 0),
        ("4 >= 4", 0),
        ("5 >= 4", 1),
        ("4 == 4", 1),
        ("4 == 5", 0),
        ("4 != 5", 1),
        ("4 != 4", 0),
    ];
    for (cond, expected) in cases {
        let src = format!("fn main() -> u8 {{ if {} {{ 1 }} else {{ 0 }} }}", cond);
        assert_eq!(compile_and_run(&src), expected, "condition {}", cond);
    }
}

#[test]
fn test_run_logical_ops() {
    assert_eq!(compile_and_run("fn main() -> bool { true && false }"), 0);
    assert_eq!(compile_and_run("fn main() -> bool { true || false }"), 1);
    assert_eq!(compile_and_run("fn main() -> bool { !false }"), 1);
}

#[test]
fn test_run_enum_and_struct_equality() {
    assert_eq!(
        compile_and_run(
            "enum Dir { Up, Down }
             fn main() -> bool {
                let d: Dir = Dir::Up;
                d == Dir::Down
             }"
        ),
        0
    );
    assert_eq!(
        compile_and_run(
            "struct Pos { x: u8, y: u8 }
             fn main() -> bool {
                let a: Pos = Pos { x: 1, y: 2 };
                let b: Pos = Pos { x: 1, y: 2 };
                a == b
             }"
        ),
        1
    );
    assert_eq!(
        compile_and_run(
            "struct Pos { x: u8, y: u8 }
             fn same_pos(a: Pos, b: Pos) -> bool { a == b }
             fn main() -> bool {
                same_pos(Pos { x: 1, y: 2 }, Pos { x: 1, y: 3 })
             }"
        ),
        0
    );
}

#[test]
fn test_run_mutable_global() {
    assert_eq!(
        compile_and_run(
            "let mut score: u8 = 0;
             fn add_score(points: u8) -> () {
                score = score + points;
             }
             fn main() -> u8 {
                add_score(10);
                add_score(5);
                score
             }"
        ),
        15
    );
}

#[test]
fn test_run_array_read_and_index_assign() {
    assert_eq!(
        compile_and_run(
            "let data: [u8; 4] = [1, 2, 3, 4];
             fn main() -> u8 { data[2] }"
        ),
        3
    );
    assert_eq!(
        compile_and_run(
            "let mut board: [u8; 4] = [0, 0, 0, 0];
             fn main() -> u8 {
                board[2] = 42;
                board[2] + board[1]
             }"
        ),
        42
    );
}

#[test]
fn test_run_loop_with_break() {
    assert_eq!(
        compile_and_run(
            "let mut n: u8 = 0;
             fn main() -> u8 {
                loop {
                    n = n + 1;
                    if n == 5 {
                        break;
                    };
                };
                n
             }"
        ),
        5
    );
}

#[test]
fn test_run_tail_recursion() {
    assert_eq!(
        compile_and_run(
            "fn count(n: u8) -> u8 {
                if n == 0 { 0 } else { count(n - 1) }
             }
             fn main() -> u8 { count(5) }"
        ),
        0
    );
    assert_eq!(
        compile_and_run(
            "fn sum(n: u8, acc: u8) -> u8 {
                if n == 0 { acc } else { sum(n - 1, acc + n) }
             }
             fn main() -> u8 { sum(4, 0) }"
        ),
        10
    );
}

#[test]
fn test_run_non_tail_recursion() {
    assert_eq!(
        compile_and_run(
            "fn add_one(n: u8) -> u8 {
                if n == 0 { 0 } else { add_one(n - 1) + 1 }
             }
             fn main() -> u8 { add_one(3) }"
        ),
        3
    );
}

#[test]
fn test_run_tail_recursion_with_struct_param() {
    assert_eq!(
        compile_and_run(
            "struct Pos { x: u8, y: u8 }
             fn move_right(p: Pos, n: u8) -> u8 {
                if n == 0 {
                   p.x
                } else {
                   move_right(Pos { x: p.x + 1, y: p.y }, n - 1)
                }
             }
             fn main() -> u8 {
                move_right(Pos { x: 0, y: 0 }, 5)
             }"
        ),
        5
    );
    assert_eq!(
        compile_and_run(
            "struct GameState { a: u8, b: u8, c: u8, d: u8, e: u8, f: u8 }
             fn next_state(state: GameState) -> GameState {
                 state
             }
             fn loop_state(state: GameState, n: u8) -> u8 {
                 if n == 0 {
                    state.a
                 } else {
                    let next: GameState = next_state(state);
                    loop_state(next, n - 1)
                 }
             }
             fn main() -> u8 {
                 loop_state(GameState { a: 1, b: 2, c: 3, d: 4, e: 5, f: 6 }, 3)
             }"
        ),
        1
    );
}

#[test]
fn test_run_if_else_chooses_struct() {
    let src = |c: &str| {
        format!(
            "struct Pos {{ x: u8, y: u8 }}
             fn choose(c: bool, a: Pos, b: Pos) -> Pos {{
                if c {{ a }} else {{ b }}
             }}
             fn main() -> u8 {{
                let p: Pos = choose({}, Pos {{ x: 1, y: 2 }}, Pos {{ x: 3, y: 4 }});
                p.x
             }}",
            c
        )
    };
    assert_eq!(compile_and_run(&src("true")), 1);
    assert_eq!(compile_and_run(&src("false")), 3);
}

#[test]
fn test_run_struct_update() {
    assert_eq!(
        compile_and_run(
            "struct Pos { x: u8, y: u8 }
             fn move_x(p: Pos) -> Pos {
                Pos { x: p.x + 1, ..p }
             }
             fn main() -> u8 {
                let p: Pos = Pos { x: 5, y: 10 };
                let q: Pos = move_x(p);
                q.x + q.y
             }"
        ),
        16
    );
}

#[test]
fn test_run_random_enum_in_range() {
    // the interpreter's RND yields 0x42 masked: 2 for these masks
    assert_eq!(
        compile_and_run(
            "enum Piece { I, O, T, S, Z, L, J }
             fn main() -> Piece { random_enum(Piece) }"
        ),
        2
    );
    assert_eq!(
        compile_and_run(
            "enum Dir { Up, Down, Left, Right }
             fn main() -> Dir { random_enum(Dir) }"
        ),
        2
    );
}

#[test]
fn test_random_enum_rejection_for_non_power_of_two() {
    // 5 variants: mask 7, and a retry loop (a JP back to the RND)
    let bytes = compile(
        "enum Five { A, B, C, D, E }
         fn main() -> Five { random_enum(Five) }",
    );
    assert!(bytes.chunks(2).any(|c| (c[0] & 0xF0) == 0xC0 && c[1] == 0x07));
    assert!(bytes.chunks(2).any(|c| (c[0] & 0xF0) == 0xF0 || (c[0] & 0xF0) == 0x80));
}

#[test]
fn test_run_draw_result_returned() {
    assert_eq!(
        compile_and_run(
            "let sprite: sprite(1) = [0b11110000];
             fn check(x: u8, y: u8) -> bool {
                draw(sprite, x, y)
             }
             fn main() -> bool { check(0, 0) }"
        ),
        0
    );
}

#[test]
fn test_run_early_return() {
    let src = |arg: u8| {
        format!(
            "fn f(x: u8) -> u8 {{
                if x == 0 {{
                    return 7;
                }};
                x
             }}
             fn main() -> u8 {{ f({}) }}",
            arg
        )
    };
    assert_eq!(compile_and_run(&src(0)), 7);
    assert_eq!(compile_and_run(&src(3)), 3);
}

#[test]
fn test_data_section_is_the_suffix() {
    let bytes = compile(
        "let s: sprite(2) = [0b11110000, 0x0F];
         let g: u8 = 7;
         fn main() -> () { }",
    );
    assert_eq!(&bytes[bytes.len() - 3..], &[0xF0, 0x0F, 7]);
    // the code before it has even length
    assert_eq!((bytes.len() - 3) % 2, 0);
}

#[test]
fn constant_main_halts_with_its_value() {
    // sums and differences wrap modulo 256; booleans are 0 and 1
    assert_eq!(compile_and_run("fn main() -> u8 { 250 + 10 }"), 4);
    assert_eq!(compile_and_run("fn main() -> u8 { 3 - 5 }"), 254);
    assert_eq!(compile_and_run("fn main() -> u8 { -5 }"), 251);
    assert_eq!(compile_and_run("fn main() -> u8 { (1 + 2) - (3 - 10) }"), 10);
    assert_eq!(compile_and_run("fn main() -> bool { !true || false }"), 0);
    assert_eq!(compile_and_run("fn main() -> bool { true && !false }"), 1);
    assert_eq!(compile_and_run("fn main() -> u8 { 300 }"), 44);
}

#[test]
fn register_main_halts_with_its_value() {
    assert_eq!(
        compile_and_run("fn main() -> u8 { let x: u8 = 3; let y: u8 = x + 4; y - x }"),
        4
    );
    assert_eq!(compile_and_run("fn main() -> u8 { let a: u8 = 200; a + a }"), 144);
    assert_eq!(
        compile_and_run("fn main() -> bool { let t: bool = true; !t || t }"),
        1
    );
    assert_eq!(
        compile_and_run("fn main() -> u8 { let x: u8 = 7; { let x: u8 = 1; x } + x }"),
        8
    );
}

#[test]
fn comparisons_in_main_halt_with_their_value() {
    assert_eq!(compile_and_run("fn main() -> bool { let a: u8 = 3; a < 5 && a != 2 }"), 1);
    assert_eq!(compile_and_run("fn main() -> bool { 7 == 7 }"), 1);
    assert_eq!(compile_and_run("fn main() -> bool { 7 != 7 }"), 0);
    assert_eq!(compile_and_run("fn main() -> bool { 9 > 200 }"), 0);
    assert_eq!(compile_and_run("fn main() -> bool { 200 >= 200 }"), 0);
    assert_eq!(compile_and_run("fn main() -> bool { 201 >= 200 }"), 1);
    assert_eq!(compile_and_run("fn main() -> bool { 4 <= 3 }"), 0);
    assert_eq!(
        compile_and_run("fn main() -> bool { let x: u8 = 10; let y: u8 = x - 11; y > x }"),
        1
    );
}

#[test]
fn branches_in_main_halt_with_their_value() {
    assert_eq!(
        compile_and_run("fn main() -> u8 { let x: u8 = 3; if x > 2 { 10 } else { 20 } }"),
        10
    );
    assert_eq!(
        compile_and_run("fn main() -> u8 { let x: u8 = 1; if x > 2 { 10 } else { 20 } }"),
        20
    );
    assert_eq!(
        compile_and_run(
            "fn main() -> u8 { let x: u8 = 5; if x < 3 { 1 } else if x < 6 { let y: u8 = x + x; y } else { 3 } }"
        ),
        10
    );
    assert_eq!(
        compile_and_run("fn main() -> u8 { let x: u8 = 4; let y: u8 = if x == 4 { x } else { 0 }; y + 1 }"),
        5
    );
}

#[test]
fn matches_in_main_halt_with_their_value() {
    let src = |x: u8| {
        format!(
            "fn main() -> u8 {{ let x: u8 = {}; match x {{ 0 => 10, 1 => {{ let y: u8 = x + 19; y }}, 2 => 30, }} }}",
            x
        )
    };
    assert_eq!(compile_and_run(&src(0)), 10);
    assert_eq!(compile_and_run(&src(1)), 20);
    assert_eq!(compile_and_run(&src(2)), 30);
    // the last arm is taken whenever no earlier pattern is the value
    assert_eq!(compile_and_run(&src(7)), 30);
    // patterns compare in 8 bits
    assert_eq!(
        compile_and_run("fn main() -> u8 { match 4 { 260 => 1, 4 => 2, 5 => 3, } }"),
        1
    );
}
