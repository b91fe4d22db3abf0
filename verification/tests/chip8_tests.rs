use lib::chip8::{Addr, Opcode, Register, SpriteHeight, UserRegister};

fn vx(n: u8) -> Register {
    UserRegister::new(n).into()
}

#[test]
fn test_cls() {
    assert_eq!(Opcode::Cls.encode(), [0x00, 0xE0]);
}

#[test]
fn test_ret() {
    assert_eq!(Opcode::Ret.encode(), [0x00, 0xEE]);
}

#[test]
fn test_jp() {
    assert_eq!(Opcode::Jp(Addr::new(0x200)).encode(), [0x12, 0x00]);
    assert_eq!(Opcode::Jp(Addr::new(0xFFF)).encode(), [0x1F, 0xFF]);
}

#[test]
fn test_call() {
    assert_eq!(Opcode::Call(Addr::new(0x200)).encode(), [0x22, 0x00]);
}

#[test]
fn test_se_imm() {
    assert_eq!(Opcode::SeImm(vx(3), 0x42).encode(), [0x33, 0x42]);
}

#[test]
fn test_sne_imm() {
    assert_eq!(Opcode::SneImm(vx(5), 0x00).encode(), [0x45, 0x00]);
}

#[test]
fn test_se_reg() {
    assert_eq!(Opcode::SeReg(vx(1), vx(2)).encode(), [0x51, 0x20]);
}

#[test]
fn test_ld_imm() {
    assert_eq!(Opcode::LdImm(Register::v0(), 0xFF).encode(), [0x60, 0xFF]);
}

#[test]
fn test_add_imm() {
    assert_eq!(Opcode::AddImm(vx(7), 0x01).encode(), [0x77, 0x01]);
}

#[test]
fn test_alu_ops() {
    let v1 = vx(1);
    let v2 = vx(2);
    assert_eq!(Opcode::LdReg(v1, v2).encode(), [0x81, 0x20]);
    assert_eq!(Opcode::Or(v1, v2).encode(), [0x81, 0x21]);
    assert_eq!(Opcode::And(v1, v2).encode(), [0x81, 0x22]);
    assert_eq!(Opcode::Xor(v1, v2).encode(), [0x81, 0x23]);
    assert_eq!(Opcode::Add(v1, v2).encode(), [0x81, 0x24]);
    assert_eq!(Opcode::Sub(v1, v2).encode(), [0x81, 0x25]);
    assert_eq!(Opcode::Subn(v1, v2).encode(), [0x81, 0x27]);
}

#[test]
fn test_sne_reg() {
    assert_eq!(Opcode::SneReg(vx(0xA), vx(0xB)).encode(), [0x9A, 0xB0]);
}

#[test]
fn test_ld_i() {
    assert_eq!(Opcode::LdI(Addr::new(0x300)).encode(), [0xA3, 0x00]);
}

#[test]
fn test_rnd() {
    assert_eq!(Opcode::Rnd(vx(4), 0xFF).encode(), [0xC4, 0xFF]);
}

#[test]
fn test_drw() {
    assert_eq!(
        Opcode::Drw(vx(1), vx(2), SpriteHeight::new(5)).encode(),
        [0xD1, 0x25]
    );
}

#[test]
fn test_key_ops() {
    let v3 = vx(3);
    assert_eq!(Opcode::Skp(v3).encode(), [0xE3, 0x9E]);
    assert_eq!(Opcode::Sknp(v3).encode(), [0xE3, 0xA1]);
}

#[test]
fn test_fx_ops() {
    let v5 = vx(5);
    assert_eq!(Opcode::LdVxDt(v5).encode(), [0xF5, 0x07]);
    assert_eq!(Opcode::LdVxK(v5).encode(), [0xF5, 0x0A]);
    assert_eq!(Opcode::LdDtVx(v5).encode(), [0xF5, 0x15]);
    assert_eq!(Opcode::LdStVx(v5).encode(), [0xF5, 0x18]);
    assert_eq!(Opcode::AddI(v5).encode(), [0xF5, 0x1E]);
    assert_eq!(Opcode::LdFVx(v5).encode(), [0xF5, 0x29]);
    assert_eq!(Opcode::LdBVx(v5).encode(), [0xF5, 0x33]);
    assert_eq!(Opcode::LdVxI(v5).encode(), [0xF5, 0x65]);
}

#[test]
fn test_ld_i_vx() {
    assert_eq!(Opcode::LdIVx(vx(5)).encode(), [0xF5, 0x55]);
}

#[test]
fn test_shr() {
    assert_eq!(Opcode::Shr(vx(1), vx(2)).encode(), [0x81, 0x26]);
}

#[test]
fn test_shl() {
    assert_eq!(Opcode::Shl(vx(1), vx(2)).encode(), [0x81, 0x2E]);
}

#[test]
fn test_jp_v0() {
    assert_eq!(Opcode::JpV0(Addr::new(0x300)).encode(), [0xB3, 0x00]);
}

#[test]
fn test_vf_register() {
    assert_eq!(Register::VF.index(), 0x0F);
    assert_eq!(Opcode::SeImm(Register::VF, 0x01).encode(), [0x3F, 0x01]);
}
