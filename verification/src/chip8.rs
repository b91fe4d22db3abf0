use vstd::prelude::*;

verus! {

/// A register that code generation may assign to locals and temporaries: V0-VE (index 0-14).
///
/// VF is the CHIP-8 flag register and is never handed out to variables.
#[derive(Debug, Clone, Copy, PartialEq, Eq, Hash, Structural)]
pub struct UserRegister(u8);

impl UserRegister {
    #[verifier::type_invariant]
    spec fn wf(self) -> bool {
        self.0 <= 14
    }

    /// The register number.
    pub closed spec fn idx(self) -> u8 {
        self.0
    }

    pub fn new(index: u8) -> (r: Self)
        requires
            index <= 14,
        ensures
            r.idx() == index,
    {
        UserRegister(index)
    }

    pub fn index(self) -> (r: u8)
        ensures
            r == self.idx(),
            r <= 14,
    {
        proof {
            use_type_invariant(self);
        }
        self.0
    }
}

/// A CHIP-8 general purpose register (V0-VF).
///
/// V0-VE may be assigned by the user; VF is the flag register.
#[derive(Debug, Clone, Copy, PartialEq, Eq, Hash, Structural)]
pub enum Register {
    User(UserRegister),
    Flag,
}

impl Register {
    pub const VF: Self = Self::Flag;

    /// V0, the first user register (also where results are returned).
    pub fn v0() -> (r: Self)
        ensures
            r is User,
            r.idx() == 0,
    {
        Self::User(UserRegister(0))
    }

    /// The register number (0-15).
    pub open spec fn idx(self) -> u8 {
        match self {
            Register::User(u) => u.idx(),
            Register::Flag => 15,
        }
    }

    pub fn index(self) -> (r: u8)
        ensures
            r == self.idx(),
            r <= 15,
    {
        match self {
            Self::User(u) => u.index(),
            Self::Flag => 0x0F,
        }
    }
}

impl From<UserRegister> for Register {
    fn from(ur: UserRegister) -> (r: Self) {
        Self::User(ur)
    }
}

impl vstd::std_specs::convert::FromSpecImpl<UserRegister> for Register {
    open spec fn obeys_from_spec() -> bool {
        true
    }

    open spec fn from_spec(v: UserRegister) -> Self {
        Register::User(v)
    }
}

/// A 12-bit CHIP-8 memory address (0x000..=0xFFF).
///
/// CHIP-8 has a 4KB address space and user programs are loaded at 0x200.
#[derive(Debug, Clone, Copy, PartialEq, Eq, Hash, Structural)]
pub struct Addr(u16);

impl Addr {
    /// 0x200, where user programs are loaded.
    pub fn program_start() -> (r: Self)
        ensures
            r.value() == 0x200,
    {
        Self(0x200)
    }

    #[verifier::type_invariant]
    spec fn wf(self) -> bool {
        self.0 <= 0xFFF
    }

    /// The raw 12-bit value.
    pub closed spec fn value(self) -> u16 {
        self.0
    }

    pub fn new(raw: u16) -> (r: Self)
        requires
            raw <= 0xFFF,
        ensures
            r.value() == raw,
    {
        Self(raw)
    }

    pub fn raw(self) -> (r: u16)
        ensures
            r == self.value(),
            r <= 0xFFF,
    {
        proof {
            use_type_invariant(self);
        }
        self.0
    }
}

/// A byte offset into the generated bytecode.
///
/// Records where an instruction has to be rewritten later (forward references, `break`).
#[derive(Debug, Clone, Copy, PartialEq, Eq, Structural)]
pub struct ByteOffset(pub usize);

/// The height of a sprite (1-15 pixel rows).
///
/// CHIP-8 sprites are 8 pixels wide; every row is one byte, so the height is the byte count.
#[derive(Debug, Clone, Copy, PartialEq, Eq, Structural)]
pub struct SpriteHeight(u8);

impl SpriteHeight {
    #[verifier::type_invariant]
    spec fn wf(self) -> bool {
        1 <= self.0 <= 15
    }

    /// The number of rows.
    pub closed spec fn rows(self) -> u8 {
        self.0
    }

    pub fn new(n: u8) -> (r: Self)
        requires
            1 <= n <= 15,
        ensures
            r.rows() == n,
    {
        Self(n)
    }

    pub fn value(self) -> (r: u8)
        ensures
            r == self.rows(),
            1 <= r <= 15,
    {
        proof {
            use_type_invariant(self);
        }
        self.0
    }
}

/// The CHIP-8 instruction set.
///
/// Every variant is one CHIP-8 instruction together with its operands.
/// `encode()` turns it into its 2-byte big-endian form.
#[derive(Debug, Clone, Copy, PartialEq, Eq)]
pub enum Opcode {
    /// 00E0 - clear the screen
    Cls,
    /// 00EE - return from a subroutine
    Ret,
    /// 1NNN - jump to an address
    Jp(Addr),
    /// 2NNN - call a subroutine
    Call(Addr),
    /// 3XKK - skip the next instruction if Vx == kk
    SeImm(Register, u8),
    /// 4XKK - skip the next instruction if Vx != kk
    SneImm(Register, u8),
    /// 5XY0 - skip the next instruction if Vx == Vy
    SeReg(Register, Register),
    /// 6XKK - load an immediate into Vx
    LdImm(Register, u8),
    /// 7XKK - add an immediate to Vx (no carry)
    AddImm(Register, u8),
    /// 8XY0 - Vx = Vy
    LdReg(Register, Register),
    /// 8XY1 - Vx |= Vy
    Or(Register, Register),
    /// 8XY2 - Vx &= Vy
    And(Register, Register),
    /// 8XY3 - Vx ^= Vy
    Xor(Register, Register),
    /// 8XY4 - Vx += Vy (VF = carry)
    Add(Register, Register),
    /// 8XY5 - Vx -= Vy (VF = NOT borrow)
    Sub(Register, Register),
    /// 8XY7 - Vx = Vy - Vx (VF = NOT borrow)
    Subn(Register, Register),
    /// 9XY0 - skip the next instruction if Vx != Vy
    SneReg(Register, Register),
    /// ANNN - set I to an address
    LdI(Addr),
    /// CXKK - Vx = random AND kk
    Rnd(Register, u8),
    /// DXYN - draw a sprite of height N at (Vx, Vy)
    Drw(Register, Register, SpriteHeight),
    /// EX9E - skip the next instruction if key Vx is pressed
    Skp(Register),
    /// EXA1 - skip the next instruction if key Vx is not pressed
    Sknp(Register),
    /// FX07 - Vx = delay timer
    LdVxDt(Register),
    /// FX0A - wait for a key press and store it in Vx
    LdVxK(Register),
    /// FX15 - delay timer = Vx
    LdDtVx(Register),
    /// FX18 - sound timer = Vx
    LdStVx(Register),
    /// FX1E - I += Vx
    AddI(Register),
    /// FX29 - I = address of the font sprite for digit Vx
    LdFVx(Register),
    /// FX33 - store the BCD form of Vx at I, I+1, I+2
    LdBVx(Register),
    /// FX65 - read V0..Vx from memory at I
    LdVxI(Register),
    /// FX55 - write V0..Vx to memory at I
    LdIVx(Register),
    /// 8XY6 - Vx = Vy >> 1, VF = LSB
    Shr(Register, Register),
    /// 8XYE - Vx = Vy << 1, VF = MSB
    Shl(Register, Register),
    /// BNNN - PC = V0 + NNN
    JpV0(Addr),
}

/// The 16-bit instruction word `op NNN`.
pub open spec fn word_nnn(op: int, a: Addr) -> int {
    op * 0x1000 + a.value()
}

/// The 16-bit instruction word `op X KK`.
pub open spec fn word_xkk(op: int, x: Register, kk: int) -> int {
    op * 0x1000 + x.idx() * 0x100 + kk
}

/// The 16-bit instruction word `op X Y N`.
pub open spec fn word_xyn(op: int, x: Register, y: Register, n: int) -> int {
    op * 0x1000 + x.idx() * 0x100 + y.idx() * 0x10 + n
}

impl Opcode {
    /// The 16-bit instruction word of this opcode, as the CHIP-8 reference writes it.
    pub open spec fn word(self) -> int {
        match self {
            Opcode::Cls => 0x00E0,
            Opcode::Ret => 0x00EE,
            Opcode::Jp(a) => word_nnn(1, a),
            Opcode::Call(a) => word_nnn(2, a),
            Opcode::SeImm(x, kk) => word_xkk(3, x, kk as int),
            Opcode::SneImm(x, kk) => word_xkk(4, x, kk as int),
            Opcode::SeReg(x, y) => word_xyn(5, x, y, 0),
            Opcode::LdImm(x, kk) => word_xkk(6, x, kk as int),
            Opcode::AddImm(x, kk) => word_xkk(7, x, kk as int),
            Opcode::LdReg(x, y) => word_xyn(8, x, y, 0),
            Opcode::Or(x, y) => word_xyn(8, x, y, 1),
            Opcode::And(x, y) => word_xyn(8, x, y, 2),
            Opcode::Xor(x, y) => word_xyn(8, x, y, 3),
            Opcode::Add(x, y) => word_xyn(8, x, y, 4),
            Opcode::Sub(x, y) => word_xyn(8, x, y, 5),
            Opcode::Subn(x, y) => word_xyn(8, x, y, 7),
            Opcode::SneReg(x, y) => word_xyn(9, x, y, 0),
            Opcode::LdI(a) => word_nnn(0xA, a),
            Opcode::Rnd(x, kk) => word_xkk(0xC, x, kk as int),
            Opcode::Drw(x, y, n) => word_xyn(0xD, x, y, n.rows() as int),
            Opcode::Skp(x) => word_xkk(0xE, x, 0x9E),
            Opcode::Sknp(x) => word_xkk(0xE, x, 0xA1),
            Opcode::LdVxDt(x) => word_xkk(0xF, x, 0x07),
            Opcode::LdVxK(x) => word_xkk(0xF, x, 0x0A),
            Opcode::LdDtVx(x) => word_xkk(0xF, x, 0x15),
            Opcode::LdStVx(x) => word_xkk(0xF, x, 0x18),
            Opcode::AddI(x) => word_xkk(0xF, x, 0x1E),
            Opcode::LdFVx(x) => word_xkk(0xF, x, 0x29),
            Opcode::LdBVx(x) => word_xkk(0xF, x, 0x33),
            Opcode::LdVxI(x) => word_xkk(0xF, x, 0x65),
            Opcode::LdIVx(x) => word_xkk(0xF, x, 0x55),
            Opcode::Shr(x, y) => word_xyn(8, x, y, 6),
            Opcode::Shl(x, y) => word_xyn(8, x, y, 0xE),
            Opcode::JpV0(a) => word_nnn(0xB, a),
        }
    }

    /// Encodes the instruction as 2 bytes, big-endian.
    pub fn encode(self) -> (r: [u8; 2])
        ensures
            r[0] as int * 256 + r[1] as int == self.word(),
    {
        match self {
            Opcode::Cls => [0x00, 0xE0],
            Opcode::Ret => [0x00, 0xEE],
            Opcode::Jp(addr) => pack_nnn(1, addr),
            Opcode::Call(addr) => pack_nnn(2, addr),
            Opcode::SeImm(vx, kk) => pack_xkk(3, vx, kk),
            Opcode::SneImm(vx, kk) => pack_xkk(4, vx, kk),
            Opcode::SeReg(vx, vy) => pack_xyn(5, vx, vy, 0),
            Opcode::LdImm(vx, kk) => pack_xkk(6, vx, kk),
            Opcode::AddImm(vx, kk) => pack_xkk(7, vx, kk),
            Opcode::LdReg(vx, vy) => pack_xyn(8, vx, vy, 0),
            Opcode::Or(vx, vy) => pack_xyn(8, vx, vy, 1),
            Opcode::And(vx, vy) => pack_xyn(8, vx, vy, 2),
            Opcode::Xor(vx, vy) => pack_xyn(8, vx, vy, 3),
            Opcode::Add(vx, vy) => pack_xyn(8, vx, vy, 4),
            Opcode::Sub(vx, vy) => pack_xyn(8, vx, vy, 5),
            Opcode::Subn(vx, vy) => pack_xyn(8, vx, vy, 7),
            Opcode::SneReg(vx, vy) => pack_xyn(9, vx, vy, 0),
            Opcode::LdI(addr) => pack_nnn(0xA, addr),
            Opcode::Rnd(vx, kk) => pack_xkk(0xC, vx, kk),
            Opcode::Drw(vx, vy, n) => pack_xyn(0xD, vx, vy, n.value()),
            Opcode::Skp(vx) => pack_xkk(0xE, vx, 0x9E),
            Opcode::Sknp(vx) => pack_xkk(0xE, vx, 0xA1),
            Opcode::LdVxDt(vx) => pack_xkk(0xF, vx, 0x07),
            Opcode::LdVxK(vx) => pack_xkk(0xF, vx, 0x0A),
            Opcode::LdDtVx(vx) => pack_xkk(0xF, vx, 0x15),
            Opcode::LdStVx(vx) => pack_xkk(0xF, vx, 0x18),
            Opcode::AddI(vx) => pack_xkk(0xF, vx, 0x1E),
            Opcode::LdFVx(vx) => pack_xkk(0xF, vx, 0x29),
            Opcode::LdBVx(vx) => pack_xkk(0xF, vx, 0x33),
            Opcode::LdVxI(vx) => pack_xkk(0xF, vx, 0x65),
            Opcode::LdIVx(vx) => pack_xkk(0xF, vx, 0x55),
            Opcode::Shr(vx, vy) => pack_xyn(8, vx, vy, 6),
            Opcode::Shl(vx, vy) => pack_xyn(8, vx, vy, 0xE),
            Opcode::JpV0(addr) => pack_nnn(0xB, addr),
        }
    }
}

/// Packs `op NNN` into two bytes.
fn pack_nnn(op: u8, addr: Addr) -> (r: [u8; 2])
    requires
        op <= 15,
    ensures
        r[0] as int * 256 + r[1] as int == word_nnn(op as int, addr),
{
    let nnn = addr.raw();
    let hi: u8 = (op << 4u8) | (((nnn >> 8u16) as u8) & 0x0Fu8);
    let lo: u8 = (nnn & 0xFFu16) as u8;
    assert(hi as int * 256 + lo as int == op as int * 0x1000 + nnn as int) by (bit_vector)
        requires
            op <= 15,
            nnn <= 0xFFF,
            hi == (op << 4u8) | (((nnn >> 8u16) as u8) & 0x0Fu8),
            lo == (nnn & 0xFFu16) as u8,
    ;
    [hi, lo]
}

/// Packs `op X KK` into two bytes.
fn pack_xkk(op: u8, x: Register, kk: u8) -> (r: [u8; 2])
    requires
        op <= 15,
    ensures
        r[0] as int * 256 + r[1] as int == word_xkk(op as int, x, kk as int),
{
    let xi = x.index();
    let hi: u8 = (op << 4u8) | xi;
    assert(hi == op * 16 + xi) by (bit_vector)
        requires
            op <= 15,
            xi <= 15,
            hi == (op << 4u8) | xi,
    ;
    [hi, kk]
}

/// Packs `op X Y N` into two bytes.
fn pack_xyn(op: u8, x: Register, y: Register, n: u8) -> (r: [u8; 2])
    requires
        op <= 15,
        n <= 15,
    ensures
        r[0] as int * 256 + r[1] as int == word_xyn(op as int, x, y, n as int),
{
    let xi = x.index();
    let yi = y.index();
    let hi: u8 = (op << 4u8) | xi;
    let lo: u8 = (yi << 4u8) | n;
    assert(hi == op * 16 + xi && lo == yi * 16 + n) by (bit_vector)
        requires
            op <= 15,
            xi <= 15,
            yi <= 15,
            n <= 15,
            hi == (op << 4u8) | xi,
            lo == (yi << 4u8) | n,
    ;
    [hi, lo]
}

} // verus!
