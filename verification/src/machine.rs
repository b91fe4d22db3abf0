use vstd::prelude::*;

verus! {

/// The 16-bit word that starts at byte `k`, big-endian.
pub open spec fn word_at(b: Seq<u8>, k: int) -> int {
    b[k] as int * 256 + b[k + 1] as int
}

/// The instruction group of a word: its top nibble.
pub open spec fn group(w: int) -> int {
    w / 0x1000
}

/// The `X` operand of a word.
pub open spec fn nib_x(w: int) -> int {
    (w / 0x100) % 0x10
}

/// The `Y` operand of a word.
pub open spec fn nib_y(w: int) -> int {
    (w / 0x10) % 0x10
}

/// What an instruction word that computes on registers alone does to V0-VF: `6XKK`,
/// `7XKK` and `8XY0`-`8XY5`. Any other word is outside this model (`None`).
///
/// `8XY4` and `8XY5` set VF to the carry and to NOT borrow, before Vx is written.
pub open spec fn exec_word(v: Seq<u8>, w: int) -> Option<Seq<u8>> {
    let x = nib_x(w);
    let y = nib_y(w);
    let kk = w % 0x100;
    let n = w % 0x10;
    let op = group(w);
    if !(0 <= w < 0x10000) {
        None
    } else if op == 6 {
        Some(v.update(x, kk as u8))
    } else if op == 7 {
        Some(v.update(x, ((v[x] + kk) % 256) as u8))
    } else if op == 8 && n == 0 {
        Some(v.update(x, v[y]))
    } else if op == 8 && n == 1 {
        Some(v.update(x, v[x] | v[y]))
    } else if op == 8 && n == 2 {
        Some(v.update(x, v[x] & v[y]))
    } else if op == 8 && n == 3 {
        Some(v.update(x, v[x] ^ v[y]))
    } else if op == 8 && n == 4 {
        let carry: u8 = if v[x] + v[y] > 255 { 1 } else { 0 };
        Some(v.update(15, carry).update(x, ((v[x] + v[y]) % 256) as u8))
    } else if op == 8 && n == 5 {
        let not_borrow: u8 = if v[x] >= v[y] { 1 } else { 0 };
        Some(v.update(15, not_borrow).update(x, ((v[x] - v[y]) % 256) as u8))
    } else {
        None
    }
}

/// Whether a skip instruction (`3XKK`, `4XKK`, `5XY0`, `9XY0`) skips the next word.
pub open spec fn skips(v: Seq<u8>, w: int) -> bool {
    let x = nib_x(w);
    let y = nib_y(w);
    let kk = w % 0x100;
    if group(w) == 3 {
        v[x] == kk
    } else if group(w) == 4 {
        v[x] != kk
    } else if group(w) == 5 {
        v[x] == v[y]
    } else {
        v[x] != v[y]
    }
}

/// Whether a word is a skip instruction.
pub open spec fn is_skip(w: int) -> bool {
    0 <= w < 0x10000 && (group(w) == 3 || group(w) == 4 || ((group(w) == 5 || group(w) == 9) && w
        % 0x10 == 0))
}

/// One step of the machine with the ROM loaded at 0x200 and the program counter at byte
/// `pc` of the ROM: a jump (`1NNN`) moves the counter, a skip instruction moves it by
/// two words or one, a modelled register instruction updates the registers and moves on
/// to the next word. Other instructions are outside the model (`None`).
pub open spec fn step(rom: Seq<u8>, pc: int, v: Seq<u8>) -> Option<(int, Seq<u8>)> {
    let w = word_at(rom, pc);
    if !(0 <= pc && pc + 1 < rom.len()) {
        None
    } else if group(w) == 1 {
        Some((w % 0x1000 - 0x200, v))
    } else if is_skip(w) {
        Some((if skips(v, w) { pc + 4 } else { pc + 2 }, v))
    } else {
        match exec_word(v, w) {
            Some(u) => Some((pc + 2, u)),
            None => None,
        }
    }
}

/// The program counter and registers after `n` steps.
pub open spec fn steps(rom: Seq<u8>, pc: int, v: Seq<u8>, n: nat) -> Option<(int, Seq<u8>)>
    decreases n,
{
    if n == 0 {
        Some((pc, v))
    } else {
        match step(rom, pc, v) {
            Some((p, u)) => steps(rom, p, u, (n - 1) as nat),
            None => None,
        }
    }
}

/// Whether a word is a key test: `EX9E` skips the next word when the key whose number is
/// in Vx is held down, `EXA1` when it is not.
pub open spec fn is_key_test(w: int) -> bool {
    0 <= w < 0x10000 && group(w) == 0xE && (w % 0x100 == 0x9E || w % 0x100 == 0xA1)
}

/// One step of the machine with a keypad, where `held(k)` tells whether key `k` is held
/// down: key tests skip as the keypad says, any other word steps as [`step`] does.
pub open spec fn step_keys(rom: Seq<u8>, pc: int, v: Seq<u8>, held: spec_fn(u8) -> bool) -> Option<
    (int, Seq<u8>),
> {
    let w = word_at(rom, pc);
    if 0 <= pc && pc + 1 < rom.len() && is_key_test(w) {
        let down = held(v[nib_x(w)]);
        let skip = if w % 0x100 == 0x9E {
            down
        } else {
            !down
        };
        Some((if skip { pc + 4 } else { pc + 2 }, v))
    } else {
        step(rom, pc, v)
    }
}

/// The program counter and registers after `n` steps with a keypad.
pub open spec fn steps_keys(rom: Seq<u8>, pc: int, v: Seq<u8>, held: spec_fn(u8) -> bool, n: nat) -> Option<
    (int, Seq<u8>),
>
    decreases n,
{
    if n == 0 {
        Some((pc, v))
    } else {
        match step_keys(rom, pc, v, held) {
            Some((p, u)) => steps_keys(rom, p, u, held, (n - 1) as nat),
            None => None,
        }
    }
}

/// The registers when the code running from byte `pc` first reaches byte `to`, provided
/// it only ever moves forward and stays below `to` until then; `None` otherwise.
#[verifier::opaque]
pub open spec fn run_fwd(v: Seq<u8>, rom: Seq<u8>, pc: int, to: int) -> Option<Seq<u8>>
    decreases to - pc,
{
    if pc == to {
        Some(v)
    } else if !(pc + 1 < to) {
        None
    } else {
        match step(rom, pc, v) {
            Some((p, u)) => if pc < p <= to {
                run_fwd(u, rom, p, to)
            } else {
                None
            },
            None => None,
        }
    }
}

/// How many steps such a forward run takes.
pub open spec fn fwd_len(v: Seq<u8>, rom: Seq<u8>, pc: int, to: int) -> nat
    decreases to - pc,
{
    if pc == to || !(pc + 1 < to) {
        0
    } else {
        match step(rom, pc, v) {
            Some((p, u)) => if pc < p <= to {
                1 + fwd_len(u, rom, p, to)
            } else {
                0
            },
            None => 0,
        }
    }
}

/// Started at 0x200 with registers `v`, the program reaches a jump to itself (where it
/// halts) with `val` in V0.
pub open spec fn halts_with_v0(rom: Seq<u8>, v: Seq<u8>, val: u8) -> bool {
    exists|n: nat|
        #[trigger] steps(rom, 0, v, n) matches Some((p, u)) && 0 <= p && p + 1 < rom.len()
            && word_at(rom, p) == 0x1200 + p && u[0] == val
}

/// Running from `a` to `a` does nothing.
pub proof fn lemma_fwd_empty(v: Seq<u8>, rom: Seq<u8>, a: int)
    ensures
        run_fwd(v, rom, a, a) == Some(v),
{
    reveal(run_fwd);
}

/// A forward run takes its first step.
pub proof fn lemma_fwd_step(v: Seq<u8>, rom: Seq<u8>, at: int, to: int)
    requires
        at + 1 < to,
        step(rom, at, v) matches Some((p, _)) && at < p <= to,
    ensures
        run_fwd(v, rom, at, to) == match step(rom, at, v) {
            Some((p, u)) => run_fwd(u, rom, p, to),
            None => None,
        },
{
    reveal(run_fwd);
}

/// A forward run to `m`, then one from `m` to `c`, is a forward run to `c`.
pub proof fn lemma_fwd_seq(v: Seq<u8>, rom: Seq<u8>, a: int, m: int, c: int)
    requires
        a <= m <= c,
        run_fwd(v, rom, a, m) is Some,
    ensures
        run_fwd(v, rom, a, c) == run_fwd(run_fwd(v, rom, a, m)->0, rom, m, c),
    decreases m - a,
{
    reveal(run_fwd);
    if a < m {
        let (p, u) = step(rom, a, v)->0;
        lemma_fwd_seq(u, rom, p, m, c);
    }
}

/// A forward run reads only the bytes below where it ends, from where it starts.
pub proof fn lemma_fwd_frame(v: Seq<u8>, rom: Seq<u8>, other: Seq<u8>, a: int, c: int)
    requires
        0 <= a,
        c <= rom.len(),
        c <= other.len(),
        forall|i: int| a <= i < c ==> rom[i] == other[i],
    ensures
        run_fwd(v, rom, a, c) == run_fwd(v, other, a, c),
    decreases c - a,
{
    reveal(run_fwd);
    if a != c && a + 1 < c {
        assert(word_at(rom, a) == word_at(other, a));
        assert(step(rom, a, v) == step(other, a, v));
        if let Some((p, u)) = step(rom, a, v) {
            if a < p <= c {
                lemma_fwd_frame(u, rom, other, p, c);
            }
        }
    }
}

/// A register instruction runs forward to the next word.
pub proof fn lemma_fwd_one(v: Seq<u8>, rom: Seq<u8>, at: int)
    requires
        0 <= at,
        at + 1 < rom.len(),
        exec_word(v, word_at(rom, at)) is Some,
        group(word_at(rom, at)) != 1,
        !is_skip(word_at(rom, at)),
    ensures
        run_fwd(v, rom, at, at + 2) == exec_word(v, word_at(rom, at)),
{
    reveal(run_fwd);
    let u = exec_word(v, word_at(rom, at))->0;
    assert(step(rom, at, v) == Some((at + 2, u)));
    assert(run_fwd(u, rom, at + 2, at + 2) == Some(u));
}

/// A forward run is that many machine steps.
pub proof fn lemma_fwd_steps(v: Seq<u8>, rom: Seq<u8>, a: int, c: int)
    requires
        run_fwd(v, rom, a, c) is Some,
    ensures
        steps(rom, a, v, fwd_len(v, rom, a, c)) == Some((c, run_fwd(v, rom, a, c)->0)),
    decreases c - a,
{
    reveal(run_fwd);
    if a != c {
        let (p, u) = step(rom, a, v)->0;
        lemma_fwd_steps(u, rom, p, c);
    }
}

} // verus!
