use vstd::prelude::*;

use crate::text::{decimal, push_decimal, push_str};

verus! {

/// The largest ROM: the 4 KiB of memory less the 0x200 bytes below the program.
pub const MAX_ROM_SIZE: usize = 3584;

/// Why a ROM image cannot be written.
#[derive(Debug)]
pub struct EmitError {
    pub message: String,
}

/// The message for a ROM of `len` bytes that does not fit.
pub open spec fn rom_too_large_text(len: nat) -> Seq<char> {
    "ROM size "@ + decimal(len) + " bytes exceeds maximum "@ + decimal(MAX_ROM_SIZE as nat)
        + " bytes"@
}

/// Checks that a ROM image fits in memory; this is what decides whether it may be written.
pub fn check_rom_size(bytes: &Vec<u8>) -> (r: Result<(), EmitError>)
    ensures
        r is Ok <==> bytes@.len() <= MAX_ROM_SIZE,
        r matches Err(e) ==> e.message@ == rom_too_large_text(bytes@.len()),
{
    if bytes.len() > MAX_ROM_SIZE {
        let mut message = String::new();
        push_str(&mut message, "ROM size ");
        push_decimal(&mut message, bytes.len() as u64);
        push_str(&mut message, " bytes exceeds maximum ");
        push_decimal(&mut message, MAX_ROM_SIZE as u64);
        push_str(&mut message, " bytes");
        return Err(EmitError { message });
    }
    Ok(())
}

} // verus!
