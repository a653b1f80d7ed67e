//! ITCH 5.0 message lengths by type byte, and structural payload validation.

use vstd::prelude::*;

verus! {

/// Total length of an ITCH 5.0 message (type byte included) for each known type byte.
/// The largest legal message is 50 bytes.
pub open spec fn spec_msg_len(t: u8) -> Option<u8> {
    if t == 0x53 { Some(12u8) }        // 'S' system event
    else if t == 0x52 { Some(39u8) }   // 'R' stock directory
    else if t == 0x48 { Some(25u8) }   // 'H' stock trading action
    else if t == 0x59 { Some(20u8) }   // 'Y' Reg SHO restriction
    else if t == 0x4C { Some(26u8) }   // 'L' market participant position
    else if t == 0x56 { Some(35u8) }   // 'V' MWCB decline level
    else if t == 0x57 { Some(12u8) }   // 'W' MWCB status
    else if t == 0x4B { Some(28u8) }   // 'K' IPO quoting period
    else if t == 0x4A { Some(35u8) }   // 'J' LULD auction collar
    else if t == 0x68 { Some(21u8) }   // 'h' operational halt
    else if t == 0x41 { Some(36u8) }   // 'A' add order
    else if t == 0x46 { Some(40u8) }   // 'F' add order with MPID
    else if t == 0x45 { Some(31u8) }   // 'E' order executed
    else if t == 0x43 { Some(36u8) }   // 'C' order executed with price
    else if t == 0x58 { Some(23u8) }   // 'X' order cancel
    else if t == 0x44 { Some(19u8) }   // 'D' order delete
    else if t == 0x55 { Some(35u8) }   // 'U' order replace
    else if t == 0x50 { Some(44u8) }   // 'P' trade
    else if t == 0x51 { Some(40u8) }   // 'Q' cross trade
    else if t == 0x42 { Some(19u8) }   // 'B' broken trade
    else if t == 0x49 { Some(50u8) }   // 'I' net order imbalance
    else if t == 0x4E { Some(20u8) }   // 'N' retail price improvement
    else if t == 0x4F { Some(48u8) }   // 'O' direct listing with capital raise
    else { None }
}

/// Total length of an ITCH 5.0 message by type byte, or None if unknown.
pub fn msg_len(type_byte: u8) -> (r: Option<u8>)
    ensures
        r == spec_msg_len(type_byte),
{
    match type_byte {
        0x53 => Some(12),
        0x52 => Some(39),
        0x48 => Some(25),
        0x59 => Some(20),
        0x4C => Some(26),
        0x56 => Some(35),
        0x57 => Some(12),
        0x4B => Some(28),
        0x4A => Some(35),
        0x68 => Some(21),
        0x41 => Some(36),
        0x46 => Some(40),
        0x45 => Some(31),
        0x43 => Some(36),
        0x58 => Some(23),
        0x44 => Some(19),
        0x55 => Some(35),
        0x50 => Some(44),
        0x51 => Some(40),
        0x42 => Some(19),
        0x49 => Some(50),
        0x4E => Some(20),
        0x4F => Some(48),
        _ => None,
    }
}

/// The declared length table: the length of a known type, 0 for an unknown one.
pub fn declared_len(type_byte: u8) -> (r: u8)
    ensures
        r == match spec_msg_len(type_byte) {
            Some(n) => n,
            None => 0u8,
        },
{
    match msg_len(type_byte) {
        Some(n) => n,
        None => 0,
    }
}

/// Why a payload is not a structurally valid ITCH 5.0 message.
#[derive(Debug, Clone, Copy, PartialEq, Eq, Structural)]
pub enum ItchError {
    /// The payload has no type byte.
    Empty,
    /// The type byte names no ITCH 5.0 message.
    UnknownType { t: u8 },
    /// The payload length differs from the length the type byte declares.
    BadLength { t: u8, expected: u8, got: usize },
}

/// What `validate` answers for a payload.
pub open spec fn spec_validate(msg: Seq<u8>) -> Result<(), ItchError> {
    if msg.len() == 0 {
        Err(ItchError::Empty)
    } else {
        match spec_msg_len(msg[0]) {
            None => Err(ItchError::UnknownType { t: msg[0] }),
            Some(n) => if msg.len() == n as int {
                Ok(())
            } else {
                Err(ItchError::BadLength { t: msg[0], expected: n, got: msg.len() as usize })
            },
        }
    }
}

/// Checks that `msg` is a known ITCH 5.0 message with exactly its declared length.
pub fn validate(msg: &[u8]) -> (r: Result<(), ItchError>)
    ensures
        r == spec_validate(msg@),
{
    if msg.len() == 0 {
        return Err(ItchError::Empty);
    }
    let t = msg[0];
    match msg_len(t) {
        None => Err(ItchError::UnknownType { t }),
        Some(n) => {
            if msg.len() == n as usize {
                Ok(())
            } else {
                Err(ItchError::BadLength { t, expected: n, got: msg.len() })
            }
        },
    }
}

} // verus!
