//! A bullet as the game state carries it: the part of a flying bullet that
//! goes over the network, and its byte form.
use vstd::prelude::*;
use crate::usr::game::tanks::state::{le_u32, from_le_u32, lemma_le_u32_round_trip, push_le_u32, read_le_u32};

verus! {

/// A bullet as the game state holds and sends it: its position, the point
/// it currently flies towards and the distance it has travelled, each an
/// `f32` held as its bit pattern (`f32::to_bits`), and the identifier of
/// the player who shot it. The path of reflections ahead of it is not part
/// of it; whoever moves the bullet computes the path from the map.
#[derive(Clone, Copy, PartialEq, Eq, Structural, Debug)]
pub struct Bullet {
    pub x: u32,
    pub y: u32,
    pub pointing_towards_x: u32,
    pub pointing_towards_y: u32,
    pub already_traveled: u32,
    pub shot_by: usize,
}

/// Length of a bullet's byte form.
pub const BULLET_BYTES: usize = 24;

impl Bullet {
    /// The bullet that a too short byte form decodes to: everything zero.
    pub open spec fn blank() -> Bullet {
        Bullet {
            x: 0,
            y: 0,
            pointing_towards_x: 0,
            pointing_towards_y: 0,
            already_traveled: 0,
            shot_by: 0,
        }
    }

    /// The byte form: the five `f32` fields and the shooter truncated to 32
    /// bits, each as four little-endian bytes, 24 bytes in all.
    pub open spec fn to_bytes(self) -> Seq<u8> {
        le_u32(self.x) + le_u32(self.y) + le_u32(self.pointing_towards_x) + le_u32(
            self.pointing_towards_y,
        ) + le_u32(self.already_traveled) + le_u32(self.shot_by as u32)
    }

    /// The 32-bit number at `at` of a byte form.
    pub open spec fn word(data: Seq<u8>, at: int) -> u32 {
        from_le_u32(data[at], data[at + 1], data[at + 2], data[at + 3])
    }

    /// The bullet decoded from bytes: `blank()` for fewer than 24 bytes,
    /// else the six fields in the order of `to_bytes`; bytes after them are
    /// ignored.
    pub open spec fn from_bytes(data: Seq<u8>) -> Bullet {
        if data.len() < 24 {
            Bullet::blank()
        } else {
            Bullet {
                x: Bullet::word(data, 0),
                y: Bullet::word(data, 4),
                pointing_towards_x: Bullet::word(data, 8),
                pointing_towards_y: Bullet::word(data, 12),
                already_traveled: Bullet::word(data, 16),
                shot_by: Bullet::word(data, 20) as usize,
            }
        }
    }

    /// Encodes the bullet (see `to_bytes`).
    pub fn serialize(&self) -> (out: Vec<u8>)
        ensures
            out@ == self.to_bytes(),
            out@.len() == BULLET_BYTES,
    {
        let mut result: Vec<u8> = Vec::new();
        push_le_u32(&mut result, self.x);
        push_le_u32(&mut result, self.y);
        push_le_u32(&mut result, self.pointing_towards_x);
        push_le_u32(&mut result, self.pointing_towards_y);
        push_le_u32(&mut result, self.already_traveled);
        push_le_u32(&mut result, self.shot_by as u32);
        assert(result@ =~= self.to_bytes());
        result
    }

    /// Decodes a bullet (see `from_bytes`).
    pub fn deserialize(data: &[u8]) -> (b: Bullet)
        ensures
            b == Bullet::from_bytes(data@),
    {
        if data.len() < 24 {
            return Bullet {
                x: 0,
                y: 0,
                pointing_towards_x: 0,
                pointing_towards_y: 0,
                already_traveled: 0,
                shot_by: 0,
            };
        }
        Bullet {
            x: read_le_u32(data, 0),
            y: read_le_u32(data, 4),
            pointing_towards_x: read_le_u32(data, 8),
            pointing_towards_y: read_le_u32(data, 12),
            already_traveled: read_le_u32(data, 16),
            shot_by: read_le_u32(data, 20) as usize,
        }
    }
}

/// Decoding the byte form of a bullet whose shooter fits in 32 bits gives
/// the bullet back.
pub proof fn lemma_bullet_round_trip(b: Bullet)
    requires
        b.shot_by <= u32::MAX,
    ensures
        Bullet::from_bytes(b.to_bytes()) == b,
{
    let d = b.to_bytes();
    lemma_le_u32_round_trip(b.x, 0, 0, 0, 0);
    lemma_le_u32_round_trip(b.y, 0, 0, 0, 0);
    lemma_le_u32_round_trip(b.pointing_towards_x, 0, 0, 0, 0);
    lemma_le_u32_round_trip(b.pointing_towards_y, 0, 0, 0, 0);
    lemma_le_u32_round_trip(b.already_traveled, 0, 0, 0, 0);
    lemma_le_u32_round_trip(b.shot_by as u32, 0, 0, 0, 0);
    assert(Bullet::word(d, 0) == b.x);
    assert(Bullet::word(d, 4) == b.y);
    assert(Bullet::word(d, 8) == b.pointing_towards_x);
    assert(Bullet::word(d, 12) == b.pointing_towards_y);
    assert(Bullet::word(d, 16) == b.already_traveled);
    assert(Bullet::word(d, 20) == b.shot_by as u32);
}

} // verus!
