//! The bullet of the first version of the game and its 40-byte byte form:
//! position, aim point and distance travelled, each an `f64` held as its
//! bit pattern (`f64::to_bits`).
use vstd::prelude::*;
use crate::usr::game::tanks::state::{le_u64, from_le_u64, lemma_le_u64_round_trip, push_le_u64, read_le_u64};

verus! {

/// A flying bullet: its position, the point it flies towards, the distance
/// it has travelled, where its current straight segment began, and the
/// points of its path still ahead (each coordinate an `f64` bit pattern).
pub struct Bullet {
    pub x: u64,
    pub y: u64,
    pub pointing_towards_x: u64,
    pub pointing_towards_y: u64,
    pub already_traveled: u64,
    pub current_segment_start: (u64, u64),
    pub path_queue: Vec<(u64, u64)>,
}

/// Length of a bullet's byte form.
pub const BULLET_BYTES: usize = 40;

impl Bullet {
    /// The byte form: position, aim point and distance travelled, each as
    /// eight little-endian bytes; the segment start and the path are not
    /// sent.
    pub open spec fn to_bytes(&self) -> Seq<u8> {
        le_u64(self.x) + le_u64(self.y) + le_u64(self.pointing_towards_x) + le_u64(self.pointing_towards_y)
            + le_u64(self.already_traveled)
    }

    /// The 64-bit field at `at` of a byte form.
    pub open spec fn field(data: Seq<u8>, at: int) -> u64 {
        from_le_u64(data.subrange(at, at + 8))
    }

    /// Encodes the bullet (see `to_bytes`).
    pub fn serialize(&self) -> (out: Vec<u8>)
        ensures
            out@ == self.to_bytes(),
            out@.len() == BULLET_BYTES,
    {
        let mut result: Vec<u8> = Vec::new();
        push_le_u64(&mut result, self.x);
        push_le_u64(&mut result, self.y);
        push_le_u64(&mut result, self.pointing_towards_x);
        push_le_u64(&mut result, self.pointing_towards_y);
        push_le_u64(&mut result, self.already_traveled);
        assert(result@ =~= self.to_bytes());
        result
    }

    /// Decodes a bullet: fewer than 40 bytes give a bullet with every field
    /// zero; otherwise the five fields in the order of `to_bytes` (later
    /// bytes are ignored), the current segment starting at the position
    /// and no path ahead, to be worked out again from the map.
    pub fn deserialize(data: &[u8]) -> (b: Bullet)
        ensures
            data@.len() < BULLET_BYTES ==> {
                &&& b.x == 0 && b.y == 0
                &&& b.pointing_towards_x == 0 && b.pointing_towards_y == 0
                &&& b.already_traveled == 0
                &&& b.current_segment_start == (0u64, 0u64)
            },
            data@.len() >= BULLET_BYTES ==> {
                &&& b.x == Bullet::field(data@, 0)
                &&& b.y == Bullet::field(data@, 8)
                &&& b.pointing_towards_x == Bullet::field(data@, 16)
                &&& b.pointing_towards_y == Bullet::field(data@, 24)
                &&& b.already_traveled == Bullet::field(data@, 32)
                &&& b.current_segment_start == (b.x, b.y)
            },
            b.path_queue@.len() == 0,
    {
        if data.len() < BULLET_BYTES {
            return Bullet {
                x: 0,
                y: 0,
                pointing_towards_x: 0,
                pointing_towards_y: 0,
                already_traveled: 0,
                current_segment_start: (0, 0),
                path_queue: Vec::new(),
            };
        }
        let x = read_le_u64(data, 0);
        let y = read_le_u64(data, 8);
        let pointing_towards_x = read_le_u64(data, 16);
        let pointing_towards_y = read_le_u64(data, 24);
        let already_traveled = read_le_u64(data, 32);
        Bullet {
            x,
            y,
            pointing_towards_x,
            pointing_towards_y,
            already_traveled,
            current_segment_start: (x, y),
            path_queue: Vec::new(),
        }
    }
}

/// Decoding the byte form of a bullet gives back its position, aim point
/// and distance travelled.
pub proof fn lemma_bullet_round_trip(b: Bullet)
    ensures
        Bullet::field(b.to_bytes(), 0) == b.x,
        Bullet::field(b.to_bytes(), 8) == b.y,
        Bullet::field(b.to_bytes(), 16) == b.pointing_towards_x,
        Bullet::field(b.to_bytes(), 24) == b.pointing_towards_y,
        Bullet::field(b.to_bytes(), 32) == b.already_traveled,
{
    let d = b.to_bytes();
    lemma_le_u64_round_trip(b.x);
    lemma_le_u64_round_trip(b.y);
    lemma_le_u64_round_trip(b.pointing_towards_x);
    lemma_le_u64_round_trip(b.pointing_towards_y);
    lemma_le_u64_round_trip(b.already_traveled);
    assert(d.subrange(0, 8) =~= le_u64(b.x));
    assert(d.subrange(8, 16) =~= le_u64(b.y));
    assert(d.subrange(16, 24) =~= le_u64(b.pointing_towards_x));
    assert(d.subrange(24, 32) =~= le_u64(b.pointing_towards_y));
    assert(d.subrange(32, 40) =~= le_u64(b.already_traveled));
}

} // verus!
