//! Game constants shared by the tank game modules, the little-endian byte
//! helpers of the wire formats and the exact conversion of small whole
//! numbers to `f64` bit patterns.
use vstd::prelude::*;
use crate::usr::game::tanks::bullet::{Bullet, lemma_bullet_round_trip};
use crate::usr::game::tanks::map::{
    TileMap, map_bytes, is_map_data, header_field, header_tiles, decoded_tiles, lemma_map_round_trip,
};
use crate::usr::game::tanks::player::{Player, lemma_player_round_trip};
use vstd::arithmetic::power2::{pow2, lemma_pow2_adds, lemma_pow2_strictly_increases, lemma2_to64, lemma2_to64_rest};

verus! {

/// Side length of a player's square, in pixels.
pub const PLAYER_SIZE: usize = 8;

/// Maximal number of bullets a player can hold.
pub const MAX_AMMO: usize = 5;

/// Width of the statistics panel at the left of the screen, in pixels.
pub const GUI_WIDTH: usize = 80;

/// Height of one player's statistics box, in pixels.
pub const GUI_HEIGHT_PER_PLAYER: usize = 20;

/// Points awarded for hitting another player.
pub const POINTS_PER_KILL: usize = 1;

/// Points taken from a player who is hit.
pub const POINTS_PER_DEATH_MINUS: usize = 0;

} // verus!

verus! {

/// The four bytes of `v`, least significant first.
pub open spec fn le_u32(v: u32) -> Seq<u8> {
    seq![v as u8, (v >> 8u32) as u8, (v >> 16u32) as u8, (v >> 24u32) as u8]
}

/// The number whose little-endian bytes are `b0, b1, b2, b3`.
pub open spec fn from_le_u32(b0: u8, b1: u8, b2: u8, b3: u8) -> u32 {
    (b0 as u32) | ((b1 as u32) << 8u32) | ((b2 as u32) << 16u32) | ((b3 as u32) << 24u32)
}

/// Reading back the bytes of a number gives the number, and writing the
/// number read from four bytes gives the bytes.
pub proof fn lemma_le_u32_round_trip(v: u32, b0: u8, b1: u8, b2: u8, b3: u8)
    ensures
        from_le_u32(v as u8, (v >> 8u32) as u8, (v >> 16u32) as u8, (v >> 24u32) as u8) == v,
        from_le_u32(b0, b1, b2, b3) as u8 == b0,
        (from_le_u32(b0, b1, b2, b3) >> 8u32) as u8 == b1,
        (from_le_u32(b0, b1, b2, b3) >> 16u32) as u8 == b2,
        (from_le_u32(b0, b1, b2, b3) >> 24u32) as u8 == b3,
{
    assert(((v as u8) as u32) | ((((v >> 8u32) as u8) as u32) << 8u32) | ((((v >> 16u32) as u8) as u32)
        << 16u32) | ((((v >> 24u32) as u8) as u32) << 24u32) == v) by (bit_vector);
    assert((((b0 as u32) | ((b1 as u32) << 8u32) | ((b2 as u32) << 16u32) | ((b3 as u32) << 24u32)) as u8)
        == b0) by (bit_vector);
    assert(((((b0 as u32) | ((b1 as u32) << 8u32) | ((b2 as u32) << 16u32) | ((b3 as u32) << 24u32))
        >> 8u32) as u8) == b1) by (bit_vector);
    assert(((((b0 as u32) | ((b1 as u32) << 8u32) | ((b2 as u32) << 16u32) | ((b3 as u32) << 24u32))
        >> 16u32) as u8) == b2) by (bit_vector);
    assert(((((b0 as u32) | ((b1 as u32) << 8u32) | ((b2 as u32) << 16u32) | ((b3 as u32) << 24u32))
        >> 24u32) as u8) == b3) by (bit_vector);
}

/// Appends the little-endian bytes of `v` to `out`.
pub fn push_le_u32(out: &mut Vec<u8>, v: u32)
    ensures
        final(out)@ == old(out)@ + le_u32(v),
{
    out.push(v as u8);
    out.push((v >> 8u32) as u8);
    out.push((v >> 16u32) as u8);
    out.push((v >> 24u32) as u8);
    assert(final(out)@ =~= old(out)@ + le_u32(v));
}

/// Reads the little-endian number in `data[at .. at + 4]`.
pub fn read_le_u32(data: &[u8], at: usize) -> (v: u32)
    requires
        at + 4 <= data@.len(),
    ensures
        v == from_le_u32(data@[at as int], data@[at + 1], data@[at + 2], data@[at + 3]),
{
    (data[at] as u32) | ((data[at + 1] as u32) << 8u32) | ((data[at + 2] as u32) << 16u32) | ((
    data[at + 3] as u32) << 24u32)
}

} // verus!

verus! {

/// The eight bytes of `v`, least significant first.
pub open spec fn le_u64(v: u64) -> Seq<u8> {
    le_u32(v as u32) + le_u32((v >> 32u64) as u32)
}

/// The number whose little-endian bytes are `b[0..8]`.
pub open spec fn from_le_u64(b: Seq<u8>) -> u64 {
    (from_le_u32(b[0], b[1], b[2], b[3]) as u64) | ((from_le_u32(b[4], b[5], b[6], b[7]) as u64)
        << 32u64)
}

/// Reading back the bytes of a 64-bit number gives the number.
pub proof fn lemma_le_u64_round_trip(v: u64)
    ensures
        from_le_u64(le_u64(v)) == v,
{
    let lo = v as u32;
    let hi = (v >> 32u64) as u32;
    lemma_le_u32_round_trip(lo, 0, 0, 0, 0);
    lemma_le_u32_round_trip(hi, 0, 0, 0, 0);
    let b = le_u64(v);
    assert(b[0] == lo as u8 && b[1] == (lo >> 8u32) as u8 && b[2] == (lo >> 16u32) as u8 && b[3]
        == (lo >> 24u32) as u8);
    assert(b[4] == hi as u8 && b[5] == (hi >> 8u32) as u8 && b[6] == (hi >> 16u32) as u8 && b[7]
        == (hi >> 24u32) as u8);
    assert(((v as u32) as u64) | ((((v >> 32u64) as u32) as u64) << 32u64) == v) by (bit_vector);
}

/// Appends the little-endian bytes of `v` to `out`.
pub fn push_le_u64(out: &mut Vec<u8>, v: u64)
    ensures
        final(out)@ == old(out)@ + le_u64(v),
{
    push_le_u32(out, v as u32);
    push_le_u32(out, (v >> 32u64) as u32);
    assert(final(out)@ =~= old(out)@ + le_u64(v));
}

/// Reads the little-endian number in `data[at .. at + 8]`.
pub fn read_le_u64(data: &[u8], at: usize) -> (v: u64)
    requires
        at + 8 <= data@.len(),
    ensures
        v == from_le_u64(data@.subrange(at as int, at + 8)),
{
    let _len = data.len();
    let lo = read_le_u32(data, at) as u64;
    let hi = read_le_u32(data, at + 4) as u64;
    lo | (hi << 32u64)
}

/// Two to the power 52: the weight of the lowest exponent bit in the bit
/// pattern of an `f64`, and the implicit leading one of its significand.
pub open spec fn f64_unit() -> int {
    0x10_0000_0000_0000
}

/// `bits` is the bit pattern of the `f64` whose value is the whole number
/// `n`: all zero for 0; otherwise a positive normal number whose biased
/// exponent `e = bits / 2^52` and fraction `f = bits % 2^52` satisfy
/// `(2^52 + f) * 2^(e - 1023) == n * 2^52`.
pub open spec fn f64_holds_nat(bits: u64, n: nat) -> bool {
    if n == 0 {
        bits == 0
    } else {
        let e = bits as int / f64_unit();
        let f = bits as int % f64_unit();
        &&& 1023 <= e <= 1075
        &&& (f64_unit() + f) * pow2((e - 1023) as nat) == n * f64_unit()
    }
}

/// The bit pattern of `n` as an `f64`; the conversion is exact because
/// `n` has at most 53 significant bits.
pub fn f64_bits_of_usize(n: usize) -> (bits: u64)
    requires
        n < 0x20_0000_0000_0000,
    ensures
        f64_holds_nat(bits, n as nat),
{
    if n == 0 {
        return 0;
    }
    let nn = n as u64;
    let mut p: u64 = 1;
    let mut e: u64 = 0;
    proof {
        lemma2_to64();
        lemma2_to64_rest();
    }
    while p <= nn / 2
        invariant
            1 <= p <= nn,
            nn < 0x20_0000_0000_0000,
            p == pow2(e as nat),
            e <= 52,
            pow2(53) == 0x20_0000_0000_0000,
        decreases nn - p,
    {
        proof {
            vstd::arithmetic::power2::lemma_pow2_unfold((e + 1) as nat);
            if e + 1 > 52 {
                if e + 1 > 53 {
                    lemma_pow2_strictly_increases(53, (e + 1) as nat);
                }
            }
        }
        p = p * 2;
        e = e + 1;
    }
    let ghost r = pow2((52 - e) as nat);
    proof {
        lemma_pow2_adds(e as nat, (52 - e) as nat);
        assert(pow2(52) == 0x10_0000_0000_0000);
        assert(p * r == 0x10_0000_0000_0000);
        assert(0x10_0000_0000_0000int / (p as int) == r) by (nonlinear_arith)
            requires
                p * r == 0x10_0000_0000_0000int,
                p > 0,
        ;
    }
    let q = 0x10_0000_0000_0000u64 / p;
    proof {
        assert((nn - p) * q < 0x10_0000_0000_0000int) by (nonlinear_arith)
            requires
                nn - p < p,
                p * q == 0x10_0000_0000_0000int,
                q >= 0,
        ;
    }
    let frac = (nn - p) * q;
    let bits = (1023 + e) * 0x10_0000_0000_0000u64 + frac;
    proof {
        let ex = 1023 + e;
        assert(bits as int / f64_unit() == ex && bits as int % f64_unit() == frac) by (nonlinear_arith)
            requires
                bits == ex * 0x10_0000_0000_0000int + frac,
                0 <= frac < 0x10_0000_0000_0000int,
                f64_unit() == 0x10_0000_0000_0000int,
        ;
        assert((f64_unit() + frac) * p == nn * f64_unit()) by (nonlinear_arith)
            requires
                frac == (nn - p) * q,
                p * q == 0x10_0000_0000_0000int,
                f64_unit() == 0x10_0000_0000_0000int,
        ;
    }
    bits
}

} // verus!

verus! {

/// The byte forms of the items of `s`, one after the other.
pub open spec fn concat_bytes<T>(s: Seq<T>, enc: spec_fn(T) -> Seq<u8>) -> Seq<u8>
    decreases s.len(),
{
    if s.len() == 0 {
        Seq::empty()
    } else {
        concat_bytes(s.drop_last(), enc) + enc(s.last())
    }
}

/// With byte forms of `k` bytes each, the `i`-th chunk of `k` bytes of the
/// concatenation is the byte form of the `i`-th item.
pub proof fn lemma_concat_chunks<T>(s: Seq<T>, enc: spec_fn(T) -> Seq<u8>, k: int)
    requires
        k > 0,
        forall|t: T| #[trigger] enc(t).len() == k,
    ensures
        concat_bytes(s, enc).len() == k * s.len(),
        forall|i: int|
            0 <= i < s.len() ==> #[trigger] concat_bytes(s, enc).subrange(k * i, k * i + k) == enc(s[i]),
    decreases s.len(),
{
    if s.len() > 0 {
        let p = s.drop_last();
        lemma_concat_chunks(p, enc, k);
        let c = concat_bytes(s, enc);
        let cp = concat_bytes(p, enc);
        assert(c == cp + enc(s.last()));
        assert(k * s.len() == k * p.len() + k) by (nonlinear_arith)
            requires
                s.len() == p.len() + 1,
        ;
        assert forall|i: int| 0 <= i < s.len() implies #[trigger] c.subrange(k * i, k * i + k) == enc(s[i]) by {
            if i < p.len() {
                assert(k * i + k <= k * p.len()) by (nonlinear_arith)
                    requires
                        i + 1 <= p.len(),
                        k > 0,
                ;
                assert(0 <= k * i) by (nonlinear_arith)
                    requires
                        i >= 0,
                        k > 0,
                ;
                assert(c.subrange(k * i, k * i + k) =~= cp.subrange(k * i, k * i + k));
                assert(p[i] == s[i]);
            } else {
                assert(k * i == k * p.len()) by (nonlinear_arith)
                    requires
                        i == p.len(),
                ;
                assert(c.subrange(k * i, k * i + k) =~= enc(s.last()));
            }
        }
    }
}

/// The byte form of a player, as a function.
pub open spec fn player_enc() -> spec_fn(Player) -> Seq<u8> {
    |p: Player| p.to_bytes()
}

/// The byte form of a bullet, as a function.
pub open spec fn bullet_enc() -> spec_fn(Bullet) -> Seq<u8> {
    |b: Bullet| b.to_bytes()
}

/// The byte form of a list of players.
pub open spec fn players_bytes(s: Seq<Player>) -> Seq<u8> {
    concat_bytes(s, player_enc())
}

/// The byte form of a list of bullets.
pub open spec fn bullets_bytes(s: Seq<Bullet>) -> Seq<u8> {
    concat_bytes(s, bullet_enc())
}

/// The byte form of a game state: the map (see `map_bytes`), the number of
/// players as four little-endian bytes, the players (70 bytes each, see
/// `Player::to_bytes`), the number of bullets and the bullets (24 bytes
/// each, see `Bullet::to_bytes`).
pub open spec fn state_bytes(m: TileMap, players: Seq<Player>, bullets: Seq<Bullet>) -> Seq<u8> {
    map_bytes(m) + le_u32(players.len() as u32) + players_bytes(players) + le_u32(
        bullets.len() as u32,
    ) + bullets_bytes(bullets)
}

/// Where the player count of a game state's byte form stands: right after
/// the map.
pub open spec fn players_at(data: Seq<u8>) -> int {
    20 + header_tiles(data)
}

/// The number at `at` of a byte form.
pub open spec fn count_at(data: Seq<u8>, at: int) -> int {
    from_le_u32(data[at], data[at + 1], data[at + 2], data[at + 3]) as int
}

/// Where the bullet count of a game state's byte form stands.
pub open spec fn bullets_at(data: Seq<u8>) -> int {
    players_at(data) + 4 + 70 * count_at(data, players_at(data))
}

/// The bytes hold a whole game state: a map, a player count and that many
/// players, a bullet count and that many bullets (bytes after them are
/// ignored).
pub open spec fn is_state_data(data: Seq<u8>) -> bool {
    &&& is_map_data(data)
    &&& players_at(data) + 4 <= data.len()
    &&& bullets_at(data) + 4 <= data.len()
    &&& bullets_at(data) + 4 + 24 * count_at(data, bullets_at(data)) <= data.len()
}

/// The players of a game state's byte form.
pub open spec fn decoded_players(data: Seq<u8>) -> Seq<Player> {
    let at = players_at(data) + 4;
    Seq::new(
        count_at(data, players_at(data)) as nat,
        |i: int| Player::from_bytes(data.subrange(at + 70 * i, at + 70 * i + 70)),
    )
}

/// The bullets of a game state's byte form.
pub open spec fn decoded_bullets(data: Seq<u8>) -> Seq<Bullet> {
    let at = bullets_at(data) + 4;
    Seq::new(
        count_at(data, bullets_at(data)) as nat,
        |i: int| Bullet::from_bytes(data.subrange(at + 24 * i, at + 24 * i + 24)),
    )
}

/// The state of a running game: the map, the players and bullets, which
/// player this machine plays, and the time of the last tick (an `f64` of
/// seconds since boot, held as its bit pattern).
pub struct GameState {
    pub map: TileMap,
    pub players: Vec<Player>,
    pub bullets: Vec<Bullet>,
    pub current_player_index: usize,
    pub last_tick: u64,
}

impl GameState {
    /// A game on `map` without players or bullets, at time 0.0.
    pub fn new(map: TileMap) -> (g: GameState)
        ensures
            g.map == map,
            g.players@.len() == 0,
            g.bullets@.len() == 0,
            g.current_player_index == 0,
            g.last_tick == 0,
    {
        GameState { map, players: Vec::new(), bullets: Vec::new(), current_player_index: 0, last_tick: 0 }
    }

    /// Encodes the map, the players and the bullets (see `state_bytes`).
    pub fn serialize(&self) -> (out: Vec<u8>)
        ensures
            out@ == state_bytes(self.map, self.players@, self.bullets@),
    {
        let mut result = self.map.serialize();
        push_le_u32(&mut result, self.players.len() as u32);
        let ghost head = result@;
        let mut i: usize = 0;
        while i < self.players.len()
            invariant
                0 <= i <= self.players@.len(),
                result@ == head + players_bytes(self.players@.subrange(0, i as int)),
            decreases self.players@.len() - i,
        {
            let mut bytes = self.players[i].serialize();
            result.append(&mut bytes);
            assert(self.players@.subrange(0, i + 1).drop_last() =~= self.players@.subrange(0, i as int));
            i = i + 1;
        }
        assert(self.players@.subrange(0, self.players@.len() as int) =~= self.players@);
        push_le_u32(&mut result, self.bullets.len() as u32);
        let ghost head2 = result@;
        let mut j: usize = 0;
        while j < self.bullets.len()
            invariant
                0 <= j <= self.bullets@.len(),
                result@ == head2 + bullets_bytes(self.bullets@.subrange(0, j as int)),
            decreases self.bullets@.len() - j,
        {
            let mut bytes = self.bullets[j].serialize();
            result.append(&mut bytes);
            assert(self.bullets@.subrange(0, j + 1).drop_last() =~= self.bullets@.subrange(0, j as int));
            j = j + 1;
        }
        assert(self.bullets@.subrange(0, self.bullets@.len() as int) =~= self.bullets@);
        assert(result@ =~= state_bytes(self.map, self.players@, self.bullets@));
        result
    }

    /// Decodes a game state (see `is_state_data` and the `decoded_*`
    /// functions): `None` when the bytes do not hold a whole state. The
    /// decoded state plays the first player and stands at time 0.0.
    pub fn deserialize(data: &[u8]) -> (r: Option<GameState>)
        ensures
            r is None <==> !is_state_data(data@),
            r matches Some(g) ==> {
                &&& g.map.size_x == header_field(data@, 0)
                &&& g.map.size_y == header_field(data@, 1)
                &&& g.map.tiles_x == header_field(data@, 2)
                &&& g.map.tiles_y == header_field(data@, 3)
                &&& g.map.tile_size == header_field(data@, 4)
                &&& g.map.tiles@ == decoded_tiles(data@)
                &&& g.players@ == decoded_players(data@)
                &&& g.bullets@ == decoded_bullets(data@)
                &&& g.current_player_index == 0
                &&& g.last_tick == 0
            },
    {
        let len = data.len();
        if !crate::usr::game::tanks::map::is_valid_map_data(data) {
            return None;
        }
        let map = TileMap::deserialize(data);
        let at = 20 + map.tiles_x * map.tiles_y;
        if len - at < 4 {
            return None;
        }
        let np = read_le_u32(data, at) as usize;
        if (len - at - 4) / 70 < np {
            proof {
                assert(!(at + 4 + 70 * np + 4 <= len)) by (nonlinear_arith)
                    requires
                        (len - at - 4) / 70 < np,
                        at + 4 <= len,
                ;
            }
            return None;
        }
        proof {
            assert(70 * np <= len - at - 4) by (nonlinear_arith)
                requires
                    (len - at - 4) / 70 >= np,
                    at + 4 <= len,
            ;
        }
        let bat = at + 4 + 70 * np;
        if len - bat < 4 {
            return None;
        }
        let nb = read_le_u32(data, bat) as usize;
        if (len - bat - 4) / 24 < nb {
            proof {
                assert(!(bat + 4 + 24 * nb <= len)) by (nonlinear_arith)
                    requires
                        (len - bat - 4) / 24 < nb,
                        bat + 4 <= len,
                ;
            }
            return None;
        }
        proof {
            assert(24 * nb <= len - bat - 4) by (nonlinear_arith)
                requires
                    (len - bat - 4) / 24 >= nb,
                    bat + 4 <= len,
            ;
        }
        let mut players: Vec<Player> = Vec::new();
        let mut i: usize = 0;
        while i < np
            invariant
                0 <= i <= np,
                at + 4 + 70 * np + 4 <= len,
                len == data@.len(),
                at == players_at(data@),
                np == count_at(data@, at as int),
                players@.len() == i,
                forall|k: int|
                    0 <= k < i ==> #[trigger] players@[k] == decoded_players(data@)[k],
            decreases np - i,
        {
            proof {
                assert(at + 4 + 70 * i + 70 <= at + 4 + 70 * np) by (nonlinear_arith)
                    requires
                        i < np,
                ;
            }
            let o = at + 4 + 70 * i;
            let chunk = &data[o..o + 70];
            assert(chunk@ =~= data@.subrange(o as int, o + 70));
            players.push(Player::deserialize(chunk));
            i = i + 1;
        }
        assert(players@ =~= decoded_players(data@));
        let mut bullets: Vec<Bullet> = Vec::new();
        let mut j: usize = 0;
        while j < nb
            invariant
                0 <= j <= nb,
                bat + 4 + 24 * nb <= len,
                len == data@.len(),
                bat == bullets_at(data@),
                nb == count_at(data@, bat as int),
                bullets@.len() == j,
                forall|k: int|
                    0 <= k < j ==> #[trigger] bullets@[k] == decoded_bullets(data@)[k],
            decreases nb - j,
        {
            proof {
                assert(bat + 4 + 24 * j + 24 <= bat + 4 + 24 * nb) by (nonlinear_arith)
                    requires
                        j < nb,
                ;
            }
            let o = bat + 4 + 24 * j;
            let chunk = &data[o..o + 24];
            assert(chunk@ =~= data@.subrange(o as int, o + 24));
            bullets.push(Bullet::deserialize(chunk));
            j = j + 1;
        }
        assert(bullets@ =~= decoded_bullets(data@));
        Some(GameState { map, players, bullets, current_player_index: 0, last_tick: 0 })
    }
}

} // verus!

verus! {

/// A game state that its byte form can carry: a well-formed map whose
/// numbers fit in 32 bits, at most `u32::MAX` players and bullets, players
/// whose counts and mouse positions fit their fields, and shooters that fit
/// in 32 bits.
pub open spec fn fits_state_wire(m: TileMap, players: Seq<Player>, bullets: Seq<Bullet>) -> bool {
    &&& m.well_formed()
    &&& m.size_x <= u32::MAX
    &&& m.size_y <= u32::MAX
    &&& m.tiles_x <= u32::MAX
    &&& m.tiles_y <= u32::MAX
    &&& m.tile_size <= u32::MAX
    &&& players.len() <= u32::MAX
    &&& bullets.len() <= u32::MAX
    &&& forall|i: int| 0 <= i < players.len() ==> #[trigger] players[i].fits_wire()
    &&& forall|i: int| 0 <= i < bullets.len() ==> #[trigger] bullets[i].shot_by <= u32::MAX
}

/// The map part of a game state's byte form, and where its counts stand.
#[verifier::rlimit(80)]
#[verifier::spinoff_prover]
proof fn lemma_state_layout(m: TileMap, players: Seq<Player>, bullets: Seq<Bullet>)
    requires
        fits_state_wire(m, players, bullets),
    ensures
        is_map_data(state_bytes(m, players, bullets)),
        header_field(state_bytes(m, players, bullets), 0) == m.size_x,
        header_field(state_bytes(m, players, bullets), 1) == m.size_y,
        header_field(state_bytes(m, players, bullets), 2) == m.tiles_x,
        header_field(state_bytes(m, players, bullets), 3) == m.tiles_y,
        header_field(state_bytes(m, players, bullets), 4) == m.tile_size,
        decoded_tiles(state_bytes(m, players, bullets)) == m.tiles@,
        players_at(state_bytes(m, players, bullets)) == map_bytes(m).len(),
        count_at(state_bytes(m, players, bullets), map_bytes(m).len() as int) == players.len(),
        bullets_at(state_bytes(m, players, bullets)) == map_bytes(m).len() + 4 + 70 * players.len(),
        count_at(
            state_bytes(m, players, bullets),
            (map_bytes(m).len() + 4 + 70 * players.len()) as int,
        ) == bullets.len(),
        state_bytes(m, players, bullets).len() == map_bytes(m).len() + 4 + 70 * players.len() + 4 + 24
            * bullets.len(),
{
    let d = state_bytes(m, players, bullets);
    let mb = map_bytes(m);
    let pe = player_enc();
    let be = bullet_enc();
    let pb = players_bytes(players);
    let bb = bullets_bytes(bullets);
    lemma_map_round_trip(m);
    lemma_concat_chunks(players, pe, 70);
    lemma_concat_chunks(bullets, be, 24);
    lemma_le_u32_round_trip(players.len() as u32, 0, 0, 0, 0);
    lemma_le_u32_round_trip(bullets.len() as u32, 0, 0, 0, 0);
    let ml = mb.len() as int;
    let c1 = le_u32(players.len() as u32);
    let c2 = le_u32(bullets.len() as u32);
    assert(d == mb + c1 + pb + c2 + bb);
    assert(header_field(d, 0) == header_field(mb, 0));
    assert(header_field(d, 1) == header_field(mb, 1));
    assert(header_field(d, 2) == header_field(mb, 2));
    assert(header_field(d, 3) == header_field(mb, 3));
    assert(header_field(d, 4) == header_field(mb, 4));
    assert(d.subrange(20, 20 + header_tiles(d)) =~= mb.subrange(20, 20 + header_tiles(mb)));
    assert(d[ml] == c1[0] && d[ml + 1] == c1[1] && d[ml + 2] == c1[2] && d[ml + 3] == c1[3]);
    let at2 = ml + 4 + 70 * players.len();
    assert(d[at2] == c2[0] && d[at2 + 1] == c2[1] && d[at2 + 2] == c2[2] && d[at2 + 3] == c2[3]);
}

/// A range inside the third of five concatenated sequences.
proof fn lemma_subrange_third(a: Seq<u8>, b: Seq<u8>, c: Seq<u8>, d: Seq<u8>, e: Seq<u8>, lo: int, hi: int)
    requires
        0 <= lo <= hi <= c.len(),
    ensures
        (a + b + c + d + e).subrange(a.len() + b.len() + lo, a.len() + b.len() + hi) == c.subrange(lo, hi),
{
    assert((a + b + c + d + e).subrange(a.len() + b.len() + lo, a.len() + b.len() + hi) =~= c.subrange(
        lo,
        hi,
    ));
}

/// A range inside the last of five concatenated sequences.
proof fn lemma_subrange_fifth(a: Seq<u8>, b: Seq<u8>, c: Seq<u8>, d: Seq<u8>, e: Seq<u8>, lo: int, hi: int)
    requires
        0 <= lo <= hi <= e.len(),
    ensures
        (a + b + c + d + e).subrange(
            a.len() + b.len() + c.len() + d.len() + lo,
            a.len() + b.len() + c.len() + d.len() + hi,
        ) == e.subrange(lo, hi),
{
    assert((a + b + c + d + e).subrange(
        a.len() + b.len() + c.len() + d.len() + lo,
        a.len() + b.len() + c.len() + d.len() + hi,
    ) =~= e.subrange(lo, hi));
}

/// The `i`-th player chunk of a game state's byte form is the byte form of
/// the `i`-th player.
#[verifier::rlimit(80)]
#[verifier::spinoff_prover]
proof fn lemma_state_player_chunk(m: TileMap, players: Seq<Player>, bullets: Seq<Bullet>, i: int)
    requires
        0 <= i < players.len(),
    ensures
        state_bytes(m, players, bullets).subrange(
            map_bytes(m).len() + 4 + 70 * i,
            map_bytes(m).len() + 4 + 70 * i + 70,
        ) == players[i].to_bytes(),
{
    let pb = players_bytes(players);
    lemma_concat_chunks(players, player_enc(), 70);
    assert(70 * i + 70 <= 70 * players.len()) by (nonlinear_arith)
        requires
            i + 1 <= players.len(),
    ;
    assert(0 <= 70 * i) by (nonlinear_arith)
        requires
            i >= 0,
    ;
    lemma_subrange_third(
        map_bytes(m),
        le_u32(players.len() as u32),
        pb,
        le_u32(bullets.len() as u32),
        bullets_bytes(bullets),
        70 * i,
        70 * i + 70,
    );
    assert(pb.subrange(70 * i, 70 * i + 70) == player_enc()(players[i]));
}

/// The `i`-th bullet chunk of a game state's byte form is the byte form of
/// the `i`-th bullet.
#[verifier::rlimit(80)]
#[verifier::spinoff_prover]
proof fn lemma_state_bullet_chunk(m: TileMap, players: Seq<Player>, bullets: Seq<Bullet>, i: int)
    requires
        0 <= i < bullets.len(),
    ensures
        state_bytes(m, players, bullets).subrange(
            map_bytes(m).len() + 4 + 70 * players.len() + 4 + 24 * i,
            map_bytes(m).len() + 4 + 70 * players.len() + 4 + 24 * i + 24,
        ) == bullets[i].to_bytes(),
{
    let pb = players_bytes(players);
    let bb = bullets_bytes(bullets);
    lemma_concat_chunks(players, player_enc(), 70);
    lemma_concat_chunks(bullets, bullet_enc(), 24);
    assert(24 * i + 24 <= 24 * bullets.len()) by (nonlinear_arith)
        requires
            i + 1 <= bullets.len(),
    ;
    assert(0 <= 24 * i) by (nonlinear_arith)
        requires
            i >= 0,
    ;
    lemma_subrange_fifth(
        map_bytes(m),
        le_u32(players.len() as u32),
        pb,
        le_u32(bullets.len() as u32),
        bb,
        24 * i,
        24 * i + 24,
    );
    assert(bb.subrange(24 * i, 24 * i + 24) == bullet_enc()(bullets[i]));
}

/// Decoding the byte form of a game state gives its map, players and
/// bullets back.
#[verifier::rlimit(40)]
pub proof fn lemma_state_round_trip(m: TileMap, players: Seq<Player>, bullets: Seq<Bullet>)
    requires
        fits_state_wire(m, players, bullets),
    ensures
        is_state_data(state_bytes(m, players, bullets)),
        header_field(state_bytes(m, players, bullets), 0) == m.size_x,
        header_field(state_bytes(m, players, bullets), 1) == m.size_y,
        header_field(state_bytes(m, players, bullets), 2) == m.tiles_x,
        header_field(state_bytes(m, players, bullets), 3) == m.tiles_y,
        header_field(state_bytes(m, players, bullets), 4) == m.tile_size,
        decoded_tiles(state_bytes(m, players, bullets)) == m.tiles@,
        decoded_players(state_bytes(m, players, bullets)) == players,
        decoded_bullets(state_bytes(m, players, bullets)) == bullets,
{
    let d = state_bytes(m, players, bullets);
    lemma_state_layout(m, players, bullets);
    let ml = map_bytes(m).len() as int;
    assert forall|i: int| 0 <= i < players.len() implies #[trigger] decoded_players(d)[i] == players[i] by {
        lemma_state_player_chunk(m, players, bullets, i);
        lemma_player_round_trip(players[i]);
    }
    assert(decoded_players(d) =~= players);
    assert forall|i: int| 0 <= i < bullets.len() implies #[trigger] decoded_bullets(d)[i] == bullets[i] by {
        lemma_state_bullet_chunk(m, players, bullets, i);
        lemma_bullet_round_trip(bullets[i]);
    }
    assert(decoded_bullets(d) =~= bullets);
}

} // verus!
