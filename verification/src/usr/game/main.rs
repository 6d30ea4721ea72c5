//! The decisions of the game program: what the command line asks for, and
//! how a received network message changes the game.
use vstd::prelude::*;
use crate::usr::game::network::MessageType;
use crate::usr::game::tanks::game::{Game, has_id, is_first, spawnable_map, header_drawable, fresh_player, spawn_coord, is_drawable_map_data};
use crate::usr::game::tanks::map::{is_map_data, header_field, decoded_tiles};
use crate::usr::game::tanks::player::Player;
use crate::usr::game::tanks::state::{is_state_data, decoded_players, decoded_bullets, f64_holds_nat};
use crate::usr::game::tanks::userinput::UserInput;

verus! {

/// Screen width of the game, in pixels.
pub const WIDTH: usize = 320;

/// Screen height of the game, in pixels.
pub const HEIGHT: usize = 200;

/// What the command line asks for.
#[derive(Clone, Copy, PartialEq, Eq, Structural, Debug)]
pub enum Command {
    /// Show the usage.
    Help,
    /// Run the map generation demo.
    MapDemo,
    /// Run the server.
    Server,
    /// Run a client with address `192.168.0.<digit>`.
    Client(u8),
    /// The `-ip=` argument does not hold a number from 2 to 255.
    InvalidIpDigit,
    /// Neither server nor client was asked for.
    NoMode,
}

/// The decimal number that the digits `s` spell, for all-digit `s`.
pub open spec fn digits_value(s: Seq<u8>) -> nat
    decreases s.len(),
{
    if s.len() == 0 {
        0
    } else {
        10 * digits_value(s.drop_last()) + (s.last() - 48) as nat
    }
}

/// All bytes of `s` are ASCII digits.
pub open spec fn all_digits(s: Seq<u8>) -> bool {
    forall|i: int| 0 <= i < s.len() ==> 48 <= #[trigger] s[i] <= 57
}

/// The text `s` read as a byte-sized number the way `u8::from_str` reads
/// it: an optional `+`, then one digit or more, of value at most 255.
pub open spec fn parse_u8_spec(s: Seq<u8>) -> Option<u8> {
    let d = if s.len() > 0 && s[0] == 43u8 {
        s.subrange(1, s.len() as int)
    } else {
        s
    };
    if d.len() > 0 && all_digits(d) && digits_value(d) <= 255 {
        Some(digits_value(d) as u8)
    } else {
        None
    }
}

/// Reads a byte-sized number (see `parse_u8_spec`).
pub fn parse_u8(s: &[u8]) -> (r: Option<u8>)
    ensures
        r == parse_u8_spec(s@),
{
    let start: usize = if s.len() > 0 && s[0] == 43u8 { 1 } else { 0 };
    let ghost d = s@.subrange(start as int, s@.len() as int);
    assert(d =~= (if s@.len() > 0 && s@[0] == 43u8 {
        s@.subrange(1, s@.len() as int)
    } else {
        s@
    }));
    if start >= s.len() {
        return None;
    }
    let mut value: u32 = 0;
    let mut i: usize = start;
    while i < s.len()
        invariant
            start <= i <= s@.len(),
            start == (if s@.len() > 0 && s@[0] == 43u8 {
                1usize
            } else {
                0usize
            }),
            d == s@.subrange(start as int, s@.len() as int),
            d == (if s@.len() > 0 && s@[0] == 43u8 {
                s@.subrange(1, s@.len() as int)
            } else {
                s@
            }),
            all_digits(s@.subrange(start as int, i as int)),
            value == digits_value(s@.subrange(start as int, i as int)),
            value <= 255,
        decreases s@.len() - i,
    {
        let c = s[i];
        let ghost pre = s@.subrange(start as int, i as int);
        let ghost nxt = s@.subrange(start as int, i + 1);
        assert(nxt.drop_last() =~= pre);
        if c < 48 || c > 57 {
            proof {
                assert(d[i - start] == c);
            }
            return None;
        }
        value = value * 10 + (c - 48) as u32;
        assert(nxt.last() == c);
        assert(digits_value(nxt) == value);
        assert(all_digits(nxt)) by {
            assert forall|j: int| 0 <= j < nxt.len() implies 48 <= #[trigger] nxt[j] <= 57 by {
                if j < pre.len() {
                    assert(nxt[j] == pre[j]);
                }
            }
        }
        if value > 255 {
            proof {
                assert(d.subrange(0, i - start + 1) =~= nxt);
                lemma_digits_grow(d, (i - start + 1) as int);
            }
            return None;
        }
        i = i + 1;
    }
    assert(s@.subrange(start as int, s@.len() as int) =~= d);
    Some(value as u8)
}

/// A prefix of digits worth more than 255 makes the whole worth more.
proof fn lemma_digits_grow(d: Seq<u8>, k: int)
    requires
        0 <= k <= d.len(),
        all_digits(d.subrange(0, k)),
        digits_value(d.subrange(0, k)) > 255,
    ensures
        !(all_digits(d) && digits_value(d) <= 255),
    decreases d.len() - k,
{
    if k < d.len() && all_digits(d) {
        let p = d.subrange(0, k + 1);
        assert(p.drop_last() =~= d.subrange(0, k));
        lemma_digits_grow(d, k + 1);
    } else if k == d.len() {
        assert(d.subrange(0, k) =~= d);
    }
}

/// The argument is `a` or `b`.
pub open spec fn is_either(arg: Seq<u8>, a: Seq<u8>, b: Seq<u8>) -> bool {
    arg == a || arg == b
}

/// Some argument is `a` or `b`.
pub open spec fn any_arg(args: Seq<Seq<u8>>, a: Seq<u8>, b: Seq<u8>) -> bool {
    exists|i: int| 0 <= i < args.len() && #[trigger] is_either(args[i], a, b)
}

/// The prefix of the client address argument, `-ip=`.
pub open spec fn ip_prefix() -> Seq<u8> {
    seq![45u8, 105u8, 112u8, 61u8]
}

/// The argument starts with `-ip=`.
pub open spec fn is_ip_arg(arg: Seq<u8>) -> bool {
    arg.len() >= 4 && arg.subrange(0, 4) == ip_prefix()
}

/// The index of the first `-ip=` argument from `i` on, or `args.len()`.
pub open spec fn first_ip_arg(args: Seq<Seq<u8>>, i: int) -> int
    decreases args.len() - i,
{
    if i >= args.len() || i < 0 {
        args.len() as int
    } else if is_ip_arg(args[i]) {
        i
    } else {
        first_ip_arg(args, i + 1)
    }
}

/// What the command line `args` asks for: help if `-h` or `--help` is
/// given; else the map demo if `-m` or `--mapdemo` is given; else, when
/// the first `-ip=` argument does not hold a number from 2 to 255, an
/// error; else the server if `-s` or `--server` is given; else a client
/// with the number of the first `-ip=` argument; else nothing.
pub open spec fn command_of(args: Seq<Seq<u8>>) -> Command {
    let k = first_ip_arg(args, 0);
    let digit = if k < args.len() {
        parse_u8_spec(args[k].subrange(4, args[k].len() as int))
    } else {
        None
    };
    if any_arg(args, seq![45u8, 104u8], seq![45u8, 45u8, 104u8, 101u8, 108u8, 112u8]) {
        Command::Help
    } else if any_arg(
        args,
        seq![45u8, 109u8],
        seq![45u8, 45u8, 109u8, 97u8, 112u8, 100u8, 101u8, 109u8, 111u8],
    ) {
        Command::MapDemo
    } else if k < args.len() && !(digit matches Some(d) && d >= 2) {
        Command::InvalidIpDigit
    } else if any_arg(args, seq![45u8, 115u8], seq![45u8, 45u8, 115u8, 101u8, 114u8, 118u8, 101u8, 114u8]) {
        Command::Server
    } else if k < args.len() {
        Command::Client(digit->0)
    } else {
        Command::NoMode
    }
}

/// Whether `a` and `b` hold the same bytes.
fn bytes_eq(a: &[u8], b: &[u8]) -> (r: bool)
    ensures
        r == (a@ == b@),
{
    if a.len() != b.len() {
        return false;
    }
    let mut i: usize = 0;
    while i < a.len()
        invariant
            0 <= i <= a@.len(),
            a@.len() == b@.len(),
            forall|k: int| 0 <= k < i ==> a@[k] == b@[k],
        decreases a@.len() - i,
    {
        if a[i] != b[i] {
            return false;
        }
        i = i + 1;
    }
    assert(a@ =~= b@);
    true
}

/// Whether some argument is `a` or `b` (see `any_arg`).
fn find_either(args: &Vec<Vec<u8>>, a: &[u8], b: &[u8]) -> (r: bool)
    ensures
        r == any_arg(args@.map_values(|v: Vec<u8>| v@), a@, b@),
{
    let ghost sargs = args@.map_values(|v: Vec<u8>| v@);
    let mut i: usize = 0;
    while i < args.len()
        invariant
            0 <= i <= args@.len(),
            sargs == args@.map_values(|v: Vec<u8>| v@),
            forall|k: int| 0 <= k < i ==> !#[trigger] is_either(sargs[k], a@, b@),
        decreases args@.len() - i,
    {
        let arg = args[i].as_slice();
        if bytes_eq(arg, a) || bytes_eq(arg, b) {
            assert(is_either(sargs[i as int], a@, b@));
            return true;
        }
        i = i + 1;
    }
    false
}

/// The decimal digits of `n`, most significant first, without leading
/// zeros (`0` for zero).
pub open spec fn decimal_text(n: nat) -> Seq<u8>
    decreases n,
{
    if n < 10 {
        seq![(48 + n) as u8]
    } else {
        decimal_text(n / 10).push((48 + n % 10) as u8)
    }
}

/// The decimal text of `n` is a non-empty run of digits that spells `n`.
proof fn lemma_decimal_text(n: nat)
    ensures
        decimal_text(n).len() > 0,
        all_digits(decimal_text(n)),
        digits_value(decimal_text(n)) == n,
        48 <= decimal_text(n)[0] <= 57,
    decreases n,
{
    if n < 10 {
        let t = decimal_text(n);
        assert(t.drop_last() =~= Seq::<u8>::empty());
        assert(digits_value(t.drop_last()) == 0);
        assert(t.last() == (48 + n) as u8);
        assert(((48 + n) as u8) - 48 == n);
        assert(digits_value(t) == 10 * digits_value(t.drop_last()) + (t.last() - 48) as nat);
    } else {
        lemma_decimal_text(n / 10);
        let d = decimal_text(n / 10);
        let t = decimal_text(n);
        assert(t.drop_last() =~= d);
        assert(t[0] == d[0]);
        assert(t.last() == (48 + n % 10) as u8);
        assert(digits_value(t) == 10 * digits_value(d) + (n % 10) as nat);
        assert(n == 10 * (n / 10) + n % 10);
        assert forall|i: int| 0 <= i < t.len() implies 48 <= #[trigger] t[i] <= 57 by {
            if i < d.len() {
                assert(t[i] == d[i]);
            }
        }
    }
}

/// The first argument from `i` on that starts with `-ip=` is the `k`-th
/// when none between them does.
proof fn lemma_first_ip_at(args: Seq<Seq<u8>>, i: int, k: int)
    requires
        0 <= i <= k < args.len(),
        is_ip_arg(args[k]),
        forall|j: int| i <= j < k ==> !is_ip_arg(#[trigger] args[j]),
    ensures
        first_ip_arg(args, i) == k,
    decreases k - i,
{
    if i < k {
        lemma_first_ip_at(args, i + 1, k);
    }
}

/// A client is started with the whole number written after `-ip=`: when
/// no argument asks for help, the map demo or the server, and the first
/// argument that starts with `-ip=` is `-ip=` followed by the decimal
/// digits of a number `n` from 2 to 255, the command line asks for client
/// `n`.
pub proof fn law_ip_argument(args: Seq<Seq<u8>>, k: int, n: nat)
    requires
        2 <= n <= 255,
        0 <= k < args.len(),
        args[k] == ip_prefix() + decimal_text(n),
        forall|j: int| 0 <= j < k ==> !(args[j].len() >= 4 && #[trigger] args[j].subrange(0, 4) == ip_prefix()),
        forall|j: int|
            0 <= j < args.len() ==> {
                let a = #[trigger] args[j];
                &&& a != seq![45u8, 104u8]
                &&& a != seq![45u8, 45u8, 104u8, 101u8, 108u8, 112u8]
                &&& a != seq![45u8, 109u8]
                &&& a != seq![45u8, 45u8, 109u8, 97u8, 112u8, 100u8, 101u8, 109u8, 111u8]
                &&& a != seq![45u8, 115u8]
                &&& a != seq![45u8, 45u8, 115u8, 101u8, 114u8, 118u8, 101u8, 114u8]
            },
    ensures
        command_of(args) == Command::Client(n as u8),
{
    lemma_decimal_text(n);
    let a = args[k];
    assert(a.subrange(0, 4) =~= ip_prefix());
    assert(a.subrange(4, a.len() as int) =~= decimal_text(n));
    assert forall|j: int| 0 <= j < k implies !is_ip_arg(#[trigger] args[j]) by {
        if args[j].len() >= 4 {
            assert(args[j].subrange(0, 4) != ip_prefix());
        }
    }
    lemma_first_ip_at(args, 0, k);
    assert(parse_u8_spec(decimal_text(n)) == Some(n as u8));
    assert(!any_arg(args, seq![45u8, 104u8], seq![45u8, 45u8, 104u8, 101u8, 108u8, 112u8]));
    assert(!any_arg(args, seq![45u8, 109u8], seq![45u8, 45u8, 109u8, 97u8, 112u8, 100u8, 101u8, 109u8, 111u8]));
    assert(!any_arg(args, seq![45u8, 115u8], seq![45u8, 45u8, 115u8, 101u8, 114u8, 118u8, 101u8, 114u8]));
}

/// A number outside 2 to 255 after `-ip=` is refused: when no argument
/// asks for help or the map demo, and the first argument that starts with
/// `-ip=` is `-ip=` followed by the decimal digits of a number `n` below 2
/// or above 255, the command line is an invalid client address.
pub proof fn law_ip_argument_refused(args: Seq<Seq<u8>>, k: int, n: nat)
    requires
        n < 2 || n > 255,
        0 <= k < args.len(),
        args[k] == ip_prefix() + decimal_text(n),
        forall|j: int| 0 <= j < k ==> !(args[j].len() >= 4 && #[trigger] args[j].subrange(0, 4) == ip_prefix()),
        forall|j: int|
            0 <= j < args.len() ==> {
                let a = #[trigger] args[j];
                &&& a != seq![45u8, 104u8]
                &&& a != seq![45u8, 45u8, 104u8, 101u8, 108u8, 112u8]
                &&& a != seq![45u8, 109u8]
                &&& a != seq![45u8, 45u8, 109u8, 97u8, 112u8, 100u8, 101u8, 109u8, 111u8]
            },
    ensures
        command_of(args) == Command::InvalidIpDigit,
{
    lemma_decimal_text(n);
    let a = args[k];
    assert(a.subrange(0, 4) =~= ip_prefix());
    assert(a.subrange(4, a.len() as int) =~= decimal_text(n));
    assert forall|j: int| 0 <= j < k implies !is_ip_arg(#[trigger] args[j]) by {
        if args[j].len() >= 4 {
            assert(args[j].subrange(0, 4) != ip_prefix());
        }
    }
    lemma_first_ip_at(args, 0, k);
    assert(!any_arg(args, seq![45u8, 104u8], seq![45u8, 45u8, 104u8, 101u8, 108u8, 112u8]));
    assert(!any_arg(args, seq![45u8, 109u8], seq![45u8, 45u8, 109u8, 97u8, 112u8, 100u8, 101u8, 109u8, 111u8]));
}

/// Reads the command line, one argument per entry (see `command_of`).
pub fn parse_args(args: &Vec<Vec<u8>>) -> (c: Command)
    ensures
        c == command_of(args@.map_values(|v: Vec<u8>| v@)),
{
    let ghost sargs = args@.map_values(|v: Vec<u8>| v@);
    let help_short: [u8; 2] = [45, 104];
    let help_long: [u8; 6] = [45, 45, 104, 101, 108, 112];
    let demo_short: [u8; 2] = [45, 109];
    let demo_long: [u8; 9] = [45, 45, 109, 97, 112, 100, 101, 109, 111];
    let server_short: [u8; 2] = [45, 115];
    let server_long: [u8; 8] = [45, 45, 115, 101, 114, 118, 101, 114];
    assert(help_short@ =~= seq![45u8, 104u8]);
    assert(help_long@ =~= seq![45u8, 45u8, 104u8, 101u8, 108u8, 112u8]);
    assert(demo_short@ =~= seq![45u8, 109u8]);
    assert(demo_long@ =~= seq![45u8, 45u8, 109u8, 97u8, 112u8, 100u8, 101u8, 109u8, 111u8]);
    assert(server_short@ =~= seq![45u8, 115u8]);
    assert(server_long@ =~= seq![45u8, 45u8, 115u8, 101u8, 114u8, 118u8, 101u8, 114u8]);
    if find_either(args, &help_short, &help_long) {
        return Command::Help;
    }
    if find_either(args, &demo_short, &demo_long) {
        return Command::MapDemo;
    }
    let mut k: usize = 0;
    let mut found = false;
    while k < args.len() && !found
        invariant
            0 <= k <= args@.len(),
            sargs == args@.map_values(|v: Vec<u8>| v@),
            found ==> k < args@.len() && is_ip_arg(sargs[k as int]),
            first_ip_arg(sargs, 0) == first_ip_arg(sargs, k as int),
        decreases args@.len() - k + (if found { 0int } else { 1int }),
    {
        let arg = args[k].as_slice();
        if arg.len() >= 4 && arg[0] == 45 && arg[1] == 105 && arg[2] == 112 && arg[3] == 61 {
            assert(arg@.subrange(0, 4) =~= ip_prefix());
            found = true;
        } else {
            assert(!is_ip_arg(sargs[k as int])) by {
                if sargs[k as int].len() >= 4 && sargs[k as int].subrange(0, 4) == ip_prefix() {
                    assert(sargs[k as int].subrange(0, 4)[0] == arg@[0]);
                    assert(sargs[k as int].subrange(0, 4)[1] == arg@[1]);
                    assert(sargs[k as int].subrange(0, 4)[2] == arg@[2]);
                    assert(sargs[k as int].subrange(0, 4)[3] == arg@[3]);
                }
            }
            k = k + 1;
        }
    }
    let mut digit: Option<u8> = None;
    if found {
        let arg = args[k].as_slice();
        let rest = &arg[4..arg.len()];
        assert(rest@ =~= sargs[k as int].subrange(4, sargs[k as int].len() as int));
        digit = parse_u8(rest);
        let valid = match digit {
            Some(d) => d >= 2,
            None => false,
        };
        if !valid {
            return Command::InvalidIpDigit;
        }
    }
    if find_either(args, &server_short, &server_long) {
        return Command::Server;
    }
    match digit {
        Some(d) => Command::Client(d),
        None => Command::NoMode,
    }
}

/// Handles one received message on `game`, as the game loop of client and
/// server does: a non-empty `MapData` replaces the map when the map can be drawn (see
/// `header_drawable`) and is ignored otherwise; a non-empty
/// `PlayerInput` sets the input of the sender's player; a non-empty
/// `GameStateUpdate` replaces the game state; a `Connect` adds the
/// sender's player at the tile chosen by the random numbers `r_x`, `r_y`;
/// a `Disconnect` removes the sender's player; anything else changes
/// nothing. The sender's player is the last number of its IPv4 address
/// (`sender_octet`), or 0 when it has none.
pub fn handle_network_message(
    game: &mut Game,
    msg_type: MessageType,
    data: &[u8],
    sender_octet: Option<u8>,
    r_x: usize,
    r_y: usize,
)
    requires
        old(game).inv(),
        msg_type == MessageType::MapData && data@.len() > 0 ==> is_map_data(data@),
        msg_type == MessageType::Connect ==> spawnable_map(old(game).game_state.map),
    ensures
        final(game).inv(),
        ({
            let id: usize = match sender_octet {
                Some(o) => o as usize,
                None => 0,
            };
            let (g0, g1) = (old(game).game_state, final(game).game_state);
            &&& (msg_type == MessageType::Connect ==> {
                &&& final(game).only_players_changed(old(game))
                &&& has_id(g1.players@, id)
                &&& (has_id(g0.players@, id) ==> g1.players@ == g0.players@)
                &&& (!has_id(g0.players@, id) ==> g1.players@.len() == g0.players@.len() + 1
                    && g1.players@.drop_last() == g0.players@ && g1.players@.last() == fresh_player(
                    id,
                    g1.players@.last().x,
                    g1.players@.last().y,
                ) && f64_holds_nat(
                    g1.players@.last().x,
                    spawn_coord(r_x as int, g0.map.tiles_x as int, g0.map.tile_size as int) as nat,
                ) && f64_holds_nat(
                    g1.players@.last().y,
                    spawn_coord(r_y as int, g0.map.tiles_y as int, g0.map.tile_size as int) as nat,
                ))
            })
            &&& (msg_type == MessageType::Disconnect ==> {
                &&& final(game).only_players_changed(old(game))
                &&& (!has_id(g0.players@, id) ==> g1.players@ == g0.players@)
                &&& (forall|i: int| is_first(g0.players@, id, i) ==> g1.players@ == g0.players@.remove(i))
            })
            &&& (msg_type == MessageType::PlayerInput && data@.len() > 0 ==> {
                &&& final(game).only_players_changed(old(game))
                &&& (!has_id(g0.players@, id) ==> g1.players@ == g0.players@)
                &&& (forall|i: int|
                    is_first(g0.players@, id, i) ==> g1.players@ == g0.players@.update(
                        i,
                        Player { user_input: UserInput::from_bytes(data@), ..g0.players@[i] },
                    ))
            })
            &&& (msg_type == MessageType::MapData && data@.len() > 0 && !header_drawable(data@) ==> *final(game)
                == *old(game))
            &&& (msg_type == MessageType::MapData && data@.len() > 0 && header_drawable(data@) ==> {
                &&& g1.map.size_x == header_field(data@, 0)
                &&& g1.map.size_y == header_field(data@, 1)
                &&& g1.map.tiles_x == header_field(data@, 2)
                &&& g1.map.tiles_y == header_field(data@, 3)
                &&& g1.map.tile_size == header_field(data@, 4)
                &&& g1.map.tiles@ == decoded_tiles(data@)
                &&& g1.players == g0.players
                &&& g1.bullets == g0.bullets
                &&& g1.current_player_index == g0.current_player_index
                &&& g1.last_tick == g0.last_tick
                &&& final(game).shows_map(g1.map)
            })
            &&& (msg_type == MessageType::GameStateUpdate && data@.len() > 0 ==> if is_state_data(data@)
                && header_drawable(data@) {
                &&& g1.map.tiles@ == decoded_tiles(data@)
                &&& g1.players@ == decoded_players(data@)
                &&& g1.bullets@ == decoded_bullets(data@)
                &&& g1.current_player_index == g0.current_player_index
                &&& g1.last_tick == g0.last_tick
                &&& final(game).shows_map(g1.map)
            } else {
                *final(game) == *old(game)
            })
            &&& ((msg_type == MessageType::MapRequest || msg_type == MessageType::GameState || data@.len() == 0
                && msg_type != MessageType::Connect && msg_type != MessageType::Disconnect) ==> *final(game)
                == *old(game))
        }),
{
    let id: usize = match sender_octet {
        Some(o) => o as usize,
        None => 0,
    };
    match msg_type {
        MessageType::MapData => {
            if data.len() > 0 && is_drawable_map_data(data) {
                game.deserialize_map(data);
            }
        },
        MessageType::PlayerInput => {
            if data.len() > 0 {
                game.deserialize_user_input(id, data);
            }
        },
        MessageType::GameStateUpdate => {
            if data.len() > 0 {
                let _ = game.deserialize_state(data);
            }
        },
        MessageType::Connect => {
            game.add_player(id, r_x, r_y);
        },
        MessageType::Disconnect => {
            game.remove_player(id);
        },
        _ => {},
    }
}

} // verus!
