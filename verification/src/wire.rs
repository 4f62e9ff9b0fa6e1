//! The JSON wire format: encoding of outbound updates and parsing of
//! inbound client actions.
//!
//! Outbound frames, with every number written in plain decimal:
//! - `{"type":"PlayerJoined","player":{"id":N,"health":H}}`
//! - `{"type":"PlayerDied","id":N}`
//! - `{"type":"WorldUpdate","players":{"N":{"id":N,"health":H},...}}`
//!
//! Inbound frames:
//! - `{"type":"HealSelf"}`
//! - `{"type":"AttackPlayer","target":N}`

use vstd::prelude::*;
use vstd::string::StringExecFns;
use vstd::string::StrSliceExecFns;
use crate::game::ClientMessage;
use crate::game::GameUpdate;
use crate::game::Player;
use crate::game::id_of;
use crate::game::make_player_id;

verus! {

/// The decimal digit character for `d` (meaningful for `d < 10`).
pub open spec fn digit_char(d: nat) -> char {
    if d == 0 {
        '0'
    } else if d == 1 {
        '1'
    } else if d == 2 {
        '2'
    } else if d == 3 {
        '3'
    } else if d == 4 {
        '4'
    } else if d == 5 {
        '5'
    } else if d == 6 {
        '6'
    } else if d == 7 {
        '7'
    } else if d == 8 {
        '8'
    } else {
        '9'
    }
}

/// The decimal digits of `n`, most significant first, with no leading
/// zeros (the number 0 is written as the single digit `0`).
pub open spec fn dec_digits(n: nat) -> Seq<char>
    decreases n,
{
    if n < 10 {
        seq![digit_char(n)]
    } else {
        dec_digits(n / 10).push(digit_char(n % 10))
    }
}

/// The JSON object for one player.
pub open spec fn json_player(p: Player) -> Seq<char> {
    "{\"id\":"@ + dec_digits(p.id.spec_val() as nat) + ",\"health\":"@ + dec_digits(
        p.health as nat,
    ) + "}"@
}

/// One key/value pair of the world snapshot object: the player keyed by
/// its id written as a decimal string.
pub open spec fn json_world_entry(p: Player) -> Seq<char> {
    "\""@ + dec_digits(p.id.spec_val() as nat) + "\":"@ + json_player(p)
}

/// The members of the world snapshot object, in registry order,
/// separated by commas.
pub open spec fn json_world_entries(players: Seq<Player>) -> Seq<char>
    decreases players.len(),
{
    if players.len() == 0 {
        Seq::empty()
    } else if players.len() == 1 {
        json_world_entry(players[0])
    } else {
        json_world_entries(players.drop_last()) + ","@ + json_world_entry(players.last())
    }
}

/// The JSON object mapping each player's id to its state, in registry
/// order.
pub open spec fn json_world(players: Seq<Player>) -> Seq<char> {
    "{"@ + json_world_entries(players) + "}"@
}

/// The JSON frame broadcast for an update.
pub open spec fn json_update(u: GameUpdate) -> Seq<char> {
    match u {
        GameUpdate::PlayerJoined { player } => "{\"type\":\"PlayerJoined\",\"player\":"@
            + json_player(player) + "}"@,
        GameUpdate::PlayerDied { id } => "{\"type\":\"PlayerDied\",\"id\":"@ + dec_digits(
            id.spec_val() as nat,
        ) + "}"@,
        GameUpdate::WorldUpdate { players } => "{\"type\":\"WorldUpdate\",\"players\":"@
            + json_world(players@) + "}"@,
    }
}

/// The one-character string for the decimal digit `d`.
fn digit_str(d: u64) -> (r: &'static str)
    requires
        d < 10,
    ensures
        r@ == seq![digit_char(d as nat)],
{
    let r: &'static str = if d == 0 {
        "0"
    } else if d == 1 {
        "1"
    } else if d == 2 {
        "2"
    } else if d == 3 {
        "3"
    } else if d == 4 {
        "4"
    } else if d == 5 {
        "5"
    } else if d == 6 {
        "6"
    } else if d == 7 {
        "7"
    } else if d == 8 {
        "8"
    } else {
        "9"
    };
    proof {
        reveal_strlit("0");
        reveal_strlit("1");
        reveal_strlit("2");
        reveal_strlit("3");
        reveal_strlit("4");
        reveal_strlit("5");
        reveal_strlit("6");
        reveal_strlit("7");
        reveal_strlit("8");
        reveal_strlit("9");
        assert(r@ =~= seq![digit_char(d as nat)]);
    }
    r
}

/// Appends the decimal digits of `n` to `out`.
fn push_u64(out: &mut String, n: u64)
    ensures
        final(out)@ == old(out)@ + dec_digits(n as nat),
    decreases n,
{
    if n >= 10 {
        push_u64(out, n / 10);
        out.append(digit_str(n % 10));
        proof {
            assert(out@ =~= old(out)@ + dec_digits(n as nat));
        }
    } else {
        out.append(digit_str(n));
        proof {
            assert(out@ =~= old(out)@ + dec_digits(n as nat));
        }
    }
}

/// Appends the JSON object for `p` to `out`.
fn push_player(out: &mut String, p: Player)
    ensures
        final(out)@ == old(out)@ + json_player(p),
{
    out.append("{\"id\":");
    push_u64(out, p.id.value());
    out.append(",\"health\":");
    push_u64(out, p.health as u64);
    out.append("}");
    proof {
        assert(dec_digits(p.health as u64 as nat) == dec_digits(p.health as nat));
        assert(out@ =~= old(out)@ + json_player(p));
    }
}

/// Appends one world snapshot member for `p` to `out`.
fn push_world_entry(out: &mut String, p: Player)
    ensures
        final(out)@ == old(out)@ + json_world_entry(p),
{
    out.append("\"");
    push_u64(out, p.id.value());
    out.append("\":");
    push_player(out, p);
    proof {
        assert(out@ =~= old(out)@ + json_world_entry(p));
    }
}

/// Encodes the world snapshot object for `players`.
pub fn encode_world(players: &Vec<Player>) -> (r: String)
    ensures
        r@ == json_world(players@),
{
    let mut out = String::new();
    out.append("{");
    let n = players.len();
    let mut i: usize = 0;
    while i < n
        invariant
            i <= n,
            n == players@.len(),
            out@ == "{"@ + json_world_entries(players@.take(i as int)),
        decreases n - i,
    {
        if i > 0 {
            out.append(",");
        }
        push_world_entry(&mut out, players[i]);
        proof {
            let taken = players@.take(i + 1 as int);
            assert(taken.drop_last() =~= players@.take(i as int));
            assert(taken.last() == players@[i as int]);
            if i == 0 {
                assert(taken.len() == 1);
                assert(taken[0] == players@[0]);
                assert(json_world_entries(taken) == json_world_entry(players@[0]));
                assert(out@ =~= "{"@ + json_world_entries(taken));
            } else {
                assert(json_world_entries(taken) == json_world_entries(players@.take(i as int))
                    + ","@ + json_world_entry(players@[i as int]));
                assert(out@ =~= "{"@ + json_world_entries(taken));
            }
        }
        i += 1;
    }
    out.append("}");
    proof {
        assert(players@.take(n as int) =~= players@);
        assert(out@ =~= json_world(players@));
    }
    out
}

/// Is `c` a decimal digit?
pub open spec fn is_digit(c: char) -> bool {
    48 <= c as u32 <= 57
}

/// The value of the decimal digit `c`.
pub open spec fn digit_val(c: char) -> nat {
    (c as u32 - 48) as nat
}

/// The number the digit characters of `s` spell, most significant
/// first.
pub open spec fn digits_val(s: Seq<char>) -> nat
    decreases s.len(),
{
    if s.len() == 0 {
        0
    } else {
        digits_val(s.drop_last()) * 10 + digit_val(s.last())
    }
}

/// Is `s` the canonical decimal spelling of a number that fits in
/// `u64`: at least one digit, no leading zero, value within bounds?
pub open spec fn valid_u64_digits(s: Seq<char>) -> bool {
    &&& s.len() > 0
    &&& forall|i: int| 0 <= i < s.len() ==> is_digit(#[trigger] s[i])
    &&& (s[0] != '0' || s.len() == 1)
    &&& digits_val(s) <= u64::MAX as nat
}

/// The frame asking to heal the sender.
pub open spec fn heal_frame() -> Seq<char> {
    "{\"type\":\"HealSelf\"}"@
}

/// Everything before the target number in an attack frame.
pub open spec fn attack_prefix() -> Seq<char> {
    "{\"type\":\"AttackPlayer\",\"target\":"@
}

/// What an inbound frame means: the heal frame, or an attack frame
/// carrying its target's identifier in canonical decimal, or nothing.
/// A frame that means nothing is malformed and is dropped by the
/// session without closing the connection.
pub open spec fn parse_msg(s: Seq<char>) -> Option<ClientMessage> {
    if s == heal_frame() {
        Some(ClientMessage::HealSelf)
    } else if s.len() > attack_prefix().len() + 1 && s.take(attack_prefix().len() as int)
        == attack_prefix() && s.last() == '}' && valid_u64_digits(
        s.subrange(attack_prefix().len() as int, s.len() - 1),
    ) {
        Some(
            ClientMessage::AttackPlayer {
                target: id_of(
                    digits_val(s.subrange(attack_prefix().len() as int, s.len() - 1)) as u64,
                ),
            },
        )
    } else {
        None
    }
}

/// The number a digit sequence spells never shrinks as digits are
/// appended.
proof fn lemma_digits_val_monotone(s: Seq<char>, k: int)
    requires
        0 <= k <= s.len(),
    ensures
        digits_val(s) >= digits_val(s.take(k)),
    decreases s.len() - k,
{
    if k == s.len() {
        assert(s.take(k) =~= s);
    } else {
        lemma_digits_val_monotone(s, k + 1);
        assert(s.take(k + 1).drop_last() =~= s.take(k));
        assert(digits_val(s.take(k + 1)) == digits_val(s.take(k)) * 10 + digit_val(s[k]));
    }
}

/// Do two strings hold the same characters?
fn str_eq(a: &str, b: &str) -> (r: bool)
    ensures
        r == (a@ == b@),
{
    let na = a.unicode_len();
    let nb = b.unicode_len();
    if na != nb {
        return false;
    }
    let mut i: usize = 0;
    while i < na
        invariant
            i <= na,
            na as nat == a@.len(),
            na as nat == b@.len(),
            forall|k: int| 0 <= k < i ==> a@[k] == b@[k],
        decreases na - i,
    {
        if a.get_char(i) != b.get_char(i) {
            return false;
        }
        i += 1;
    }
    proof {
        assert(a@ =~= b@);
    }
    true
}

/// Do the first `p@.len()` characters of `a` spell `p`?
fn str_prefix_eq(a: &str, p: &str) -> (r: bool)
    requires
        p@.len() <= a@.len(),
    ensures
        r == (a@.take(p@.len() as int) == p@),
{
    let np = p.unicode_len();
    let mut i: usize = 0;
    while i < np
        invariant
            i <= np,
            np as nat == p@.len(),
            p@.len() <= a@.len(),
            forall|k: int| 0 <= k < i ==> a@[k] == p@[k],
        decreases np - i,
    {
        if a.get_char(i) != p.get_char(i) {
            proof {
                assert(a@.take(np as int)[i as int] != p@[i as int]);
            }
            return false;
        }
        i += 1;
    }
    proof {
        assert(a@.take(np as int) =~= p@);
    }
    true
}

/// Parses one inbound frame. Returns the message the frame spells, or
/// `None` for a malformed frame, exactly as `parse_msg` says.
#[verifier::loop_isolation(false)]
pub fn parse_client_message(frame: &str) -> (r: Option<ClientMessage>)
    ensures
        r == parse_msg(frame@),
{
    proof {
        reveal_strlit("{\"type\":\"HealSelf\"}");
        reveal_strlit("{\"type\":\"AttackPlayer\",\"target\":");
        assert(attack_prefix().len() == 32);
    }
    if str_eq(frame, "{\"type\":\"HealSelf\"}") {
        return Some(ClientMessage::HealSelf);
    }
    let n = frame.unicode_len();
    if n < 34 {
        return None;
    }
    if !str_prefix_eq(frame, "{\"type\":\"AttackPlayer\",\"target\":") {
        return None;
    }
    if frame.get_char(n - 1) != '}' {
        return None;
    }
    let ghost digits = frame@.subrange(32, frame@.len() - 1);
    // Reject a leading zero unless the number is the single digit 0.
    let c0 = frame.get_char(32);
    if c0 == '0' && n > 34 {
        proof {
            assert(digits[0] == '0' && digits.len() > 1);
        }
        return None;
    }
    let mut val: u64 = 0;
    let mut i: usize = 32;
    while i < n - 1
        invariant
            32 <= i <= n - 1,
            n as nat == frame@.len(),
            34 <= n,
            digits == frame@.subrange(32, frame@.len() - 1),
            forall|k: int| 0 <= k < i - 32 ==> is_digit(#[trigger] digits[k]),
            val as nat == digits_val(digits.take(i - 32)),
        decreases n - i,
    {
        let c = frame.get_char(i);
        let u = c as u32;
        if u < 48 || u > 57 {
            proof {
                assert(digits[i - 32] == frame@[i as int]);
                assert(!is_digit(digits[i - 32]));
            }
            return None;
        }
        let d = (u - 48) as u64;
        if val > (u64::MAX - d) / 10 {
            proof {
                let t = digits.take(i - 32 + 1);
                assert(t.drop_last() =~= digits.take(i - 32));
                assert(t.last() == digits[i - 32]);
                assert(digits[i - 32] == frame@[i as int]);
                assert(digits_val(t) == (val as nat) * 10 + digit_val(frame@[i as int]));
                let cap = ((u64::MAX - d) / 10) as nat;
                assert((u64::MAX - d) as nat == cap * 10 + ((u64::MAX - d) as nat % 10));
                assert((val as nat) * 10 >= (cap + 1) * 10) by (nonlinear_arith)
                    requires
                        val as nat >= cap + 1,
                ;
                assert(digits_val(t) > u64::MAX as nat);
                lemma_digits_val_monotone(digits, i - 32 + 1);
                assert(digits_val(digits) > u64::MAX as nat);
                assert(!valid_u64_digits(digits));
            }
            return None;
        }
        proof {
            let t = digits.take(i - 32 + 1);
            assert(t.drop_last() =~= digits.take(i - 32));
            assert(t.last() == digits[i - 32]);
            assert(digits[i - 32] == frame@[i as int]);
            let cap = ((u64::MAX - d) / 10) as nat;
            assert((u64::MAX - d) as nat == cap * 10 + ((u64::MAX - d) as nat % 10));
            assert((val as nat) * 10 <= cap * 10) by (nonlinear_arith)
                requires
                    val as nat <= cap,
            ;
        }
        val = val * 10 + d;
        i += 1;
    }
    proof {
        assert(digits.take(i - 32) =~= digits);
        assert(valid_u64_digits(digits)) by {
            assert(digits.len() > 0);
            assert(digits[0] == frame@[32]);
            if digits[0] == '0' && digits.len() > 1 {
                assert(false);
            }
        }
        assert(frame@.take(32) == attack_prefix());
        assert(frame@.last() == '}');
        assert(parse_msg(frame@) == Some(
            ClientMessage::AttackPlayer { target: id_of(digits_val(digits) as u64) },
        ));
    }
    Some(ClientMessage::AttackPlayer { target: make_player_id(val) })
}

/// Encodes the JSON frame for `u`.
pub fn encode_update(u: &GameUpdate) -> (r: String)
    ensures
        r@ == json_update(*u),
{
    let mut out = String::new();
    match u {
        GameUpdate::PlayerJoined { player } => {
            out.append("{\"type\":\"PlayerJoined\",\"player\":");
            push_player(&mut out, *player);
            out.append("}");
        },
        GameUpdate::PlayerDied { id } => {
            out.append("{\"type\":\"PlayerDied\",\"id\":");
            push_u64(&mut out, id.value());
            out.append("}");
        },
        GameUpdate::WorldUpdate { players } => {
            out.append("{\"type\":\"WorldUpdate\",\"players\":");
            let world = encode_world(players);
            out.append(world.as_str());
            out.append("}");
        },
    }
    proof {
        assert(out@ =~= json_update(*u));
    }
    out
}

} // verus!
