//! The session coordinator: the single authoritative owner of all player
//! state. It processes connect / disconnect / action / tick events one at
//! a time, computes the state transition, and fans the resulting updates
//! out to every registered client over its outbound channel.
//!
//! Policy for disconnects: a disconnect removes the player's state
//! together with its outbound channel, so a stray action that races with
//! the disconnect finds no live player and is ignored. Disconnection is a
//! removal path distinct from death: it broadcasts nothing.

use vstd::prelude::*;
use futures::channel::mpsc::Sender;
use crate::outbound::try_send_frame;
use crate::wire;

verus! {

/// Health every player starts with when it connects.
pub const START_HEALTH: u32 = 10;

/// Opaque unique identifier of a player. Identifiers are issued
/// monotonically by the coordinator and are never reused within a
/// process lifetime.
#[derive(Debug, Clone, Copy, PartialEq, Eq, PartialOrd, Ord, Hash, Structural)]
pub struct PlayerId(pub(crate) u64);

impl PlayerId {
    /// The number behind the identifier, for specification purposes.
    pub closed spec fn spec_val(self) -> u64 {
        self.0
    }

    /// The number behind the identifier.
    pub fn value(&self) -> (r: u64)
        ensures
            r == self.spec_val(),
    {
        self.0
    }
}

/// The identifier whose numeric value is `v`.
pub closed spec fn id_of(v: u64) -> PlayerId {
    PlayerId(v)
}

/// Builds the identifier with numeric value `v` (for the wire decoder;
/// identifiers otherwise only ever come out of `next_player_id`).
pub(crate) fn make_player_id(v: u64) -> (r: PlayerId)
    ensures
        r == id_of(v),
{
    PlayerId(v)
}

/// `id_of` and `spec_val` are inverse to each other, so identifiers are
/// in one-to-one correspondence with their numeric values.
pub proof fn lemma_id_val(v: u64, id: PlayerId)
    ensures
        id_of(v).spec_val() == v,
        id.spec_val() == v ==> id == id_of(v),
{
}

/// State of one live player.
#[derive(Debug, Clone, Copy, PartialEq, Eq, Structural)]
pub struct Player {
    pub id: PlayerId,
    /// Current health; a live player always has health at least 1, since
    /// a player whose health reaches 0 is removed at once.
    pub health: u32,
}

/// An inbound action a client can ask the coordinator to apply.
#[derive(Debug, Clone, Copy, PartialEq, Eq, Structural)]
pub enum ClientMessage {
    HealSelf,
    AttackPlayer { target: PlayerId },
}

/// An update broadcast to every registered client after a state change.
#[derive(Debug, PartialEq)]
pub enum GameUpdate {
    PlayerJoined { player: Player },
    PlayerDied { id: PlayerId },
    WorldUpdate { players: Vec<Player> },
}

/// Does `u` announce that `id` died?
pub open spec fn is_died(u: GameUpdate, id: PlayerId) -> bool {
    match u {
        GameUpdate::PlayerDied { id: died } => died == id,
        _ => false,
    }
}

/// Does `u` carry a snapshot equal to `players`?
pub open spec fn is_world(u: GameUpdate, players: Seq<Player>) -> bool {
    match u {
        GameUpdate::WorldUpdate { players: snapshot } => snapshot@ == players,
        _ => false,
    }
}

// ---------------------------------------------------------------------
// The mathematical model of the coordinator state.
// ---------------------------------------------------------------------

/// The registries and the id counter, as the contracts see them:
/// the player registry and the client registry in registry order, and
/// the numeric value the next issued identifier will carry.
#[verifier::ext_equal]
pub ghost struct GameState {
    pub players: Seq<Player>,
    pub clients: Seq<PlayerId>,
    pub next_id: int,
}

/// No two live players share an identifier.
pub open spec fn ids_unique(players: Seq<Player>) -> bool {
    forall|i: int, j: int|
        0 <= i < j < players.len() ==> players[i].id != players[j].id
}

/// No identifier is registered twice in the client registry.
pub open spec fn clients_unique(clients: Seq<PlayerId>) -> bool {
    forall|i: int, j: int| 0 <= i < j < clients.len() ==> clients[i] != clients[j]
}

impl GameState {
    /// Well-formedness: registry keys are unique, every key was issued
    /// (its value is below the id counter), and every live player has
    /// health at least 1.
    pub open spec fn wf(self) -> bool {
        &&& ids_unique(self.players)
        &&& clients_unique(self.clients)
        &&& forall|i: int|
            0 <= i < self.players.len() ==> (#[trigger] self.players[i]).health >= 1
        &&& forall|i: int|
            0 <= i < self.players.len() ==> (#[trigger] self.players[i]).id.spec_val()
                < self.next_id
        &&& forall|i: int|
            0 <= i < self.clients.len() ==> (#[trigger] self.clients[i]).spec_val() < self.next_id
        &&& 0 <= self.next_id <= u64::MAX
    }
}

/// The coordinator state before any client has connected.
pub open spec fn empty_state() -> GameState {
    GameState { players: Seq::empty(), clients: Seq::empty(), next_id: 0 }
}

/// The (last) player with identifier `id`, if one is live. Under
/// `ids_unique` it is the only one.
pub open spec fn find_player(players: Seq<Player>, id: PlayerId) -> Option<Player>
    decreases players.len(),
{
    if players.len() == 0 {
        None
    } else if players.last().id == id {
        Some(players.last())
    } else {
        find_player(players.drop_last(), id)
    }
}

/// The registry with the player's health incremented by 1, saturating at
/// the machine bound; other players unchanged.
pub open spec fn heal_players(players: Seq<Player>, id: PlayerId) -> Seq<Player>
    decreases players.len(),
{
    if players.len() == 0 {
        Seq::empty()
    } else {
        heal_players(players.drop_last(), id).push(
            if players.last().id == id {
                bump_heal(players.last())
            } else {
                players.last()
            },
        )
    }
}

/// One heal applied to a player.
pub open spec fn bump_heal(p: Player) -> Player {
    Player {
        id: p.id,
        health: if p.health < u32::MAX {
            (p.health + 1) as u32
        } else {
            u32::MAX
        },
    }
}

/// The registry with the player's health decremented by 1 (never below
/// 0); other players unchanged.
pub open spec fn hurt_players(players: Seq<Player>, id: PlayerId) -> Seq<Player>
    decreases players.len(),
{
    if players.len() == 0 {
        Seq::empty()
    } else {
        hurt_players(players.drop_last(), id).push(
            if players.last().id == id {
                bump_hurt(players.last())
            } else {
                players.last()
            },
        )
    }
}

/// One point of damage applied to a player.
pub open spec fn bump_hurt(p: Player) -> Player {
    Player {
        id: p.id,
        health: if p.health >= 1 {
            (p.health - 1) as u32
        } else {
            0
        },
    }
}

/// The registry without any player carrying `id`, order otherwise kept.
pub open spec fn remove_id(players: Seq<Player>, id: PlayerId) -> Seq<Player>
    decreases players.len(),
{
    if players.len() == 0 {
        Seq::empty()
    } else if players.last().id == id {
        remove_id(players.drop_last(), id)
    } else {
        remove_id(players.drop_last(), id).push(players.last())
    }
}

/// The client registry without `id`, order otherwise kept.
pub open spec fn remove_client(clients: Seq<PlayerId>, id: PlayerId) -> Seq<PlayerId>
    decreases clients.len(),
{
    if clients.len() == 0 {
        Seq::empty()
    } else if clients.last() == id {
        remove_client(clients.drop_last(), id)
    } else {
        remove_client(clients.drop_last(), id).push(clients.last())
    }
}

/// The players that survive one tick, each with its health decremented
/// by 1, in registry order.
pub open spec fn tick_players(players: Seq<Player>) -> Seq<Player>
    decreases players.len(),
{
    if players.len() == 0 {
        Seq::empty()
    } else {
        let rest = tick_players(players.drop_last());
        let p = players.last();
        if p.health > 1 {
            rest.push(Player { id: p.id, health: (p.health - 1) as u32 })
        } else {
            rest
        }
    }
}

/// The players one tick removes (pre-tick health at most 1), in registry
/// order.
pub open spec fn tick_deaths(players: Seq<Player>) -> Seq<PlayerId>
    decreases players.len(),
{
    if players.len() == 0 {
        Seq::empty()
    } else {
        let rest = tick_deaths(players.drop_last());
        let p = players.last();
        if p.health <= 1 {
            rest.push(p.id)
        } else {
            rest
        }
    }
}

/// The player a connect with counter value `v` creates.
pub open spec fn spawned_player(v: u64) -> Player {
    Player { id: id_of(v), health: START_HEALTH }
}

/// The state transition of a connect: a fresh player with the starting
/// health joins both registries and the counter advances.
pub open spec fn connect_t(s: GameState) -> GameState {
    GameState {
        players: s.players.push(spawned_player(s.next_id as u64)),
        clients: s.clients.push(id_of(s.next_id as u64)),
        next_id: s.next_id + 1,
    }
}

/// The state transition of a disconnect: the player leaves both
/// registries; nothing is broadcast and the counter does not move.
pub open spec fn disconnect_t(s: GameState, id: PlayerId) -> GameState {
    GameState {
        players: remove_id(s.players, id),
        clients: remove_client(s.clients, id),
        next_id: s.next_id,
    }
}

/// The state transition of a client action. An action whose sender is
/// not a live player is ignored; an attack on a target that is not live
/// changes nothing; an attack that brings the target's health to 0
/// removes it.
pub open spec fn action_t(s: GameState, actor: PlayerId, message: ClientMessage) -> GameState {
    if find_player(s.players, actor) is None {
        s
    } else {
        match message {
            ClientMessage::HealSelf => GameState {
                players: heal_players(s.players, actor),
                ..s
            },
            ClientMessage::AttackPlayer { target } => {
                match find_player(s.players, target) {
                    Option::None => s,
                    Option::Some(t) => {
                        if t.health > 1 {
                            GameState { players: hurt_players(s.players, target), ..s }
                        } else {
                            GameState { players: remove_id(s.players, target), ..s }
                        }
                    },
                }
            },
        }
    }
}

/// Is the action broadcast at all? Only when its sender is a live
/// player.
pub open spec fn action_applies(players: Seq<Player>, actor: PlayerId) -> bool {
    find_player(players, actor) is Some
}

/// The deaths an action causes, in broadcast order: at most the attack
/// target, when the attack brings its health to 0.
pub open spec fn action_deaths(
    players: Seq<Player>,
    actor: PlayerId,
    message: ClientMessage,
) -> Seq<PlayerId> {
    if find_player(players, actor) is None {
        Seq::empty()
    } else {
        match message {
            ClientMessage::HealSelf => Seq::empty(),
            ClientMessage::AttackPlayer { target } => {
                match find_player(players, target) {
                    Option::Some(t) => if t.health <= 1 {
                        seq![target]
                    } else {
                        Seq::empty()
                    },
                    Option::None => Seq::empty(),
                }
            },
        }
    }
}

/// The state transition of one tick: every live player's health drops by
/// 1 and the players whose pre-tick health was at most 1 leave the
/// registry.
pub open spec fn tick_t(s: GameState) -> GameState {
    GameState { players: tick_players(s.players), clients: s.clients, next_id: s.next_id }
}

// ---------------------------------------------------------------------
// Supporting lemmas about the transitions.
// ---------------------------------------------------------------------

/// A registry holds a player with `id` exactly when some index carries
/// it.
pub proof fn lemma_find_absent(players: Seq<Player>, id: PlayerId)
    ensures
        (find_player(players, id) is None) <==> (forall|i: int|
            0 <= i < players.len() ==> (#[trigger] players[i]).id != id),
    decreases players.len(),
{
    if players.len() > 0 {
        lemma_find_absent(players.drop_last(), id);
        assert(forall|i: int|
            0 <= i < players.len() - 1 ==> players.drop_last()[i] == #[trigger] players[i]);
        assert(players.last() == players[players.len() - 1]);
    }
}

/// Under unique identifiers, the player found for `id` is the one at any
/// index carrying `id`.
pub proof fn lemma_find_at(players: Seq<Player>, j: int, id: PlayerId)
    requires
        ids_unique(players),
        0 <= j < players.len(),
        players[j].id == id,
    ensures
        find_player(players, id) == Some(players[j]),
    decreases players.len(),
{
    if j == players.len() - 1 {
        assert(players.last().id == id);
    } else {
        assert(players.last().id != id);
        assert(players.drop_last()[j] == players[j]);
        assert(ids_unique(players.drop_last())) by {
            assert(forall|i: int|
                0 <= i < players.len() - 1 ==> players.drop_last()[i] == #[trigger] players[i]);
        }
        lemma_find_at(players.drop_last(), j, id);
    }
}

/// Healing changes exactly the matching player, by one saturating
/// increment.
pub proof fn lemma_heal_index(players: Seq<Player>, id: PlayerId)
    ensures
        heal_players(players, id).len() == players.len(),
        forall|i: int|
            0 <= i < players.len() ==> #[trigger] heal_players(players, id)[i] == (
            if players[i].id == id {
                bump_heal(players[i])
            } else {
                players[i]
            }),
    decreases players.len(),
{
    if players.len() > 0 {
        lemma_heal_index(players.drop_last(), id);
        assert(forall|i: int|
            0 <= i < players.len() - 1 ==> players.drop_last()[i] == #[trigger] players[i]);
        assert(players.last() == players[players.len() - 1]);
    }
}

/// An attack that does not kill changes exactly the matching player, by
/// one decrement.
pub proof fn lemma_hurt_index(players: Seq<Player>, id: PlayerId)
    ensures
        hurt_players(players, id).len() == players.len(),
        forall|i: int|
            0 <= i < players.len() ==> #[trigger] hurt_players(players, id)[i] == (
            if players[i].id == id {
                bump_hurt(players[i])
            } else {
                players[i]
            }),
    decreases players.len(),
{
    if players.len() > 0 {
        lemma_hurt_index(players.drop_last(), id);
        assert(forall|i: int|
            0 <= i < players.len() - 1 ==> players.drop_last()[i] == #[trigger] players[i]);
        assert(players.last() == players[players.len() - 1]);
    }
}

/// Removing an identifier that no player carries changes nothing.
pub proof fn lemma_remove_id_absent(players: Seq<Player>, id: PlayerId)
    requires
        forall|i: int| 0 <= i < players.len() ==> (#[trigger] players[i]).id != id,
    ensures
        remove_id(players, id) == players,
    decreases players.len(),
{
    if players.len() > 0 {
        assert(forall|i: int|
            0 <= i < players.len() - 1 ==> players.drop_last()[i] == #[trigger] players[i]);
        lemma_remove_id_absent(players.drop_last(), id);
        assert(players.last() == players[players.len() - 1]);
        assert(remove_id(players, id) =~= players);
    } else {
        assert(remove_id(players, id) =~= players);
    }
}

/// When exactly the player at index `j` carries `id`, removing `id`
/// removes exactly that index.
pub proof fn lemma_remove_id_at(players: Seq<Player>, j: int, id: PlayerId)
    requires
        0 <= j < players.len(),
        players[j].id == id,
        forall|i: int|
            0 <= i < players.len() && i != j ==> (#[trigger] players[i]).id != id,
    ensures
        remove_id(players, id) == players.remove(j),
    decreases players.len(),
{
    assert(players.last() == players[players.len() - 1]);
    assert(forall|i: int|
        0 <= i < players.len() - 1 ==> players.drop_last()[i] == #[trigger] players[i]);
    if j == players.len() - 1 {
        lemma_remove_id_absent(players.drop_last(), id);
        assert(players.remove(j) =~= players.drop_last());
    } else {
        lemma_remove_id_at(players.drop_last(), j, id);
        assert(remove_id(players, id) =~= players.remove(j));
    }
}

/// Removing an identifier twice is the same as removing it once.
pub proof fn lemma_remove_id_idem(players: Seq<Player>, id: PlayerId)
    ensures
        remove_id(remove_id(players, id), id) == remove_id(players, id),
    decreases players.len(),
{
    lemma_remove_id_no_match(players, id);
    lemma_remove_id_absent(remove_id(players, id), id);
}

/// No player of the shrunken registry carries the removed identifier,
/// and every one of them comes from the original registry.
pub proof fn lemma_remove_id_no_match(players: Seq<Player>, id: PlayerId)
    ensures
        forall|i: int|
            0 <= i < remove_id(players, id).len() ==> (#[trigger] remove_id(players, id)[i]).id
                != id,
        forall|i: int|
            0 <= i < remove_id(players, id).len() ==> players.contains(
                #[trigger] remove_id(players, id)[i],
            ),
    decreases players.len(),
{
    if players.len() > 0 {
        lemma_remove_id_no_match(players.drop_last(), id);
        let r = remove_id(players, id);
        let rr = remove_id(players.drop_last(), id);
        assert(forall|i: int|
            0 <= i < players.len() - 1 ==> players.drop_last()[i] == #[trigger] players[i]);
        assert(forall|p: Player| players.drop_last().contains(p) ==> players.contains(p)) by {
            assert(forall|i: int|
                0 <= i < players.len() - 1 ==> players.drop_last()[i] == #[trigger] players[i]);
        }
        if players.last().id == id {
            assert(r == rr);
        } else {
            assert(r == rr.push(players.last()));
            assert(players.contains(players.last())) by {
                assert(players[players.len() - 1] == players.last());
            }
            assert(forall|i: int| 0 <= i < rr.len() ==> #[trigger] r[i] == rr[i]);
            assert(r[r.len() - 1] == players.last());
        }
    }
}

/// Removing an identifier that is not registered changes nothing.
pub proof fn lemma_remove_client_absent(clients: Seq<PlayerId>, id: PlayerId)
    requires
        forall|i: int| 0 <= i < clients.len() ==> #[trigger] clients[i] != id,
    ensures
        remove_client(clients, id) == clients,
    decreases clients.len(),
{
    if clients.len() > 0 {
        assert(forall|i: int|
            0 <= i < clients.len() - 1 ==> clients.drop_last()[i] == #[trigger] clients[i]);
        lemma_remove_client_absent(clients.drop_last(), id);
        assert(clients.last() == clients[clients.len() - 1]);
        assert(remove_client(clients, id) =~= clients);
    } else {
        assert(remove_client(clients, id) =~= clients);
    }
}

/// When exactly the entry at index `j` is `id`, removing `id` removes
/// exactly that index.
pub proof fn lemma_remove_client_at(clients: Seq<PlayerId>, j: int, id: PlayerId)
    requires
        0 <= j < clients.len(),
        clients[j] == id,
        forall|i: int| 0 <= i < clients.len() && i != j ==> #[trigger] clients[i] != id,
    ensures
        remove_client(clients, id) == clients.remove(j),
    decreases clients.len(),
{
    assert(clients.last() == clients[clients.len() - 1]);
    assert(forall|i: int|
        0 <= i < clients.len() - 1 ==> clients.drop_last()[i] == #[trigger] clients[i]);
    if j == clients.len() - 1 {
        lemma_remove_client_absent(clients.drop_last(), id);
        assert(clients.remove(j) =~= clients.drop_last());
    } else {
        lemma_remove_client_at(clients.drop_last(), j, id);
        assert(remove_client(clients, id) =~= clients.remove(j));
    }
}

/// No entry of the shrunken client registry is the removed identifier,
/// and every one of them comes from the original registry.
pub proof fn lemma_remove_client_no_match(clients: Seq<PlayerId>, id: PlayerId)
    ensures
        forall|i: int|
            0 <= i < remove_client(clients, id).len() ==> #[trigger] remove_client(clients, id)[i]
                != id,
        forall|i: int|
            0 <= i < remove_client(clients, id).len() ==> clients.contains(
                #[trigger] remove_client(clients, id)[i],
            ),
    decreases clients.len(),
{
    if clients.len() > 0 {
        lemma_remove_client_no_match(clients.drop_last(), id);
        let r = remove_client(clients, id);
        let rr = remove_client(clients.drop_last(), id);
        assert(forall|i: int|
            0 <= i < clients.len() - 1 ==> clients.drop_last()[i] == #[trigger] clients[i]);
        if clients.last() == id {
            assert(r == rr);
        } else {
            assert(r == rr.push(clients.last()));
            assert(clients[clients.len() - 1] == clients.last());
            assert(forall|i: int| 0 <= i < rr.len() ==> #[trigger] r[i] == rr[i]);
            assert(r[r.len() - 1] == clients.last());
        }
    }
}

/// Removing a client twice is the same as removing it once.
pub proof fn lemma_remove_client_idem(clients: Seq<PlayerId>, id: PlayerId)
    ensures
        remove_client(remove_client(clients, id), id) == remove_client(clients, id),
{
    lemma_remove_client_no_match(clients, id);
    lemma_remove_client_absent(remove_client(clients, id), id);
}

/// What a lookup finds after one tick: the same player with one point of
/// health less, or nothing when the pre-tick health was at most 1.
pub open spec fn ticked_lookup(players: Seq<Player>, x: PlayerId) -> Option<Player> {
    match find_player(players, x) {
        Option::Some(p) => {
            if p.health > 1 {
                Some(Player { id: p.id, health: (p.health - 1) as u32 })
            } else {
                None
            }
        },
        Option::None => None,
    }
}

// ---------------------------------------------------------------------
// The laws the coordinator obeys.
// ---------------------------------------------------------------------

/// One tick decreases every live player's health by exactly 1 and
/// removes exactly those players whose pre-tick health was at most 1;
/// identifiers stay unique and every survivor comes from a live player.
pub proof fn lemma_tick_effect(players: Seq<Player>)
    requires
        ids_unique(players),
    ensures
        tick_players(players).len() + tick_deaths(players).len() == players.len(),
        forall|x: PlayerId|
            #[trigger] find_player(tick_players(players), x) == ticked_lookup(players, x),
        ids_unique(tick_players(players)),
        forall|p: Player|
            #[trigger] tick_players(players).contains(p) ==> exists|q: Player|
                players.contains(q) && q.health > 1 && p == (Player {
                    id: q.id,
                    health: (q.health - 1) as u32,
                }),
        forall|x: PlayerId|
            #[trigger] tick_deaths(players).contains(x) <==> (find_player(players, x) matches Some(
                p,
            ) && p.health <= 1),
    decreases players.len(),
{
    if players.len() > 0 {
        let prev = players.drop_last();
        let p = players.last();
        assert(forall|i: int| 0 <= i < prev.len() ==> prev[i] == #[trigger] players[i]);
        assert(p == players[players.len() - 1]);
        assert(ids_unique(prev));
        lemma_tick_effect(prev);
        assert(forall|q: Player| prev.contains(q) ==> players.contains(q)) by {
            assert(forall|i: int| 0 <= i < prev.len() ==> prev[i] == #[trigger] players[i]);
        }
        // The last player's identifier occurs nowhere earlier.
        assert(forall|i: int| 0 <= i < prev.len() ==> (#[trigger] prev[i]).id != p.id);
        lemma_find_absent(prev, p.id);
        let rest = tick_players(prev);
        let r = tick_players(players);
        let drest = tick_deaths(prev);
        let d = tick_deaths(players);
        // No survivor of the rest carries the last player's identifier.
        assert forall|i: int| 0 <= i < rest.len() implies (#[trigger] rest[i]).id != p.id by {
            assert(rest.contains(rest[i]));
            let q = choose|q: Player|
                prev.contains(q) && q.health > 1 && rest[i] == (Player {
                    id: q.id,
                    health: (q.health - 1) as u32,
                });
            let k = choose|k: int| 0 <= k < prev.len() && prev[k] == q;
            assert(players[k].id == rest[i].id);
        }
        if p.health > 1 {
            let dec_p = Player { id: p.id, health: (p.health - 1) as u32 };
            assert(r == rest.push(dec_p));
            assert(d == drest);
            assert(r.drop_last() =~= rest);
            assert(r.last() == dec_p);
            // Lookups after the tick.
            assert forall|x: PlayerId| #[trigger] find_player(r, x) == ticked_lookup(players, x)
            by {
                if x == p.id {
                    assert(find_player(players, x) == Some(p));
                    assert(find_player(r, x) == Some(dec_p));
                } else {
                    assert(find_player(r, x) == find_player(rest, x));
                    assert(find_player(players, x) == find_player(prev, x));
                }
            }
            // Uniqueness of the survivors.
            assert forall|i: int, j: int| 0 <= i < j < r.len() implies r[i].id != r[j].id by {
                if j < rest.len() {
                    assert(r[i] == rest[i] && r[j] == rest[j]);
                } else {
                    assert(r[j] == dec_p);
                    assert(r[i] == rest[i]);
                }
            }
            // Origin of each survivor.
            assert forall|q0: Player| #[trigger] r.contains(q0) implies exists|q: Player|
                players.contains(q) && q.health > 1 && q0 == (Player {
                    id: q.id,
                    health: (q.health - 1) as u32,
                }) by {
                let i = choose|i: int| 0 <= i < r.len() && r[i] == q0;
                if i < rest.len() {
                    assert(rest.contains(q0)) by {
                        assert(rest[i] == q0);
                    }
                } else {
                    assert(q0 == dec_p);
                    assert(players.contains(p)) by {
                        assert(players[players.len() - 1] == p);
                    }
                }
            }
            // The deaths of this tick.
            assert forall|x: PlayerId| #[trigger] d.contains(x) <==> (find_player(players, x)
                matches Some(q) && q.health <= 1) by {
                if x == p.id {
                    assert(find_player(players, x) == Some(p));
                    if d.contains(x) {
                        let q = choose|q: Player| prev.contains(q) && q.id == x && q.health <= 1;
                        assert(find_player(prev, x) is Some) by {
                            assert(drest.contains(x));
                        }
                    }
                    assert(!d.contains(x)) by {
                        if d.contains(x) {
                            assert(drest.contains(x));
                            assert(find_player(prev, x) is Some);
                        }
                    }
                } else {
                    assert(find_player(players, x) == find_player(prev, x));
                }
            }
        } else {
            assert(r == rest);
            assert(d == drest.push(p.id));
            assert(d.last() == p.id);
            assert(d.drop_last() =~= drest);
            // Lookups after the tick.
            assert forall|x: PlayerId| #[trigger] find_player(r, x) == ticked_lookup(players, x)
            by {
                if x == p.id {
                    assert(find_player(players, x) == Some(p));
                    assert(find_player(rest, x) == ticked_lookup(prev, x));
                    assert(find_player(prev, x) is None);
                } else {
                    assert(find_player(players, x) == find_player(prev, x));
                }
            }
            // The deaths of this tick.
            assert forall|x: PlayerId| #[trigger] d.contains(x) <==> (find_player(players, x)
                matches Some(q) && q.health <= 1) by {
                assert(forall|i: int| 0 <= i < drest.len() ==> #[trigger] d[i] == drest[i]);
                assert(d[d.len() - 1] == p.id);
                if x == p.id {
                    assert(d.contains(x));
                    assert(find_player(players, x) == Some(p));
                } else {
                    assert(find_player(players, x) == find_player(prev, x));
                    assert(d.contains(x) <==> drest.contains(x)) by {
                        if d.contains(x) {
                            let i = choose|i: int| 0 <= i < d.len() && d[i] == x;
                            assert(0 <= i < drest.len() && drest[i] == x);
                        }
                        if drest.contains(x) {
                            let i = choose|i: int| 0 <= i < drest.len() && drest[i] == x;
                            assert(d[i] == x);
                        }
                    }
                }
            }
        }
    }
}

// ---------------------------------------------------------------------
// Registry-effect laws.
// ---------------------------------------------------------------------

/// Disconnecting the same identifier twice in a row has the same
/// registry effect as disconnecting it once.
pub proof fn lemma_disconnect_idempotent(s: GameState, id: PlayerId)
    ensures
        disconnect_t(disconnect_t(s, id), id) == disconnect_t(s, id),
{
    lemma_remove_id_idem(s.players, id);
    lemma_remove_client_idem(s.clients, id);
    assert(disconnect_t(disconnect_t(s, id), id) =~= disconnect_t(s, id));
}

// ---------------------------------------------------------------------
// The coordinator.
// ---------------------------------------------------------------------

/// One registered client: the player's identifier and the sending end of
/// the bounded channel its session drains.
struct ClientEntry {
    id: PlayerId,
    sender: Sender<String>,
}

/// The identifiers of the registered clients, in registry order.
spec fn client_ids(clients: Seq<ClientEntry>) -> Seq<PlayerId> {
    clients.map_values(|c: ClientEntry| c.id)
}

/// The authoritative owner of the player and client registries. All
/// mutation goes through its event methods, one event at a time; each
/// method applies its whole transition and hands back the updates it
/// broadcast, so no observer ever sees a half-applied event.
pub struct GameController {
    /// The set of connected clients. Used to broadcast updates to the
    /// game state.
    clients: Vec<ClientEntry>,
    /// State data for all players.
    players: Vec<Player>,
    /// The numeric value of the next identifier to issue.
    id_counter: u64,
}

impl View for GameController {
    type V = GameState;

    closed spec fn view(&self) -> GameState {
        GameState {
            players: self.players@,
            clients: client_ids(self.clients@),
            next_id: self.id_counter as int,
        }
    }
}

/// Index of the player with `id`, when one is live.
fn find_index(players: &Vec<Player>, id: PlayerId) -> (r: Option<usize>)
    ensures
        match r {
            Some(j) => j < players@.len() && players@[j as int].id == id,
            None => forall|i: int|
                0 <= i < players@.len() ==> (#[trigger] players@[i]).id != id,
        },
{
    let n = players.len();
    let mut i: usize = 0;
    while i < n
        invariant
            i <= n,
            n == players@.len(),
            forall|k: int| 0 <= k < i ==> (#[trigger] players@[k]).id != id,
        decreases n - i,
    {
        if players[i].id == id {
            return Some(i);
        }
        i += 1;
    }
    None
}

/// Index of the registered client with `id`, when one is registered.
fn find_client_index(clients: &Vec<ClientEntry>, id: PlayerId) -> (r: Option<usize>)
    ensures
        match r {
            Some(j) => j < clients@.len() && clients@[j as int].id == id,
            None => forall|i: int|
                0 <= i < clients@.len() ==> (#[trigger] clients@[i]).id != id,
        },
{
    let n = clients.len();
    let mut i: usize = 0;
    while i < n
        invariant
            i <= n,
            n == clients@.len(),
            forall|k: int| 0 <= k < i ==> (#[trigger] clients@[k]).id != id,
        decreases n - i,
    {
        if clients[i].id == id {
            return Some(i);
        }
        i += 1;
    }
    None
}

/// A detached copy of the player registry.
fn snapshot_players(players: &Vec<Player>) -> (r: Vec<Player>)
    ensures
        r@ == players@,
{
    let mut out: Vec<Player> = Vec::new();
    let n = players.len();
    let mut i: usize = 0;
    while i < n
        invariant
            i <= n,
            n == players@.len(),
            out@.len() == i,
            forall|k: int| 0 <= k < i ==> #[trigger] out@[k] == players@[k],
        decreases n - i,
    {
        out.push(players[i]);
        i += 1;
    }
    proof {
        assert(out@ =~= players@);
    }
    out
}

/// The registry with one heal applied to the player carrying `id`.
fn healed(players: &Vec<Player>, id: PlayerId) -> (r: Vec<Player>)
    ensures
        r@ == heal_players(players@, id),
{
    let mut out: Vec<Player> = Vec::new();
    let n = players.len();
    let mut i: usize = 0;
    while i < n
        invariant
            i <= n,
            n == players@.len(),
            out@.len() == i,
            forall|k: int|
                0 <= k < i ==> #[trigger] out@[k] == (if players@[k].id == id {
                    bump_heal(players@[k])
                } else {
                    players@[k]
                }),
        decreases n - i,
    {
        let p = players[i];
        if p.id == id {
            let new_health = if p.health < u32::MAX {
                p.health + 1
            } else {
                u32::MAX
            };
            out.push(Player { id: p.id, health: new_health });
        } else {
            out.push(p);
        }
        i += 1;
    }
    proof {
        lemma_heal_index(players@, id);
        assert(out@ =~= heal_players(players@, id));
    }
    out
}

/// The registry with one point of damage applied to the player carrying
/// `id`.
fn hurt(players: &Vec<Player>, id: PlayerId) -> (r: Vec<Player>)
    requires
        forall|i: int| 0 <= i < players@.len() ==> (#[trigger] players@[i]).health >= 1,
    ensures
        r@ == hurt_players(players@, id),
{
    let mut out: Vec<Player> = Vec::new();
    let n = players.len();
    let mut i: usize = 0;
    while i < n
        invariant
            i <= n,
            n == players@.len(),
            out@.len() == i,
            forall|k: int| 0 <= k < n ==> (#[trigger] players@[k]).health >= 1,
            forall|k: int|
                0 <= k < i ==> #[trigger] out@[k] == (if players@[k].id == id {
                    bump_hurt(players@[k])
                } else {
                    players@[k]
                }),
        decreases n - i,
    {
        let p = players[i];
        if p.id == id {
            out.push(Player { id: p.id, health: p.health - 1 });
        } else {
            out.push(p);
        }
        i += 1;
    }
    proof {
        lemma_hurt_index(players@, id);
        assert(out@ =~= hurt_players(players@, id));
    }
    out
}

/// The survivors of one tick and the players it kills.
fn tick_split(players: &Vec<Player>) -> (r: (Vec<Player>, Vec<PlayerId>))
    ensures
        r.0@ == tick_players(players@),
        r.1@ == tick_deaths(players@),
{
    let mut survivors: Vec<Player> = Vec::new();
    let mut dead: Vec<PlayerId> = Vec::new();
    let n = players.len();
    let mut i: usize = 0;
    while i < n
        invariant
            i <= n,
            n == players@.len(),
            survivors@ == tick_players(players@.take(i as int)),
            dead@ == tick_deaths(players@.take(i as int)),
        decreases n - i,
    {
        let p = players[i];
        if p.health > 1 {
            survivors.push(Player { id: p.id, health: p.health - 1 });
        } else {
            dead.push(p.id);
        }
        proof {
            let taken = players@.take(i + 1 as int);
            assert(taken.drop_last() =~= players@.take(i as int));
            assert(taken.last() == players@[i as int]);
        }
        i += 1;
    }
    proof {
        assert(players@.take(n as int) =~= players@);
    }
    (survivors, dead)
}

/// Encodes `update` once and offers the frame to every registered
/// client, in registry order. A full or closed channel means the frame
/// is dropped for that client only: delivery to one client never blocks
/// or fails delivery to another.
fn broadcast_update(clients: &mut Vec<ClientEntry>, update: &GameUpdate)
    ensures
        client_ids(final(clients)@) == client_ids(old(clients)@),
{
    let frame = wire::encode_update(update);
    let n = clients.len();
    let ghost orig = client_ids(old(clients)@);
    let mut k: usize = 0;
    while k < n
        invariant
            k <= n,
            clients@.len() == n,
            orig.len() == n,
            client_ids(clients@) == orig.subrange(k as int, n as int) + orig.subrange(0, k as int),
        decreases n - k,
    {
        let ghost before = client_ids(clients@);
        let entry = clients.remove(0);
        let ClientEntry { id, mut sender } = entry;
        let _ = try_send_frame(&mut sender, frame.clone());
        clients.push(ClientEntry { id, sender });
        proof {
            assert(client_ids(clients@) =~= before.subrange(1, n as int).push(before[0]));
            assert(client_ids(clients@) =~= orig.subrange(k + 1 as int, n as int) + orig.subrange(
                0,
                k + 1 as int,
            ));
        }
        k += 1;
    }
    proof {
        assert(client_ids(clients@) =~= orig);
    }
}

impl GameController {
    /// A coordinator with no players, no clients, and no identifier
    /// issued yet.
    pub fn new() -> (r: GameController)
        ensures
            r@ == empty_state(),
            r@.wf(),
    {
        let r = GameController { clients: Vec::new(), players: Vec::new(), id_counter: 0 };
        proof {
            assert(client_ids(r.clients@) =~= Seq::<PlayerId>::empty());
            assert(r@ =~= empty_state());
        }
        r
    }

    /// Can another identifier be issued? Connecting requires it; the
    /// counter spans the whole of `u64`, so in practice it never runs
    /// out within a process lifetime.
    pub fn can_allocate_id(&self) -> (r: bool)
        ensures
            r == (self@.next_id < u64::MAX as int),
    {
        self.id_counter < u64::MAX
    }

    /// Issues a fresh identifier, strictly greater than every identifier
    /// issued before.
    fn next_player_id(&mut self) -> (r: PlayerId)
        requires
            old(self)@.next_id < u64::MAX as int,
        ensures
            r == id_of(old(self)@.next_id as u64),
            final(self)@.players == old(self)@.players,
            final(self)@.clients == old(self)@.clients,
            final(self)@.next_id == old(self)@.next_id + 1,
    {
        let id = PlayerId(self.id_counter);
        self.id_counter = self.id_counter + 1;
        id
    }

    /// A new client connected: a fresh player with the starting health
    /// joins both registries. `PlayerJoined` is broadcast to the
    /// previously registered clients only; the new client instead
    /// receives its identifier and a snapshot of the whole world,
    /// encoded, as the return value.
    pub fn client_connected(&mut self, sender: Sender<String>) -> (r: (PlayerId, String))
        requires
            old(self)@.wf(),
            old(self)@.next_id < u64::MAX as int,
        ensures
            final(self)@ == connect_t(old(self)@),
            final(self)@.wf(),
            r.0 == id_of(old(self)@.next_id as u64),
            r.1@ == wire::json_world(final(self)@.players),
            // The identifier is fresh: no live player or registered
            // client carries it.
            forall|i: int|
                0 <= i < old(self)@.players.len() ==> (#[trigger] old(self)@.players[i]).id
                    != r.0,
            forall|i: int| 0 <= i < old(self)@.clients.len() ==> #[trigger] old(self)@.clients[i]
                != r.0,
    {
        let ghost pre = old(self)@;
        let id = self.next_player_id();
        let player = Player { id, health: START_HEALTH };
        self.players.push(player);
        broadcast_update(&mut self.clients, &GameUpdate::PlayerJoined { player });
        self.clients.push(ClientEntry { id, sender });
        let world = wire::encode_world(&self.players);
        proof {
            lemma_id_val(pre.next_id as u64, id);
            assert(client_ids(self.clients@) =~= pre.clients.push(id));
            assert(self@ =~= connect_t(pre));
            let f = self@;
            assert forall|i: int, j: int| 0 <= i < j < f.players.len() implies f.players[i].id
                != f.players[j].id by {
                if j == f.players.len() - 1 {
                    assert(f.players[i] == pre.players[i]);
                    assert(pre.players[i].id.spec_val() < pre.next_id);
                }
            }
            assert forall|i: int, j: int| 0 <= i < j < f.clients.len() implies f.clients[i]
                != f.clients[j] by {
                if j == f.clients.len() - 1 {
                    assert(f.clients[i] == pre.clients[i]);
                    assert(pre.clients[i].spec_val() < pre.next_id);
                }
            }
            assert(f.wf());
        }
        (id, world)
    }

    /// The client with `id` disconnected: the player and its channel
    /// leave both registries. Nothing is broadcast — disconnection is a
    /// removal path distinct from death — and a second disconnect for
    /// the same identifier finds nothing to remove and changes nothing.
    pub fn client_disconnected(&mut self, id: PlayerId)
        requires
            old(self)@.wf(),
        ensures
            final(self)@ == disconnect_t(old(self)@, id),
            final(self)@.wf(),
    {
        let ghost pre = old(self)@;
        match find_index(&self.players, id) {
            Some(j) => {
                proof {
                    assert forall|i: int|
                        0 <= i < pre.players.len() && i != j implies (
                    #[trigger] pre.players[i]).id != id by {
                        if i < j {
                            assert(pre.players[i].id != pre.players[j as int].id);
                        } else {
                            assert(pre.players[j as int].id != pre.players[i].id);
                        }
                    }
                    lemma_remove_id_at(pre.players, j as int, id);
                }
                self.players.remove(j);
            },
            None => {
                proof {
                    lemma_remove_id_absent(pre.players, id);
                }
            },
        }
        match find_client_index(&self.clients, id) {
            Some(j) => {
                let ghost entries = self.clients@;
                proof {
                    assert(pre.clients[j as int] == entries[j as int].id);
                    assert forall|i: int|
                        0 <= i < pre.clients.len() && i != j implies #[trigger] pre.clients[i]
                        != id by {
                        if i < j {
                            assert(pre.clients[i] != pre.clients[j as int]);
                        } else {
                            assert(pre.clients[j as int] != pre.clients[i]);
                        }
                    }
                    lemma_remove_client_at(pre.clients, j as int, id);
                }
                self.clients.remove(j);
                proof {
                    assert(client_ids(self.clients@) =~= client_ids(entries).remove(j as int));
                }
            },
            None => {
                proof {
                    lemma_remove_client_absent(pre.clients, id);
                }
            },
        }
        proof {
            assert(self@ =~= disconnect_t(pre, id));
            let f = self@;
            lemma_remove_id_no_match(pre.players, id);
            lemma_remove_client_no_match(pre.clients, id);
            assert forall|i: int, j: int| 0 <= i < j < f.players.len() implies f.players[i].id
                != f.players[j].id by {
                lemma_remove_id_distinct(pre.players, id, i, j);
            }
            assert forall|i: int|
                0 <= i < f.players.len() implies (#[trigger] f.players[i]).health >= 1 && f.players[i].id.spec_val()
                < f.next_id by {
                assert(pre.players.contains(f.players[i]));
                let k = choose|k: int| 0 <= k < pre.players.len() && pre.players[k] == f.players[i];
            }
            assert forall|i: int, j: int| 0 <= i < j < f.clients.len() implies f.clients[i]
                != f.clients[j] by {
                lemma_remove_client_distinct(pre.clients, id, i, j);
            }
            assert forall|i: int|
                0 <= i < f.clients.len() implies (#[trigger] f.clients[i]).spec_val()
                < f.next_id by {
                assert(pre.clients.contains(f.clients[i]));
                let k = choose|k: int| 0 <= k < pre.clients.len() && pre.clients[k] == f.clients[i];
            }
            assert(f.wf());
        }
    }

    /// An action sent by the client with `player_id`. An action from an
    /// identifier that is not a live player is ignored without any
    /// broadcast, guarding against actions racing with a death or a
    /// disconnect. Otherwise the action is applied and one `WorldUpdate`
    /// snapshot of the post-action state is broadcast, preceded by
    /// `PlayerDied { target }` when an attack brought the target's
    /// health to 0. The returned vector holds the broadcast updates in
    /// broadcast order.
    pub fn client_message(&mut self, player_id: PlayerId, message: ClientMessage) -> (updates: Vec<
        GameUpdate,
    >)
        requires
            old(self)@.wf(),
        ensures
            final(self)@ == action_t(old(self)@, player_id, message),
            final(self)@.wf(),
            updates@.len() == action_deaths(old(self)@.players, player_id, message).len() + (
            if action_applies(old(self)@.players, player_id) {
                1int
            } else {
                0int
            }),
            forall|i: int|
                0 <= i < action_deaths(old(self)@.players, player_id, message).len()
                    ==> is_died(
                    #[trigger] updates@[i],
                    action_deaths(old(self)@.players, player_id, message)[i],
                ),
            action_applies(old(self)@.players, player_id) ==> is_world(
                updates@[updates@.len() - 1],
                final(self)@.players,
            ),
    {
        let ghost pre = old(self)@;
        let mut updates: Vec<GameUpdate> = Vec::new();
        // Verify that the acting player is still alive.
        match find_index(&self.players, player_id) {
            None => {
                proof {
                    lemma_find_absent(pre.players, player_id);
                    assert(self@ =~= action_t(pre, player_id, message));
                }
                return updates;
            },
            Some(actor_index) => {
                proof {
                    lemma_find_at(pre.players, actor_index as int, player_id);
                }
            },
        }
        match message {
            ClientMessage::HealSelf => {
                self.players = healed(&self.players, player_id);
                proof {
                    lemma_heal_index(pre.players, player_id);
                    assert(self@ =~= action_t(pre, player_id, message));
                    lemma_wf_pointwise(pre, self@);
                }
            },
            ClientMessage::AttackPlayer { target } => {
                match find_index(&self.players, target) {
                    None => {
                        proof {
                            lemma_find_absent(pre.players, target);
                            assert(self@ =~= action_t(pre, player_id, message));
                        }
                    },
                    Some(j) => {
                        proof {
                            lemma_find_at(pre.players, j as int, target);
                        }
                        let h = self.players[j].health;
                        if h > 1 {
                            self.players = hurt(&self.players, target);
                            proof {
                                lemma_hurt_index(pre.players, target);
                                assert(self@ =~= action_t(pre, player_id, message));
                                lemma_wf_pointwise(pre, self@);
                            }
                        } else {
                            proof {
                                assert forall|i: int|
                                    0 <= i < pre.players.len() && i != j implies (
                                #[trigger] pre.players[i]).id != target by {
                                    if i < j {
                                        assert(pre.players[i].id != pre.players[j as int].id);
                                    } else {
                                        assert(pre.players[j as int].id != pre.players[i].id);
                                    }
                                }
                                lemma_remove_id_at(pre.players, j as int, target);
                            }
                            self.players.remove(j);
                            let died = GameUpdate::PlayerDied { id: target };
                            broadcast_update(&mut self.clients, &died);
                            updates.push(died);
                            proof {
                                assert(self@ =~= action_t(pre, player_id, message));
                                lemma_wf_removal(pre, self@, target);
                            }
                        }
                    },
                }
            },
        }
        // The single point where the post-action state becomes visible.
        let ghost mid = self@;
        let ghost before_world = updates@;
        let snapshot = snapshot_players(&self.players);
        let world = GameUpdate::WorldUpdate { players: snapshot };
        broadcast_update(&mut self.clients, &world);
        updates.push(world);
        proof {
            assert(self@ =~= mid);
            assert(forall|i: int|
                0 <= i < before_world.len() ==> #[trigger] updates@[i] == before_world[i]);
            assert(updates@[updates@.len() - 1] == world);
        }
        updates
    }

    /// One simulation tick: every live player's health drops by 1, the
    /// players whose health reaches 0 leave the registry, one
    /// `PlayerDied` is broadcast per removed player, and a single
    /// `WorldUpdate` snapshot of the post-removal state follows all of
    /// them. The returned vector holds the broadcast updates in
    /// broadcast order.
    pub fn tick_player_health(&mut self) -> (updates: Vec<GameUpdate>)
        requires
            old(self)@.wf(),
        ensures
            final(self)@ == tick_t(old(self)@),
            final(self)@.wf(),
            updates@.len() == tick_deaths(old(self)@.players).len() + 1,
            forall|i: int|
                0 <= i < tick_deaths(old(self)@.players).len() ==> is_died(
                    #[trigger] updates@[i],
                    tick_deaths(old(self)@.players)[i],
                ),
            is_world(updates@[updates@.len() - 1], final(self)@.players),
    {
        let ghost pre = old(self)@;
        // Every tick, reduce player health by 1, keeping track of the
        // players that die as a result.
        let (survivors, dead) = tick_split(&self.players);
        self.players = survivors;
        proof {
            lemma_tick_effect(pre.players);
            assert(self@ =~= tick_t(pre));
            let f = self@;
            assert forall|i: int|
                0 <= i < f.players.len() implies (#[trigger] f.players[i]).health >= 1
                && f.players[i].id.spec_val() < f.next_id by {
                assert(f.players.contains(f.players[i]));
                let q = choose|q: Player|
                    pre.players.contains(q) && q.health > 1 && f.players[i] == (Player {
                        id: q.id,
                        health: (q.health - 1) as u32,
                    });
                let k = choose|k: int| 0 <= k < pre.players.len() && pre.players[k] == q;
            }
            assert(f.wf());
        }
        // Notify the clients of each death, then of the resulting world.
        let mut updates: Vec<GameUpdate> = Vec::new();
        let n = dead.len();
        let mut k: usize = 0;
        while k < n
            invariant
                k <= n,
                n == dead@.len(),
                dead@ == tick_deaths(pre.players),
                self@ == tick_t(pre),
                updates@.len() == k,
                forall|m: int| 0 <= m < k ==> is_died(#[trigger] updates@[m], dead@[m]),
            decreases n - k,
        {
            let ghost mid = self@;
            let id = dead[k];
            let died = GameUpdate::PlayerDied { id };
            broadcast_update(&mut self.clients, &died);
            updates.push(died);
            proof {
                assert(self@ =~= mid);
            }
            k += 1;
        }
        let ghost mid = self@;
        let ghost before_world = updates@;
        let snapshot = snapshot_players(&self.players);
        let world = GameUpdate::WorldUpdate { players: snapshot };
        broadcast_update(&mut self.clients, &world);
        updates.push(world);
        proof {
            assert(self@ =~= mid);
            assert(forall|i: int|
                0 <= i < before_world.len() ==> #[trigger] updates@[i] == before_world[i]);
            assert(updates@[updates@.len() - 1] == world);
        }
        updates
    }
}

impl Default for GameController {
    /// The same coordinator `new` builds: empty registries, no
    /// identifier issued yet.
    fn default() -> (r: GameController)
        ensures
            r@ == empty_state(),
            r@.wf(),
    {
        GameController::new()
    }
}

/// Well-formedness carries over to a state whose players differ only
/// pointwise, with the same identifiers and healths at least 1.
proof fn lemma_wf_pointwise(pre: GameState, f: GameState)
    requires
        pre.wf(),
        f.clients == pre.clients,
        f.next_id == pre.next_id,
        f.players.len() == pre.players.len(),
        forall|i: int|
            0 <= i < f.players.len() ==> (#[trigger] f.players[i]).id == pre.players[i].id
                && f.players[i].health >= 1,
    ensures
        f.wf(),
{
}

/// Well-formedness carries over to the state an in-combat removal
/// leaves.
proof fn lemma_wf_removal(pre: GameState, f: GameState, target: PlayerId)
    requires
        pre.wf(),
        f.clients == pre.clients,
        f.next_id == pre.next_id,
        f.players == remove_id(pre.players, target),
    ensures
        f.wf(),
{
    lemma_remove_id_no_match(pre.players, target);
    assert forall|i: int, j: int| 0 <= i < j < f.players.len() implies f.players[i].id
        != f.players[j].id by {
        lemma_remove_id_distinct(pre.players, target, i, j);
    }
    assert forall|i: int|
        0 <= i < f.players.len() implies (#[trigger] f.players[i]).health >= 1
        && f.players[i].id.spec_val() < f.next_id by {
        assert(pre.players.contains(f.players[i]));
        let k = choose|k: int| 0 <= k < pre.players.len() && pre.players[k] == f.players[i];
    }
}

/// Two distinct survivors of a removal are distinct players of the
/// original registry, so under unique identifiers their identifiers
/// differ.
proof fn lemma_remove_id_distinct(players: Seq<Player>, id: PlayerId, i: int, j: int)
    requires
        ids_unique(players),
        0 <= i < j < remove_id(players, id).len(),
    ensures
        remove_id(players, id)[i].id != remove_id(players, id)[j].id,
    decreases players.len(),
{
    if players.len() > 0 {
        let prev = players.drop_last();
        assert(forall|k: int| 0 <= k < prev.len() ==> prev[k] == #[trigger] players[k]);
        assert(ids_unique(prev));
        let r = remove_id(players, id);
        let rr = remove_id(prev, id);
        if players.last().id == id {
            lemma_remove_id_distinct(prev, id, i, j);
        } else {
            assert(r == rr.push(players.last()));
            if j < rr.len() {
                lemma_remove_id_distinct(prev, id, i, j);
            } else {
                assert(r[j] == players.last());
                assert(r[i] == rr[i]);
                lemma_remove_id_no_match(prev, id);
                assert(prev.contains(rr[i]));
                let k = choose|k: int| 0 <= k < prev.len() && prev[k] == rr[i];
                assert(players[k] == rr[i]);
                assert(players.last() == players[players.len() - 1]);
            }
        }
    }
}

/// Two distinct entries left by a client removal are distinct entries of
/// the original registry, so under uniqueness they differ.
proof fn lemma_remove_client_distinct(clients: Seq<PlayerId>, id: PlayerId, i: int, j: int)
    requires
        clients_unique(clients),
        0 <= i < j < remove_client(clients, id).len(),
    ensures
        remove_client(clients, id)[i] != remove_client(clients, id)[j],
    decreases clients.len(),
{
    if clients.len() > 0 {
        let prev = clients.drop_last();
        assert(forall|k: int| 0 <= k < prev.len() ==> prev[k] == #[trigger] clients[k]);
        assert(clients_unique(prev));
        let r = remove_client(clients, id);
        let rr = remove_client(prev, id);
        if clients.last() == id {
            lemma_remove_client_distinct(prev, id, i, j);
        } else {
            assert(r == rr.push(clients.last()));
            if j < rr.len() {
                lemma_remove_client_distinct(prev, id, i, j);
            } else {
                assert(r[j] == clients.last());
                assert(r[i] == rr[i]);
                lemma_remove_client_no_match(prev, id);
                assert(prev.contains(rr[i]));
                let k = choose|k: int| 0 <= k < prev.len() && prev[k] == rr[i];
                assert(clients[k] == rr[i]);
                assert(clients.last() == clients[clients.len() - 1]);
            }
        }
    }
}

} // verus!

