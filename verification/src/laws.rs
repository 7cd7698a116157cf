//! The consistency guarantees of the aggregate store, stated and proved over
//! the store's mathematical state.
//!
//! Atomicity of failed creates and updates, and the exact not-found
//! conditions, are stated directly in the `ensures` of the operations
//! themselves (`create_game_at`, `update_game_at`, `get_game`,
//! `delete_game`); the laws here relate several operations.

use vstd::prelude::*;

use crate::model::TurnResponseView;
use crate::model::turn_resp_of;
use crate::schema::GameInputView;
use crate::store::StoreView;
use crate::store::lemma_created_inv;
use crate::store::lemma_deleted_inv;
use crate::store::lemma_turns_of_sorted;
use crate::store::lemma_updated_inv;
use crate::store::sorted_by_turn_order;

verus! {

/// Round trip: after a successful create, reading the new game's id succeeds
/// and returns exactly the aggregate the create returned — the given title,
/// both timestamps equal to the creation time, and the given turns in input
/// order, each with `turn_order` equal to its input position.
pub proof fn lemma_create_get_round_trip(s: StoreView, input: GameInputView, now: int)
    requires
        s.inv(),
        s.create_fits(input.turns.len()),
    ensures
        ({
            let s2 = s.created(input, now);
            let gid = s.next_game_id;
            &&& s2.inv()
            &&& s2.has_game(gid)
            &&& s2.aggregate(gid).id == gid
            &&& s2.aggregate(gid).title == input.title
            &&& s2.aggregate(gid).created_at == now
            &&& s2.aggregate(gid).updated_at == now
            &&& s2.aggregate(gid).turns.len() == input.turns.len()
            &&& forall|i: int|
                0 <= i < input.turns.len() ==> (#[trigger] s2.aggregate(gid).turns[i])
                    == (TurnResponseView {
                    id: s.next_turn_id + i,
                    turn_order: i,
                    turn: input.turns[i].turn,
                    x_coord: input.turns[i].x_coord,
                    y_coord: input.turns[i].y_coord,
                })
        }),
{
    let s2 = s.created(input, now);
    let gid = s.next_game_id;
    let fresh = StoreView::fresh_turns(gid, s.next_turn_id, input.turns);
    lemma_created_inv(s, input, now);
    assert forall|i: int| 0 <= i < input.turns.len() implies (#[trigger] s2.aggregate(gid).turns[i])
        == (TurnResponseView {
        id: s.next_turn_id + i,
        turn_order: i,
        turn: input.turns[i].turn,
        x_coord: input.turns[i].x_coord,
        y_coord: input.turns[i].y_coord,
    }) by {
        assert(s2.turns_of(gid)[i] == fresh[i]);
        assert(s2.aggregate(gid).turns[i] == turn_resp_of(fresh[i]));
    }
}

/// Ordering: the turns of any aggregate read come back strictly ascending by
/// `turn_order`, whatever order its rows were supplied in.
pub proof fn lemma_aggregate_sorted(s: StoreView, gid: int)
    requires
        s.inv(),
    ensures
        sorted_by_turn_order(s.aggregate(gid).turns),
{
    lemma_turns_of_sorted(s, gid);
    let ts = s.turns_of(gid);
    assert forall|i: int, j: int| 0 <= i < j < s.aggregate(gid).turns.len() implies s.aggregate(
        gid,
    ).turns[i].turn_order < s.aggregate(gid).turns[j].turn_order by {
        assert(s.aggregate(gid).turns[i] == turn_resp_of(ts[i]));
        assert(s.aggregate(gid).turns[j] == turn_resp_of(ts[j]));
    }
}

/// Full replace: after a successful update the game's turns are exactly the
/// input list — in particular an update with an empty list leaves the game
/// with zero turns, whatever it had before.
pub proof fn lemma_update_full_replace(s: StoreView, gid: int, input: GameInputView, now: int)
    requires
        s.inv(),
        s.has_game(gid),
        s.update_fits(input.turns.len()),
    ensures
        ({
            let u = s.updated(gid, input, now);
            &&& u.inv()
            &&& u.has_game(gid)
            &&& u.aggregate(gid).turns.len() == input.turns.len()
            &&& (input.turns.len() == 0 ==> u.aggregate(gid).turns =~= Seq::<
                TurnResponseView,
            >::empty())
            &&& forall|i: int|
                0 <= i < input.turns.len() ==> (#[trigger] u.aggregate(gid).turns[i])
                    == (TurnResponseView {
                    id: s.next_turn_id + i,
                    turn_order: i,
                    turn: input.turns[i].turn,
                    x_coord: input.turns[i].x_coord,
                    y_coord: input.turns[i].y_coord,
                })
        }),
{
    let u = s.updated(gid, input, now);
    let fresh = StoreView::fresh_turns(gid, s.next_turn_id, input.turns);
    lemma_updated_inv(s, gid, input, now);
    assert forall|i: int| 0 <= i < input.turns.len() implies (#[trigger] u.aggregate(gid).turns[i])
        == (TurnResponseView {
        id: s.next_turn_id + i,
        turn_order: i,
        turn: input.turns[i].turn,
        x_coord: input.turns[i].x_coord,
        y_coord: input.turns[i].y_coord,
    }) by {
        assert(u.turns_of(gid)[i] == fresh[i]);
        assert(u.aggregate(gid).turns[i] == turn_resp_of(fresh[i]));
    }
}

/// Cascade: after a delete the game is gone and a direct query of the turns
/// table for that game returns the empty set; every other game survives.
pub proof fn lemma_delete_cascade(s: StoreView, gid: int)
    requires
        s.inv(),
    ensures
        s.deleted(gid).inv(),
        !s.deleted(gid).has_game(gid),
        s.deleted(gid).turns_of(gid) =~= Seq::<crate::model::TurnView>::empty(),
        forall|g: int| #[trigger] s.deleted(gid).has_game(g) <==> (s.has_game(g) && g != gid),
{
    lemma_deleted_inv(s, gid);
}

/// Timestamp monotonicity: an update stamped with a clock reading strictly
/// later than the game's current `updated_at` leaves `updated_at` strictly
/// greater than it was just before the update. (A clock that fails to
/// advance between the two readings falls outside this statement.)
pub proof fn lemma_update_bumps_timestamp(s: StoreView, gid: int, input: GameInputView, now: int)
    requires
        s.inv(),
        s.has_game(gid),
        s.update_fits(input.turns.len()),
        now > s.game(gid).updated_at,
    ensures
        s.updated(gid, input, now).game(gid).updated_at > s.game(gid).updated_at,
        s.updated(gid, input, now).aggregate(gid).updated_at > s.aggregate(gid).updated_at,
{
    lemma_updated_inv(s, gid, input, now);
}

} // verus!
