//! The aggregate store: atomic, consistent access to the game-with-turns
//! aggregate.
//!
//! The store keeps the two relational tables (`games` and `turns`) in memory
//! and offers the five operations of the service: list, create, get, update
//! and delete. Each operation is a single atomic unit: it either performs its
//! whole effect or leaves the store unchanged and reports an error.
//!
//! Turn ordering policy: a turn's `turn_order` is always the turn's index in
//! the list handed to create or update; no caller-supplied order is
//! consulted, and reads always return a game's turns sorted ascending by
//! `turn_order`.

use vstd::prelude::*;

use crate::model::GameModel;
use crate::model::GameResponse;
use crate::model::GameView;
use crate::model::GameWithTurnsResponse;
use crate::model::TurnModel;
use crate::model::TurnResponseView;
use crate::model::TurnView;
use crate::model::aggregate_of;
use crate::model::turn_resp_of;
use crate::schema::CreateGameSchema;
use crate::schema::CreateTurnSchema;
use crate::schema::GameInputView;
use crate::schema::TurnInputView;

verus! {

/// The closed error taxonomy of the store. The handler layer maps each kind
/// to a transport status; the store never makes transport decisions.
#[derive(Clone, Copy, PartialEq, Eq, Structural, Debug)]
pub enum StoreError {
    /// The referenced aggregate does not exist.
    NotFound,
    /// The rows handed to the store violate a schema constraint
    /// (duplicate primary key, dangling foreign key, broken turn ordering,
    /// or an id outside the representable range).
    ConstraintViolation,
    /// Any other backend failure; for this in-memory backend, exhaustion of
    /// the id space.
    StorageError,
}

/// A binary relation holds of every pair of positions in order.
pub open spec fn pairwise<A>(s: Seq<A>, r: spec_fn(A, A) -> bool) -> bool {
    forall|i: int, j: int| 0 <= i < j < s.len() ==> #[trigger] r(s[i], s[j])
}

/// Selects the turn rows of one game.
pub open spec fn turn_of(gid: int) -> spec_fn(TurnView) -> bool {
    |t: TurnView| t.game_id == gid
}

/// Selects the turn rows of every other game.
pub open spec fn turn_not_of(gid: int) -> spec_fn(TurnView) -> bool {
    |t: TurnView| t.game_id != gid
}

/// Selects the game rows whose id is not the given one.
pub open spec fn game_not(gid: int) -> spec_fn(GameView) -> bool {
    |g: GameView| g.id != gid
}

/// Rows sorted strictly ascending by `turn_order` wherever they share a game.
pub open spec fn rows_game_sorted(s: Seq<TurnView>) -> bool {
    forall|i: int, j: int|
        0 <= i < j < s.len() && (#[trigger] s[i]).game_id == (#[trigger] s[j]).game_id
            ==> s[i].turn_order < s[j].turn_order
}

/// Rows sorted strictly ascending by `turn_order` outright.
pub open spec fn turn_rows_sorted(s: Seq<TurnView>) -> bool {
    forall|i: int, j: int|
        0 <= i < j < s.len() ==> (#[trigger] s[i]).turn_order < (#[trigger] s[j]).turn_order
}

/// Response turns sorted strictly ascending by `turn_order`.
pub open spec fn sorted_by_turn_order(ts: Seq<TurnResponseView>) -> bool {
    forall|i: int, j: int| 0 <= i < j < ts.len() ==> ts[i].turn_order < ts[j].turn_order
}

/// Mathematical state of the store: the two tables plus the id generators.
#[verifier::ext_equal]
pub struct StoreView {
    pub games: Seq<GameView>,
    pub turns: Seq<TurnView>,
    pub next_game_id: int,
    pub next_turn_id: int,
}

impl StoreView {
    /// Well-formedness of the relational state: ids are positive, unique and
    /// below their generators; every turn's foreign key resolves; and a
    /// game's turns sit in the table in ascending `turn_order`.
    pub open spec fn inv(self) -> bool {
        &&& 1 <= self.next_game_id <= i64::MAX
        &&& 1 <= self.next_turn_id <= i64::MAX
        &&& forall|i: int|
            0 <= i < self.games.len() ==> 1 <= (#[trigger] self.games[i]).id < self.next_game_id
        &&& forall|i: int, j: int|
            0 <= i < j < self.games.len() ==> (#[trigger] self.games[i]).id
                != (#[trigger] self.games[j]).id
        &&& forall|i: int|
            0 <= i < self.turns.len() ==> 1 <= (#[trigger] self.turns[i]).id < self.next_turn_id
                && 0 <= self.turns[i].turn_order
        &&& forall|i: int, j: int|
            0 <= i < j < self.turns.len() ==> (#[trigger] self.turns[i]).id
                != (#[trigger] self.turns[j]).id
        &&& forall|i: int|
            0 <= i < self.turns.len() ==> self.has_game((#[trigger] self.turns[i]).game_id)
        &&& rows_game_sorted(self.turns)
    }

    /// A game with this id exists.
    pub open spec fn has_game(self, gid: int) -> bool {
        game_id_present(self.games, gid)
    }

    /// The position of the game with this id (meaningful only under
    /// `has_game`; unique under `inv`).
    pub open spec fn game_index(self, gid: int) -> int {
        choose|i: int| 0 <= i < self.games.len() && (#[trigger] self.games[i]).id == gid
    }

    /// The game row with this id (meaningful only under `has_game`).
    pub open spec fn game(self, gid: int) -> GameView {
        self.games[self.game_index(gid)]
    }

    /// All turn rows of one game, in table order.
    pub open spec fn turns_of(self, gid: int) -> Seq<TurnView> {
        self.turns.filter(turn_of(gid))
    }

    /// What a read of the full aggregate returns.
    pub open spec fn aggregate(self, gid: int) -> crate::model::AggregateView {
        aggregate_of(self.game(gid), self.turns_of(gid))
    }

    /// The turn rows that inserting `ts` for game `gid` produces: ids are
    /// drawn consecutively starting at `first_id`, and `turn_order` is the
    /// position in the input list.
    pub open spec fn fresh_turns(gid: int, first_id: int, ts: Seq<TurnInputView>) -> Seq<TurnView> {
        Seq::new(
            ts.len(),
            |i: int|
                TurnView {
                    id: first_id + i,
                    game_id: gid,
                    turn_order: i,
                    turn: ts[i].turn,
                    x_coord: ts[i].x_coord,
                    y_coord: ts[i].y_coord,
                },
        )
    }

    /// The id space can accommodate one more game with `n` turns.
    pub open spec fn create_fits(self, n: nat) -> bool {
        self.next_game_id < i64::MAX && self.next_turn_id + n <= i64::MAX
    }

    /// The id space can accommodate `n` more turns.
    pub open spec fn update_fits(self, n: nat) -> bool {
        self.next_turn_id + n <= i64::MAX
    }

    /// The state after a successful create at time `now`: one game row is
    /// appended, its turns are appended in input order, and both id
    /// generators advance.
    pub open spec fn created(self, input: GameInputView, now: int) -> StoreView {
        StoreView {
            games: self.games.push(
                GameView {
                    id: self.next_game_id,
                    title: input.title,
                    created_at: now,
                    updated_at: now,
                },
            ),
            turns: self.turns + Self::fresh_turns(self.next_game_id, self.next_turn_id, input.turns),
            next_game_id: self.next_game_id + 1,
            next_turn_id: self.next_turn_id + input.turns.len(),
        }
    }

    /// The state after a successful update at time `now`: the game keeps its
    /// id and `created_at`, takes the new title and `updated_at == now`, its
    /// old turns are all discarded, and the new list is inserted.
    pub open spec fn updated(self, gid: int, input: GameInputView, now: int) -> StoreView {
        StoreView {
            games: self.games.map_values(
                |g: GameView|
                    if g.id == gid {
                        GameView {
                            id: g.id,
                            title: input.title,
                            created_at: g.created_at,
                            updated_at: now,
                        }
                    } else {
                        g
                    },
            ),
            turns: self.turns.filter(turn_not_of(gid)) + Self::fresh_turns(
                gid,
                self.next_turn_id,
                input.turns,
            ),
            next_game_id: self.next_game_id,
            next_turn_id: self.next_turn_id + input.turns.len(),
        }
    }

    /// The state after a delete: the game row goes, and deletion cascades to
    /// every turn of that game.
    pub open spec fn deleted(self, gid: int) -> StoreView {
        StoreView {
            games: self.games.filter(game_not(gid)),
            turns: self.turns.filter(turn_not_of(gid)),
            next_game_id: self.next_game_id,
            next_turn_id: self.next_turn_id,
        }
    }
}

/// Filtering keeps every pairwise relation that held of the whole table.
pub proof fn lemma_filter_pairwise<A>(s: Seq<A>, pred: spec_fn(A) -> bool, r: spec_fn(A, A) -> bool)
    requires
        pairwise(s, r),
    ensures
        pairwise(s.filter(pred), r),
    decreases s.len(),
{
    reveal(Seq::filter);
    if s.len() > 0 {
        let head = s.drop_last();
        assert(pairwise(head, r)) by {
            assert forall|i: int, j: int| 0 <= i < j < head.len() implies #[trigger] r(
                head[i],
                head[j],
            ) by {
                assert(r(s[i], s[j]));
            }
        }
        lemma_filter_pairwise(head, pred, r);
        let f = s.filter(pred);
        let fh = head.filter(pred);
        if pred(s.last()) {
            assert(f == fh.push(s.last()));
            assert forall|i: int, j: int| 0 <= i < j < f.len() implies #[trigger] r(f[i], f[j]) by {
                if j < f.len() - 1 {
                    assert(r(fh[i], fh[j]));
                } else {
                    let x = fh[i];
                    assert(fh.contains(x));
                    head.lemma_filter_contains_rev(pred, x);
                    let k = choose|k: int| 0 <= k < head.len() && head[k] == x;
                    assert(r(s[k], s[s.len() - 1]));
                }
            }
        }
    }
}

/// A filter that rejects every row yields the empty table.
pub proof fn lemma_filter_none<A>(s: Seq<A>, pred: spec_fn(A) -> bool)
    requires
        forall|i: int| 0 <= i < s.len() ==> !pred(#[trigger] s[i]),
    ensures
        s.filter(pred) =~= Seq::<A>::empty(),
    decreases s.len(),
{
    reveal(Seq::filter);
    if s.len() > 0 {
        let head = s.drop_last();
        assert(forall|i: int| 0 <= i < head.len() ==> !pred(#[trigger] head[i]));
        lemma_filter_none(head, pred);
    }
}

/// A filter that keeps every row is the identity.
pub proof fn lemma_filter_all<A>(s: Seq<A>, pred: spec_fn(A) -> bool)
    requires
        forall|i: int| 0 <= i < s.len() ==> pred(#[trigger] s[i]),
    ensures
        s.filter(pred) =~= s,
    decreases s.len(),
{
    reveal(Seq::filter);
    if s.len() > 0 {
        let head = s.drop_last();
        assert(forall|i: int| 0 <= i < head.len() ==> pred(#[trigger] head[i]));
        lemma_filter_all(head, pred);
        assert(s.filter(pred) =~= head.push(s.last()));
        assert(head.push(s.last()) =~= s);
    }
}

/// Stepping a filter one table row at a time; the workhorse of the loop
/// invariants of the row-scanning operations.
pub proof fn lemma_filter_take_succ<A>(s: Seq<A>, pred: spec_fn(A) -> bool, i: int)
    requires
        0 <= i < s.len(),
    ensures
        s.take(i + 1).filter(pred) == if pred(s[i]) {
            s.take(i).filter(pred).push(s[i])
        } else {
            s.take(i).filter(pred)
        },
{
    reveal(Seq::filter);
    assert(s.take(i + 1).drop_last() =~= s.take(i));
    assert(s.take(i + 1).last() == s[i]);
}

/// Every filtered row satisfies the predicate and is one of the table's rows.
pub proof fn lemma_filter_elements<A>(s: Seq<A>, pred: spec_fn(A) -> bool)
    ensures
        forall|i: int|
            0 <= i < s.filter(pred).len() ==> pred(#[trigger] s.filter(pred)[i]) && s.contains(
                s.filter(pred)[i],
            ),
{
    broadcast use vstd::seq_lib::group_filter_ensures;

    let f = s.filter(pred);
    assert forall|i: int| 0 <= i < f.len() implies pred(#[trigger] f[i]) && s.contains(f[i]) by {
        assert(f.contains(f[i]));
        s.lemma_filter_contains_rev(pred, f[i]);
    }
}

/// Under the invariant a game id picks out exactly one row, so the row found
/// at any index is the row the spec-level lookup names.
pub proof fn lemma_game_at_index(s: StoreView, k: int)
    requires
        s.inv(),
        0 <= k < s.games.len(),
    ensures
        s.has_game(s.games[k].id),
        s.game_index(s.games[k].id) == k,
        s.game(s.games[k].id) == s.games[k],
{
    let gid = s.games[k].id;
    assert(s.has_game(gid));
    let j = s.game_index(gid);
    assert(0 <= j < s.games.len() && s.games[j].id == gid);
}

/// A game's turn rows, as `turns_of` selects them, all carry that game's id
/// and come out of the table strictly sorted by `turn_order`.
pub proof fn lemma_turns_of_sorted(s: StoreView, gid: int)
    requires
        rows_game_sorted(s.turns),
    ensures
        turn_rows_sorted(s.turns_of(gid)),
        forall|i: int|
            0 <= i < s.turns_of(gid).len() ==> (#[trigger] s.turns_of(gid)[i]).game_id == gid,
{
    let pred = turn_of(gid);
    let r = |a: TurnView, b: TurnView| a.game_id == b.game_id ==> a.turn_order < b.turn_order;
    let f = s.turns_of(gid);
    assert(pairwise(s.turns, r)) by {
        assert forall|i: int, j: int| 0 <= i < j < s.turns.len() implies #[trigger] r(
            s.turns[i],
            s.turns[j],
        ) by {
            assert(s.turns[i].game_id == s.turns[j].game_id ==> s.turns[i].turn_order
                < s.turns[j].turn_order);
        }
    }
    lemma_filter_pairwise(s.turns, pred, r);
    lemma_filter_elements(s.turns, pred);
    assert forall|i: int| 0 <= i < f.len() implies (#[trigger] f[i]).game_id == gid by {
        assert(pred(f[i]));
    }
    assert forall|i: int, j: int| 0 <= i < j < f.len() implies (#[trigger] f[i]).turn_order
        < (#[trigger] f[j]).turn_order by {
        assert(r(f[i], f[j]));
        assert(pred(f[i]));
        assert(pred(f[j]));
    }
}

/// A successful create preserves well-formedness; the new game exists, wears
/// the given title and timestamps, and its turns are exactly the input list
/// in order. No other game appears or disappears.
pub proof fn lemma_created_inv(s: StoreView, input: GameInputView, now: int)
    requires
        s.inv(),
        s.create_fits(input.turns.len()),
    ensures
        s.created(input, now).inv(),
        s.created(input, now).has_game(s.next_game_id),
        s.created(input, now).game(s.next_game_id) == (GameView {
            id: s.next_game_id,
            title: input.title,
            created_at: now,
            updated_at: now,
        }),
        s.created(input, now).turns_of(s.next_game_id) =~= StoreView::fresh_turns(
            s.next_game_id,
            s.next_turn_id,
            input.turns,
        ),
        forall|g: int|
            #[trigger] s.created(input, now).has_game(g) <==> (s.has_game(g) || g
                == s.next_game_id),
{
    let gid = s.next_game_id;
    let fresh = StoreView::fresh_turns(gid, s.next_turn_id, input.turns);
    let s2 = s.created(input, now);
    let n = input.turns.len() as int;
    let gl = s.games.len() as int;
    let tl = s.turns.len() as int;

    // every old turn belongs to an old game, whose id is below the new one
    assert forall|i: int| 0 <= i < tl implies (#[trigger] s.turns[i]).game_id != gid by {
        assert(s.has_game(s.turns[i].game_id));
        let m = choose|m: int|
            0 <= m < s.games.len() && (#[trigger] s.games[m]).id == s.turns[i].game_id;
        assert(s.games[m].id < gid);
    }

    // well-formedness of the new state, conjunct by conjunct
    assert forall|i: int| 0 <= i < s2.games.len() implies 1 <= (#[trigger] s2.games[i]).id
        < s2.next_game_id by {
        if i < gl {
            assert(s2.games[i] == s.games[i]);
        }
    }
    assert forall|i: int, j: int| 0 <= i < j < s2.games.len() implies (#[trigger] s2.games[i]).id
        != (#[trigger] s2.games[j]).id by {
        if j < gl {
            assert(s.games[i].id != s.games[j].id);
        } else {
            assert(s2.games[i].id < gid);
        }
    }
    assert forall|i: int| 0 <= i < s2.turns.len() implies 1 <= (#[trigger] s2.turns[i]).id
        < s2.next_turn_id && 0 <= s2.turns[i].turn_order by {
        if i < tl {
            assert(s2.turns[i] == s.turns[i]);
        } else {
            assert(s2.turns[i] == fresh[i - tl]);
        }
    }
    assert forall|i: int, j: int| 0 <= i < j < s2.turns.len() implies (#[trigger] s2.turns[i]).id
        != (#[trigger] s2.turns[j]).id by {
        if j < tl {
            assert(s.turns[i].id != s.turns[j].id);
        } else if i < tl {
            assert(s2.turns[i].id < s.next_turn_id);
            assert(s2.turns[j].id >= s.next_turn_id);
        } else {
            assert(s2.turns[i].id == s.next_turn_id + (i - tl));
            assert(s2.turns[j].id == s.next_turn_id + (j - tl));
        }
    }
    assert forall|g: int| #[trigger] s2.has_game(g) <==> (s.has_game(g) || g == gid) by {
        if s.has_game(g) {
            let m = choose|m: int| 0 <= m < s.games.len() && (#[trigger] s.games[m]).id == g;
            assert(s2.games[m].id == g);
            assert(s2.has_game(g));
        }
        if g == gid {
            assert(s2.games[gl].id == g);
            assert(s2.has_game(g));
        }
        if s2.has_game(g) && g != gid {
            let m = choose|m: int| 0 <= m < s2.games.len() && (#[trigger] s2.games[m]).id == g;
            assert(m < gl);
            assert(s.games[m].id == g);
            assert(s.has_game(g));
        }
    }
    assert forall|i: int| 0 <= i < s2.turns.len() implies s2.has_game(
        (#[trigger] s2.turns[i]).game_id,
    ) by {
        if i < tl {
            assert(s2.turns[i] == s.turns[i]);
            assert(s.has_game(s.turns[i].game_id));
        } else {
            assert(s2.turns[i].game_id == gid);
        }
    }
    assert forall|i: int, j: int|
        0 <= i < j < s2.turns.len() && (#[trigger] s2.turns[i]).game_id
            == (#[trigger] s2.turns[j]).game_id implies s2.turns[i].turn_order
        < s2.turns[j].turn_order by {
        if j < tl {
            assert(s2.turns[i] == s.turns[i]);
            assert(s2.turns[j] == s.turns[j]);
        } else if i < tl {
            assert(s2.turns[i].game_id != gid);
            assert(s2.turns[j].game_id == gid);
        } else {
            assert(s2.turns[i].turn_order == i - tl);
            assert(s2.turns[j].turn_order == j - tl);
        }
    }
    assert(s2.inv());

    // the new game's turns are exactly the fresh rows
    Seq::<TurnView>::filter_distributes_over_add(s.turns, fresh, turn_of(gid));
    assert forall|i: int| 0 <= i < tl implies !(turn_of(gid)(#[trigger] s.turns[i])) by {
        assert(s.turns[i].game_id != gid);
    }
    lemma_filter_none(s.turns, turn_of(gid));
    assert(forall|i: int| 0 <= i < fresh.len() ==> turn_of(gid)(#[trigger] fresh[i]));
    lemma_filter_all(fresh, turn_of(gid));
    assert(s2.turns_of(gid) =~= fresh);

    // the new game's row is the appended one
    lemma_game_at_index(s2, gl);
    assert(s2.game(gid) == s2.games[gl]);
}

/// A delete preserves well-formedness; afterwards the game is gone, no turn
/// of it remains (the cascade), and every other game survives untouched.
pub proof fn lemma_deleted_inv(s: StoreView, gid: int)
    requires
        s.inv(),
    ensures
        s.deleted(gid).inv(),
        !s.deleted(gid).has_game(gid),
        s.deleted(gid).turns_of(gid) =~= Seq::<TurnView>::empty(),
        forall|g: int| #[trigger] s.deleted(gid).has_game(g) <==> (s.has_game(g) && g != gid),
{
    broadcast use vstd::seq_lib::group_filter_ensures;

    let d = s.deleted(gid);
    let gp = game_not(gid);
    let tp = turn_not_of(gid);
    lemma_filter_elements(s.games, gp);
    lemma_filter_elements(s.turns, tp);

    // uniqueness and ordering survive filtering
    let rg = |a: GameView, b: GameView| a.id != b.id;
    assert(pairwise(s.games, rg)) by {
        assert forall|i: int, j: int| 0 <= i < j < s.games.len() implies #[trigger] rg(
            s.games[i],
            s.games[j],
        ) by {
            assert(s.games[i].id != s.games[j].id);
        }
    }
    lemma_filter_pairwise(s.games, gp, rg);
    let rt = |a: TurnView, b: TurnView| a.id != b.id;
    assert(pairwise(s.turns, rt)) by {
        assert forall|i: int, j: int| 0 <= i < j < s.turns.len() implies #[trigger] rt(
            s.turns[i],
            s.turns[j],
        ) by {
            assert(s.turns[i].id != s.turns[j].id);
        }
    }
    lemma_filter_pairwise(s.turns, tp, rt);
    let ro = |a: TurnView, b: TurnView| a.game_id == b.game_id ==> a.turn_order < b.turn_order;
    assert(pairwise(s.turns, ro)) by {
        assert forall|i: int, j: int| 0 <= i < j < s.turns.len() implies #[trigger] ro(
            s.turns[i],
            s.turns[j],
        ) by {
            assert(s.turns[i].game_id == s.turns[j].game_id ==> s.turns[i].turn_order
                < s.turns[j].turn_order);
        }
    }
    lemma_filter_pairwise(s.turns, tp, ro);

    // which games exist afterwards
    assert forall|g: int| #[trigger] d.has_game(g) <==> (s.has_game(g) && g != gid) by {
        if s.has_game(g) && g != gid {
            let m = choose|m: int| 0 <= m < s.games.len() && (#[trigger] s.games[m]).id == g;
            assert(gp(s.games[m]));
            assert(s.games.filter(gp).contains(s.games[m]));
            let w = choose|w: int| 0 <= w < d.games.len() && d.games[w] == s.games[m];
            assert(d.games[w].id == g);
            assert(d.has_game(g));
        }
        if d.has_game(g) {
            let m = choose|m: int| 0 <= m < d.games.len() && (#[trigger] d.games[m]).id == g;
            assert(gp(d.games[m]) && s.games.contains(d.games[m]));
            let w = choose|w: int| 0 <= w < s.games.len() && s.games[w] == d.games[m];
            assert(s.games[w].id == g);
            assert(s.has_game(g));
            assert(g != gid);
        }
    }

    // well-formedness of the remaining rows
    assert forall|i: int| 0 <= i < d.games.len() implies 1 <= (#[trigger] d.games[i]).id
        < d.next_game_id by {
        assert(s.games.contains(d.games[i]));
        let w = choose|w: int| 0 <= w < s.games.len() && s.games[w] == d.games[i];
        assert(1 <= s.games[w].id < s.next_game_id);
    }
    assert forall|i: int, j: int| 0 <= i < j < d.games.len() implies (#[trigger] d.games[i]).id
        != (#[trigger] d.games[j]).id by {
        assert(rg(d.games[i], d.games[j]));
    }
    assert forall|i: int| 0 <= i < d.turns.len() implies 1 <= (#[trigger] d.turns[i]).id
        < d.next_turn_id && 0 <= d.turns[i].turn_order by {
        assert(s.turns.contains(d.turns[i]));
        let w = choose|w: int| 0 <= w < s.turns.len() && s.turns[w] == d.turns[i];
        assert(1 <= s.turns[w].id < s.next_turn_id && 0 <= s.turns[w].turn_order);
    }
    assert forall|i: int, j: int| 0 <= i < j < d.turns.len() implies (#[trigger] d.turns[i]).id
        != (#[trigger] d.turns[j]).id by {
        assert(rt(d.turns[i], d.turns[j]));
    }
    assert forall|i: int| 0 <= i < d.turns.len() implies d.has_game(
        (#[trigger] d.turns[i]).game_id,
    ) by {
        assert(tp(d.turns[i]) && s.turns.contains(d.turns[i]));
        let w = choose|w: int| 0 <= w < s.turns.len() && s.turns[w] == d.turns[i];
        assert(s.has_game(s.turns[w].game_id));
        assert(d.turns[i].game_id != gid);
        assert(d.has_game(d.turns[i].game_id));
    }
    assert forall|i: int, j: int|
        0 <= i < j < d.turns.len() && (#[trigger] d.turns[i]).game_id
            == (#[trigger] d.turns[j]).game_id implies d.turns[i].turn_order
        < d.turns[j].turn_order by {
        assert(ro(d.turns[i], d.turns[j]));
    }
    assert(d.inv());

    // the cascade: no turn of the deleted game remains
    assert forall|i: int| 0 <= i < d.turns.len() implies !(turn_of(gid)(#[trigger] d.turns[i])) by {
        assert(tp(d.turns[i]));
    }
    lemma_filter_none(d.turns, turn_of(gid));

    // the deleted game is gone
    if d.has_game(gid) {
        assert(s.has_game(gid) && gid != gid);
    }
}

/// A successful update preserves well-formedness; the game keeps its id and
/// `created_at`, takes the new title and timestamp, and its turns are
/// exactly the input list in order — the old ones are gone (full replace).
/// No game appears or disappears.
pub proof fn lemma_updated_inv(s: StoreView, gid: int, input: GameInputView, now: int)
    requires
        s.inv(),
        s.has_game(gid),
        s.update_fits(input.turns.len()),
    ensures
        s.updated(gid, input, now).inv(),
        forall|g: int| #[trigger] s.updated(gid, input, now).has_game(g) <==> s.has_game(g),
        s.updated(gid, input, now).game(gid) == (GameView {
            id: gid,
            title: input.title,
            created_at: s.game(gid).created_at,
            updated_at: now,
        }),
        s.updated(gid, input, now).turns_of(gid) =~= StoreView::fresh_turns(
            gid,
            s.next_turn_id,
            input.turns,
        ),
{
    broadcast use vstd::seq_lib::group_filter_ensures;

    let u = s.updated(gid, input, now);
    let tp = turn_not_of(gid);
    let fresh = StoreView::fresh_turns(gid, s.next_turn_id, input.turns);
    let kept = s.turns.filter(tp);
    let kl = kept.len() as int;
    let k = s.game_index(gid);
    assert(0 <= k < s.games.len() && s.games[k].id == gid);

    lemma_filter_elements(s.turns, tp);

    // the games table: same ids in the same places
    assert(u.games.len() == s.games.len());
    assert forall|i: int| 0 <= i < u.games.len() implies (#[trigger] u.games[i]).id
        == s.games[i].id && u.games[i].created_at == s.games[i].created_at by {}
    assert forall|g: int| #[trigger] u.has_game(g) <==> s.has_game(g) by {
        if s.has_game(g) {
            let m = choose|m: int| 0 <= m < s.games.len() && (#[trigger] s.games[m]).id == g;
            assert(u.games[m].id == g);
            assert(u.has_game(g));
        }
        if u.has_game(g) {
            let m = choose|m: int| 0 <= m < u.games.len() && (#[trigger] u.games[m]).id == g;
            assert(s.games[m].id == g);
            assert(s.has_game(g));
        }
    }
    assert forall|i: int| 0 <= i < u.games.len() implies 1 <= (#[trigger] u.games[i]).id
        < u.next_game_id by {
        assert(u.games[i].id == s.games[i].id);
    }
    assert forall|i: int, j: int| 0 <= i < j < u.games.len() implies (#[trigger] u.games[i]).id
        != (#[trigger] u.games[j]).id by {
        assert(u.games[i].id == s.games[i].id && u.games[j].id == s.games[j].id);
    }

    // kept turns keep their properties; fresh turns get sound ones
    let rt = |a: TurnView, b: TurnView| a.id != b.id;
    assert(pairwise(s.turns, rt)) by {
        assert forall|i: int, j: int| 0 <= i < j < s.turns.len() implies #[trigger] rt(
            s.turns[i],
            s.turns[j],
        ) by {
            assert(s.turns[i].id != s.turns[j].id);
        }
    }
    lemma_filter_pairwise(s.turns, tp, rt);
    let ro = |a: TurnView, b: TurnView| a.game_id == b.game_id ==> a.turn_order < b.turn_order;
    assert(pairwise(s.turns, ro)) by {
        assert forall|i: int, j: int| 0 <= i < j < s.turns.len() implies #[trigger] ro(
            s.turns[i],
            s.turns[j],
        ) by {
            assert(s.turns[i].game_id == s.turns[j].game_id ==> s.turns[i].turn_order
                < s.turns[j].turn_order);
        }
    }
    lemma_filter_pairwise(s.turns, tp, ro);

    assert forall|i: int| 0 <= i < kl implies 1 <= (#[trigger] kept[i]).id < s.next_turn_id && 0
        <= kept[i].turn_order && kept[i].game_id != gid && s.has_game(kept[i].game_id) by {
        assert(tp(kept[i]) && s.turns.contains(kept[i]));
        let w = choose|w: int| 0 <= w < s.turns.len() && s.turns[w] == kept[i];
        assert(1 <= s.turns[w].id < s.next_turn_id && 0 <= s.turns[w].turn_order);
        assert(s.has_game(s.turns[w].game_id));
    }

    assert forall|i: int| 0 <= i < u.turns.len() implies 1 <= (#[trigger] u.turns[i]).id
        < u.next_turn_id && 0 <= u.turns[i].turn_order by {
        if i < kl {
            assert(u.turns[i] == kept[i]);
        } else {
            assert(u.turns[i] == fresh[i - kl]);
        }
    }
    assert forall|i: int, j: int| 0 <= i < j < u.turns.len() implies (#[trigger] u.turns[i]).id
        != (#[trigger] u.turns[j]).id by {
        if j < kl {
            assert(rt(kept[i], kept[j]));
        } else if i < kl {
            assert(u.turns[i].id < s.next_turn_id);
            assert(u.turns[j].id >= s.next_turn_id);
        } else {
            assert(u.turns[i].id == s.next_turn_id + (i - kl));
            assert(u.turns[j].id == s.next_turn_id + (j - kl));
        }
    }
    assert forall|i: int| 0 <= i < u.turns.len() implies u.has_game(
        (#[trigger] u.turns[i]).game_id,
    ) by {
        if i < kl {
            assert(s.has_game(kept[i].game_id));
        } else {
            assert(u.turns[i].game_id == gid);
            assert(s.has_game(gid));
        }
    }
    assert forall|i: int, j: int|
        0 <= i < j < u.turns.len() && (#[trigger] u.turns[i]).game_id
            == (#[trigger] u.turns[j]).game_id implies u.turns[i].turn_order
        < u.turns[j].turn_order by {
        if j < kl {
            assert(ro(kept[i], kept[j]));
        } else if i < kl {
            assert(u.turns[i].game_id != gid);
            assert(u.turns[j].game_id == gid);
        } else {
            assert(u.turns[i].turn_order == i - kl);
            assert(u.turns[j].turn_order == j - kl);
        }
    }
    assert(u.inv());

    // full replace: the game's turns afterwards are exactly the fresh rows
    Seq::<TurnView>::filter_distributes_over_add(kept, fresh, turn_of(gid));
    assert forall|i: int| 0 <= i < kl implies !(turn_of(gid)(#[trigger] kept[i])) by {
        assert(kept[i].game_id != gid);
    }
    lemma_filter_none(kept, turn_of(gid));
    assert(forall|i: int| 0 <= i < fresh.len() ==> turn_of(gid)(#[trigger] fresh[i]));
    lemma_filter_all(fresh, turn_of(gid));
    assert(u.turns_of(gid) =~= fresh);

    // the updated game's row
    lemma_game_at_index(u, k);
    assert(u.game(gid) == u.games[k]);
    lemma_game_at_index(s, k);
    assert(s.game(gid) == s.games[k]);
}

/// Some game row carries this id.
pub open spec fn game_id_present(gs: Seq<GameView>, gid: int) -> bool {
    exists|m: int| 0 <= m < gs.len() && (#[trigger] gs[m]).id == gid
}

/// The schema constraints on the game rows alone: ids positive, below the
/// representable bound, and unique.
pub open spec fn game_rows_ok(gs: Seq<GameView>) -> bool {
    &&& forall|i: int| 0 <= i < gs.len() ==> 1 <= (#[trigger] gs[i]).id < i64::MAX
    &&& forall|i: int, j: int|
        0 <= i < j < gs.len() ==> (#[trigger] gs[i]).id != (#[trigger] gs[j]).id
}

/// The schema constraints on the turn rows: ids positive, below the
/// representable bound and unique, orders nonnegative, every foreign key
/// resolving, and each game's turns in ascending `turn_order`.
pub open spec fn turn_rows_ok(gs: Seq<GameView>, ts: Seq<TurnView>) -> bool {
    &&& forall|i: int|
        0 <= i < ts.len() ==> 1 <= (#[trigger] ts[i]).id < i64::MAX && 0 <= ts[i].turn_order
    &&& forall|i: int, j: int|
        0 <= i < j < ts.len() ==> (#[trigger] ts[i]).id != (#[trigger] ts[j]).id
    &&& forall|i: int| 0 <= i < ts.len() ==> game_id_present(gs, (#[trigger] ts[i]).game_id)
    &&& rows_game_sorted(ts)
}

/// The schema constraints that a bare set of rows must meet before the store
/// accepts it.
pub open spec fn rows_consistent(games: Seq<GameView>, turns: Seq<TurnView>) -> bool {
    game_rows_ok(games) && turn_rows_ok(games, turns)
}

/// The largest game id among the rows, or 0 of none.
pub open spec fn max_game_id(gs: Seq<GameView>) -> int
    decreases gs.len(),
{
    if gs.len() == 0 {
        0
    } else {
        let m = max_game_id(gs.drop_last());
        if gs.last().id > m {
            gs.last().id
        } else {
            m
        }
    }
}

/// The largest turn id among the rows, or 0 of none.
pub open spec fn max_turn_id(ts: Seq<TurnView>) -> int
    decreases ts.len(),
{
    if ts.len() == 0 {
        0
    } else {
        let m = max_turn_id(ts.drop_last());
        if ts.last().id > m {
            ts.last().id
        } else {
            m
        }
    }
}

/// The largest game id bounds every row's id and stays inside the id range
/// the rows themselves respect.
pub proof fn lemma_max_game_id_bounds(gs: Seq<GameView>)
    requires
        forall|i: int| 0 <= i < gs.len() ==> 1 <= (#[trigger] gs[i]).id < i64::MAX,
    ensures
        0 <= max_game_id(gs) < i64::MAX,
        forall|i: int| 0 <= i < gs.len() ==> (#[trigger] gs[i]).id <= max_game_id(gs),
    decreases gs.len(),
{
    if gs.len() > 0 {
        let head = gs.drop_last();
        assert(forall|i: int| 0 <= i < head.len() ==> 1 <= (#[trigger] head[i]).id < i64::MAX);
        lemma_max_game_id_bounds(head);
        assert forall|i: int| 0 <= i < gs.len() implies (#[trigger] gs[i]).id <= max_game_id(
            gs,
        ) by {
            if i < gs.len() - 1 {
                assert(gs[i] == head[i]);
            }
        }
    }
}

/// The largest turn id bounds every row's id and stays inside the id range
/// the rows themselves respect.
pub proof fn lemma_max_turn_id_bounds(ts: Seq<TurnView>)
    requires
        forall|i: int| 0 <= i < ts.len() ==> 1 <= (#[trigger] ts[i]).id < i64::MAX,
    ensures
        0 <= max_turn_id(ts) < i64::MAX,
        forall|i: int| 0 <= i < ts.len() ==> (#[trigger] ts[i]).id <= max_turn_id(ts),
    decreases ts.len(),
{
    if ts.len() > 0 {
        let head = ts.drop_last();
        assert(forall|i: int| 0 <= i < head.len() ==> 1 <= (#[trigger] head[i]).id < i64::MAX);
        lemma_max_turn_id_bounds(head);
        assert forall|i: int| 0 <= i < ts.len() implies (#[trigger] ts[i]).id <= max_turn_id(
            ts,
        ) by {
            if i < ts.len() - 1 {
                assert(ts[i] == head[i]);
            }
        }
    }
}

/// One step of the running maximum over the game rows.
pub proof fn lemma_max_game_id_take_succ(gs: Seq<GameView>, i: int)
    requires
        0 <= i < gs.len(),
    ensures
        max_game_id(gs.take(i + 1)) == if gs[i].id > max_game_id(gs.take(i)) {
            gs[i].id
        } else {
            max_game_id(gs.take(i))
        },
{
    assert(gs.take(i + 1).drop_last() =~= gs.take(i));
    assert(gs.take(i + 1).last() == gs[i]);
}

/// One step of the running maximum over the turn rows.
pub proof fn lemma_max_turn_id_take_succ(ts: Seq<TurnView>, i: int)
    requires
        0 <= i < ts.len(),
    ensures
        max_turn_id(ts.take(i + 1)) == if ts[i].id > max_turn_id(ts.take(i)) {
            ts[i].id
        } else {
            max_turn_id(ts.take(i))
        },
{
    assert(ts.take(i + 1).drop_last() =~= ts.take(i));
    assert(ts.take(i + 1).last() == ts[i]);
}

/// Scans the games table for a row with this id.
#[verifier::loop_isolation(false)]
fn games_contain(games: &Vec<GameModel>, id: i64) -> (r: bool)
    ensures
        r <==> game_id_present(games@.map_values(|g: GameModel| g@), id as int),
{
    let ghost gs = games@.map_values(|g: GameModel| g@);
    let mut i: usize = 0;
    while i < games.len()
        invariant
            i <= games.len(),
            forall|m: int| 0 <= m < i ==> (#[trigger] gs[m]).id != id as int,
        decreases games.len() - i,
    {
        if games[i].id == id {
            proof {
                assert(gs[i as int].id == id as int);
            }
            return true;
        }
        i = i + 1;
    }
    false
}

/// Checks the game rows: ids inside the representable range and unique.
#[verifier::loop_isolation(false)]
fn games_ok(games: &Vec<GameModel>) -> (r: bool)
    ensures
        r <==> game_rows_ok(games@.map_values(|g: GameModel| g@)),
{
    let ghost gs = games@.map_values(|g: GameModel| g@);
    let mut i: usize = 0;
    while i < games.len()
        invariant
            i <= games.len(),
            forall|k: int| 0 <= k < i ==> 1 <= (#[trigger] gs[k]).id < i64::MAX,
            forall|k: int, l: int| 0 <= k < l < i ==> (#[trigger] gs[k]).id != (#[trigger] gs[l]).id,
        decreases games.len() - i,
    {
        if games[i].id < 1 || games[i].id == i64::MAX {
            proof {
                if game_rows_ok(gs) {
                    assert(1 <= gs[i as int].id < i64::MAX);
                }
            }
            return false;
        }
        let mut j: usize = 0;
        while j < i
            invariant
                j <= i,
                forall|l: int| 0 <= l < j ==> (#[trigger] gs[l]).id != gs[i as int].id,
            decreases i - j,
        {
            if games[j].id == games[i].id {
                proof {
                    if game_rows_ok(gs) {
                        assert(gs[j as int].id != gs[i as int].id);
                    }
                }
                return false;
            }
            j = j + 1;
        }
        i = i + 1;
    }
    true
}

/// Checks the turn rows against the game rows: ids inside the representable
/// range and unique, nonnegative order, resolving foreign keys, and
/// ascending `turn_order` within each game.
#[verifier::loop_isolation(false)]
fn turns_ok(games: &Vec<GameModel>, turns: &Vec<TurnModel>) -> (r: bool)
    ensures
        r <==> turn_rows_ok(
            games@.map_values(|g: GameModel| g@),
            turns@.map_values(|t: TurnModel| t@),
        ),
{
    let ghost gs = games@.map_values(|g: GameModel| g@);
    let ghost ts = turns@.map_values(|t: TurnModel| t@);
    let mut i: usize = 0;
    while i < turns.len()
        invariant
            i <= turns.len(),
            forall|k: int|
                0 <= k < i ==> 1 <= (#[trigger] ts[k]).id < i64::MAX && 0 <= ts[k].turn_order,
            forall|k: int, l: int| 0 <= k < l < i ==> (#[trigger] ts[k]).id != (#[trigger] ts[l]).id,
            forall|k: int| 0 <= k < i ==> game_id_present(gs, (#[trigger] ts[k]).game_id),
            forall|k: int, l: int|
                0 <= k < l < i && (#[trigger] ts[k]).game_id == (#[trigger] ts[l]).game_id
                    ==> ts[k].turn_order < ts[l].turn_order,
        decreases turns.len() - i,
    {
        let t = &turns[i];
        if t.id < 1 || t.id == i64::MAX || t.turn_order < 0 {
            proof {
                if turn_rows_ok(gs, ts) {
                    assert(1 <= ts[i as int].id < i64::MAX && 0 <= ts[i as int].turn_order);
                }
            }
            return false;
        }
        if !games_contain(games, t.game_id) {
            proof {
                if turn_rows_ok(gs, ts) {
                    assert(game_id_present(gs, ts[i as int].game_id));
                }
            }
            return false;
        }
        let mut j: usize = 0;
        while j < i
            invariant
                j <= i,
                forall|l: int| 0 <= l < j ==> (#[trigger] ts[l]).id != ts[i as int].id,
                forall|l: int|
                    0 <= l < j && (#[trigger] ts[l]).game_id == ts[i as int].game_id ==> ts[l].turn_order
                        < ts[i as int].turn_order,
            decreases i - j,
        {
            if turns[j].id == turns[i].id {
                proof {
                    if turn_rows_ok(gs, ts) {
                        assert(ts[j as int].id != ts[i as int].id);
                    }
                }
                return false;
            }
            if turns[j].game_id == turns[i].game_id && turns[j].turn_order >= turns[i].turn_order {
                proof {
                    if turn_rows_ok(gs, ts) {
                        assert(ts[j as int].game_id == ts[i as int].game_id ==> ts[j as int].turn_order
                            < ts[i as int].turn_order);
                    }
                }
                return false;
            }
            j = j + 1;
        }
        i = i + 1;
    }
    true
}

/// Relies on chrono::Utc::now: the current wall-clock time, converted to
/// milliseconds since the Unix epoch. chrono refuses (by panicking) a system
/// clock set before the epoch, so a value it does return is never negative.
/// Nothing else can be promised of a clock reading.
#[verifier::external_body]
fn now_millis() -> (r: i64)
    ensures
        0 <= r,
{
    chrono::Utc::now().timestamp_millis()
}

/// The aggregate store. Holds the `games` and `turns` tables and the two id
/// generators; every operation preserves `wf`.
#[derive(Debug)]
pub struct Store {
    games: Vec<GameModel>,
    turns: Vec<TurnModel>,
    next_game_id: i64,
    next_turn_id: i64,
}

impl View for Store {
    type V = StoreView;

    closed spec fn view(&self) -> StoreView {
        StoreView {
            games: self.games@.map_values(|g: GameModel| g@),
            turns: self.turns@.map_values(|t: TurnModel| t@),
            next_game_id: self.next_game_id as int,
            next_turn_id: self.next_turn_id as int,
        }
    }
}

impl Store {
    /// The store's state is a well-formed relational state.
    pub open spec fn wf(&self) -> bool {
        self@.inv()
    }

    /// An empty store: no games, no turns, ids start at 1.
    pub fn new() -> (s: Store)
        ensures
            s.wf(),
            s@.games =~= Seq::<GameView>::empty(),
            s@.turns =~= Seq::<TurnView>::empty(),
            s@.next_game_id == 1,
            s@.next_turn_id == 1,
    {
        Store { games: Vec::new(), turns: Vec::new(), next_game_id: 1, next_turn_id: 1 }
    }

    /// Lists all games as summaries (no turns), in table order.
    pub fn game_list(&self) -> (r: Vec<GameResponse>)
        ensures
            r@.map_values(|g: GameResponse| g@) == self@.games,
    {
        let mut out: Vec<GameResponse> = Vec::new();
        let mut i: usize = 0;
        while i < self.games.len()
            invariant
                i <= self.games.len(),
                out@.len() == i,
                forall|k: int| 0 <= k < i ==> out@[k]@ == self@.games[k],
            decreases self.games.len() - i,
        {
            out.push(crate::model::filter_game_response(&self.games[i]));
            i = i + 1;
        }
        proof {
            assert(out@.map_values(|g: GameResponse| g@) =~= self@.games);
        }
        out
    }

    /// Finds the table position of the game with this id, if any.
    fn find_game(&self, game_id: i64) -> (r: Option<usize>)
        ensures
            match r {
                Some(k) => k < self@.games.len() && self@.games[k as int].id == game_id as int,
                None => !self@.has_game(game_id as int),
            },
    {
        let mut i: usize = 0;
        while i < self.games.len()
            invariant
                i <= self.games.len(),
                forall|k: int| 0 <= k < i ==> (#[trigger] self@.games[k]).id != game_id as int,
            decreases self.games.len() - i,
        {
            if self.games[i].id == game_id {
                return Some(i);
            }
            i = i + 1;
        }
        None
    }

    /// The direct query of the `turns` table: all turns of one game, in
    /// ascending `turn_order`.
    pub fn turns_for_game(&self, game_id: i64) -> (r: Vec<TurnModel>)
        requires
            self.wf(),
        ensures
            r@.map_values(|t: TurnModel| t@) == self@.turns_of(game_id as int),
            turn_rows_sorted(r@.map_values(|t: TurnModel| t@)),
    {
        let ghost pred = turn_of(game_id as int);
        let mut out: Vec<TurnModel> = Vec::new();
        let mut i: usize = 0;
        while i < self.turns.len()
            invariant
                i <= self.turns.len(),
                pred == turn_of(game_id as int),
                out@.map_values(|t: TurnModel| t@) =~= self@.turns.take(i as int).filter(pred),
            decreases self.turns.len() - i,
        {
            let t = &self.turns[i];
            let ghost before = out@.map_values(|t: TurnModel| t@);
            proof {
                lemma_filter_take_succ(self@.turns, pred, i as int);
            }
            if t.game_id == game_id {
                out.push(
                    TurnModel {
                        id: t.id,
                        game_id: t.game_id,
                        turn_order: t.turn_order,
                        turn: t.turn.clone(),
                        x_coord: t.x_coord,
                        y_coord: t.y_coord,
                    },
                );
                proof {
                    assert(pred(self@.turns[i as int]));
                    assert(out@.map_values(|t: TurnModel| t@) =~= before.push(
                        self@.turns[i as int],
                    ));
                    assert(out@.map_values(|t: TurnModel| t@) =~= self@.turns.take(
                        i as int + 1,
                    ).filter(pred));
                }
            } else {
                proof {
                    assert(!pred(self@.turns[i as int]));
                    assert(out@.map_values(|t: TurnModel| t@) =~= self@.turns.take(
                        i as int + 1,
                    ).filter(pred));
                }
            }
            i = i + 1;
        }
        proof {
            assert(self@.turns.take(self@.turns.len() as int) =~= self@.turns);
            lemma_turns_of_sorted(self@, game_id as int);
        }
        out
    }

    /// Reads the full aggregate for one game id: the game row plus its turns
    /// sorted ascending by `turn_order`; `NotFound` when no such game exists.
    fn get_game_with_turns(&self, game_id: i64) -> (r: Result<GameWithTurnsResponse, StoreError>)
        requires
            self.wf(),
        ensures
            r is Ok <==> self@.has_game(game_id as int),
            r matches Err(e) ==> e == StoreError::NotFound,
            r matches Ok(a) ==> a@ == self@.aggregate(game_id as int) && sorted_by_turn_order(
                a@.turns,
            ),
    {
        match self.find_game(game_id) {
            None => Err(StoreError::NotFound),
            Some(k) => {
                let g = &self.games[k];
                let game = GameModel {
                    id: g.id,
                    title: g.title.clone(),
                    created_at: g.created_at,
                    updated_at: g.updated_at,
                };
                let rows = self.turns_for_game(game_id);
                proof {
                    lemma_game_at_index(self@, k as int);
                    lemma_turns_of_sorted(self@, game_id as int);
                }
                let resp = crate::model::create_game_with_turns(game, rows);
                proof {
                    assert(resp@ =~= self@.aggregate(game_id as int));
                    let ts = self@.turns_of(game_id as int);
                    assert forall|i: int, j: int| 0 <= i < j < resp@.turns.len() implies resp@.turns[i].turn_order < resp@.turns[j].turn_order by {
                        assert(resp@.turns[i] == turn_resp_of(ts[i]));
                        assert(resp@.turns[j] == turn_resp_of(ts[j]));
                    }
                }
                Ok(resp)
            },
        }
    }

    /// Reads one aggregate inside a consistent snapshot; `NotFound` when the
    /// id does not exist.
    pub fn get_game(&self, game_id: i64) -> (r: Result<GameWithTurnsResponse, StoreError>)
        requires
            self.wf(),
        ensures
            r is Ok <==> self@.has_game(game_id as int),
            r matches Err(e) ==> e == StoreError::NotFound,
            r matches Ok(a) ==> a@ == self@.aggregate(game_id as int) && sorted_by_turn_order(
                a@.turns,
            ),
    {
        self.get_game_with_turns(game_id)
    }

    /// Inserts the given turn list for one game, tagging each turn with its
    /// position in the list and a freshly generated id.
    #[verifier::loop_isolation(false)]
    fn add_turns(&mut self, game_id: i64, turns: Vec<CreateTurnSchema>)
        requires
            1 <= old(self)@.next_turn_id,
            old(self)@.next_turn_id + turns@.len() <= i64::MAX,
        ensures
            final(self)@.games == old(self)@.games,
            final(self)@.next_game_id == old(self)@.next_game_id,
            final(self)@.next_turn_id == old(self)@.next_turn_id + turns@.len(),
            final(self)@.turns =~= old(self)@.turns + StoreView::fresh_turns(
                game_id as int,
                old(self)@.next_turn_id,
                turns@.map_values(|t: CreateTurnSchema| t@),
            ),
    {
        let ghost first = self@.next_turn_id;
        let ghost ts = turns@.map_values(|t: CreateTurnSchema| t@);
        let ghost fresh = StoreView::fresh_turns(game_id as int, first, ts);
        let mut idx: usize = 0;
        while idx < turns.len()
            invariant
                idx <= turns.len(),
                self@.next_turn_id == first + idx,
                self@.games == old(self)@.games,
                self@.next_game_id == old(self)@.next_game_id,
                self@.turns =~= old(self)@.turns + fresh.take(idx as int),
            decreases turns.len() - idx,
        {
            let t = &turns[idx];
            let ghost before = self@.turns;
            let row = TurnModel {
                id: self.next_turn_id,
                game_id,
                turn_order: idx as i64,
                turn: t.turn.clone(),
                x_coord: t.xCoord as i64,
                y_coord: t.yCoord as i64,
            };
            self.turns.push(row);
            self.next_turn_id = self.next_turn_id + 1;
            proof {
                assert(self@.turns =~= before.push(fresh[idx as int]));
                assert(fresh.take(idx as int + 1) =~= fresh.take(idx as int).push(
                    fresh[idx as int],
                ));
                assert(self@.turns =~= old(self)@.turns + fresh.take(idx as int + 1));
            }
            idx = idx + 1;
        }
        proof {
            assert(fresh.take(turns@.len() as int) =~= fresh);
        }
    }

    /// Creates a game with the given title and turn list at time `now`, all
    /// as one atomic unit, and returns the re-read aggregate. Fails with
    /// `StorageError` exactly when the id space cannot accommodate the new
    /// rows, in which case the store is unchanged.
    pub fn create_game_at(&mut self, schema: CreateGameSchema, now: i64) -> (r: Result<
        GameWithTurnsResponse,
        StoreError,
    >)
        requires
            old(self).wf(),
        ensures
            final(self).wf(),
            r is Ok <==> old(self)@.create_fits(schema@.turns.len()),
            r is Err ==> *final(self) == *old(self) && r == Err::<GameWithTurnsResponse, StoreError>(
                StoreError::StorageError,
            ),
            r matches Ok(a) ==> final(self)@ == old(self)@.created(schema@, now as int)
                && a@ == final(self)@.aggregate(old(self)@.next_game_id) && a@.id == old(
                self,
            )@.next_game_id && sorted_by_turn_order(a@.turns),
    {
        let ghost input = schema@;
        if self.next_game_id == i64::MAX {
            return Err(StoreError::StorageError);
        }
        if schema.turns.len() as u64 > (i64::MAX - self.next_turn_id) as u64 {
            return Err(StoreError::StorageError);
        }
        let CreateGameSchema { title, turns } = schema;
        let gid = self.next_game_id;
        self.games.push(GameModel { id: gid, title, created_at: now, updated_at: now });
        self.next_game_id = gid + 1;
        self.add_turns(gid, turns);
        proof {
            assert(self@ =~= old(self)@.created(input, now as int));
            lemma_created_inv(old(self)@, input, now as int);
        }
        match self.get_game_with_turns(gid) {
            Ok(a) => Ok(a),
            Err(_) => {
                // unreachable: the game was just written, so the re-read succeeds
                proof {
                    assert(false);
                }
                Err(StoreError::StorageError)
            },
        }
    }

    /// Removes every turn row of one game, leaving everything else alone.
    #[verifier::loop_isolation(false)]
    fn remove_turns_of(&mut self, game_id: i64)
        ensures
            final(self)@.games == old(self)@.games,
            final(self)@.next_game_id == old(self)@.next_game_id,
            final(self)@.next_turn_id == old(self)@.next_turn_id,
            final(self)@.turns =~= old(self)@.turns.filter(turn_not_of(game_id as int)),
    {
        let ghost tp = turn_not_of(game_id as int);
        let mut kept: Vec<TurnModel> = Vec::new();
        let mut i: usize = 0;
        while i < self.turns.len()
            invariant
                i <= self.turns.len(),
                kept@.map_values(|t: TurnModel| t@) =~= self@.turns.take(i as int).filter(tp),
            decreases self.turns.len() - i,
        {
            let t = &self.turns[i];
            let ghost before = kept@.map_values(|t: TurnModel| t@);
            proof {
                lemma_filter_take_succ(self@.turns, tp, i as int);
            }
            if t.game_id != game_id {
                kept.push(
                    TurnModel {
                        id: t.id,
                        game_id: t.game_id,
                        turn_order: t.turn_order,
                        turn: t.turn.clone(),
                        x_coord: t.x_coord,
                        y_coord: t.y_coord,
                    },
                );
                proof {
                    assert(kept@.map_values(|t: TurnModel| t@) =~= before.push(
                        self@.turns[i as int],
                    ));
                }
            }
            i = i + 1;
        }
        proof {
            assert(self@.turns.take(self@.turns.len() as int) =~= self@.turns);
        }
        self.turns = kept;
    }

    /// Deletes the game with this id; deletion cascades to all of its turns.
    /// Returns the number of games removed: 1 when the id existed, else 0.
    #[verifier::loop_isolation(false)]
    pub fn delete_game(&mut self, game_id: i64) -> (r: u64)
        requires
            old(self).wf(),
        ensures
            final(self).wf(),
            final(self)@ == old(self)@.deleted(game_id as int),
            r == 1 <==> old(self)@.has_game(game_id as int),
            r == 1 || r == 0,
    {
        let ghost gp = game_not(game_id as int);
        let mut kept: Vec<GameModel> = Vec::new();
        let mut found = false;
        let mut i: usize = 0;
        while i < self.games.len()
            invariant
                i <= self.games.len(),
                kept@.map_values(|g: GameModel| g@) =~= self@.games.take(i as int).filter(gp),
                found <==> exists|k: int|
                    0 <= k < i && (#[trigger] self@.games[k]).id == game_id as int,
            decreases self.games.len() - i,
        {
            let g = &self.games[i];
            let ghost before = kept@.map_values(|g: GameModel| g@);
            proof {
                lemma_filter_take_succ(self@.games, gp, i as int);
            }
            if g.id != game_id {
                kept.push(
                    GameModel {
                        id: g.id,
                        title: g.title.clone(),
                        created_at: g.created_at,
                        updated_at: g.updated_at,
                    },
                );
                proof {
                    assert(kept@.map_values(|g: GameModel| g@) =~= before.push(
                        self@.games[i as int],
                    ));
                }
            } else {
                found = true;
            }
            i = i + 1;
        }
        proof {
            assert(self@.games.take(self@.games.len() as int) =~= self@.games);
        }
        self.games = kept;
        self.remove_turns_of(game_id);
        proof {
            assert(self@ =~= old(self)@.deleted(game_id as int));
            lemma_deleted_inv(old(self)@, game_id as int);
        }
        if found {
            1
        } else {
            0
        }
    }

    /// Updates the game with this id at time `now`, atomically: new title,
    /// `updated_at` set to `now`, and the whole turn list replaced by the
    /// given one. Returns the re-read aggregate. Fails with `NotFound` when
    /// the id does not exist and with `StorageError` when the id space
    /// cannot accommodate the new turns; on any failure the store is
    /// unchanged.
    pub fn update_game_at(&mut self, game_id: i64, schema: CreateGameSchema, now: i64) -> (r:
        Result<GameWithTurnsResponse, StoreError>)
        requires
            old(self).wf(),
        ensures
            final(self).wf(),
            r is Ok <==> (old(self)@.has_game(game_id as int) && old(self)@.update_fits(
                schema@.turns.len(),
            )),
            r is Err ==> *final(self) == *old(self),
            !old(self)@.has_game(game_id as int) ==> r == Err::<
                GameWithTurnsResponse,
                StoreError,
            >(StoreError::NotFound),
            old(self)@.has_game(game_id as int) && !old(self)@.update_fits(schema@.turns.len())
                ==> r == Err::<GameWithTurnsResponse, StoreError>(StoreError::StorageError),
            r matches Ok(a) ==> final(self)@ == old(self)@.updated(
                game_id as int,
                schema@,
                now as int,
            ) && a@ == final(self)@.aggregate(game_id as int) && sorted_by_turn_order(a@.turns),
    {
        let ghost input = schema@;
        let k = match self.find_game(game_id) {
            None => {
                return Err(StoreError::NotFound);
            },
            Some(k) => k,
        };
        proof {
            assert(old(self)@.has_game(game_id as int));
        }
        if schema.turns.len() as u64 > (i64::MAX - self.next_turn_id) as u64 {
            return Err(StoreError::StorageError);
        }
        let CreateGameSchema { title, turns } = schema;
        let row = self.games.remove(k);
        let new_row = GameModel {
            id: row.id,
            title,
            created_at: row.created_at,
            updated_at: now,
        };
        self.games.insert(k, new_row);
        proof {
            assert(self@.games =~= old(self)@.updated(game_id as int, input, now as int).games);
        }
        self.remove_turns_of(game_id);
        self.add_turns(game_id, turns);
        proof {
            assert(self@ =~= old(self)@.updated(game_id as int, input, now as int));
            lemma_updated_inv(old(self)@, game_id as int, input, now as int);
        }
        match self.get_game_with_turns(game_id) {
            Ok(a) => Ok(a),
            Err(_) => {
                // unreachable: the game survives the update, so the re-read succeeds
                proof {
                    assert(false);
                }
                Err(StoreError::NotFound)
            },
        }
    }

    /// Rebuilds a store from bare rows, as read back from a persisted copy
    /// of the two tables, after checking the schema constraints; the id
    /// generators resume just past the largest persisted ids. Fails with
    /// `ConstraintViolation` exactly when the rows break a constraint, and
    /// then no store is built.
    #[verifier::loop_isolation(false)]
    pub fn from_rows(games: Vec<GameModel>, turns: Vec<TurnModel>) -> (r: Result<Store, StoreError>)
        ensures
            r is Ok <==> rows_consistent(
                games@.map_values(|g: GameModel| g@),
                turns@.map_values(|t: TurnModel| t@),
            ),
            r matches Err(e) ==> e == StoreError::ConstraintViolation,
            r matches Ok(s) ==> s.wf() && s@.games == games@.map_values(|g: GameModel| g@)
                && s@.turns == turns@.map_values(|t: TurnModel| t@) && s@.next_game_id == 1
                + max_game_id(s@.games) && s@.next_turn_id == 1 + max_turn_id(s@.turns),
    {
        let ghost gs = games@.map_values(|g: GameModel| g@);
        let ghost ts = turns@.map_values(|t: TurnModel| t@);
        if !games_ok(&games) {
            return Err(StoreError::ConstraintViolation);
        }
        if !turns_ok(&games, &turns) {
            return Err(StoreError::ConstraintViolation);
        }
        proof {
            assert(rows_consistent(gs, ts));
        }
        let mut mg: i64 = 0;
        let mut i: usize = 0;
        while i < games.len()
            invariant
                i <= games.len(),
                0 <= mg < i64::MAX,
                mg as int == max_game_id(gs.take(i as int)),
            decreases games.len() - i,
        {
            proof {
                lemma_max_game_id_take_succ(gs, i as int);
            }
            if games[i].id > mg {
                mg = games[i].id;
            }
            i = i + 1;
        }
        let mut mt: i64 = 0;
        let mut k: usize = 0;
        while k < turns.len()
            invariant
                k <= turns.len(),
                0 <= mt < i64::MAX,
                mt as int == max_turn_id(ts.take(k as int)),
            decreases turns.len() - k,
        {
            proof {
                lemma_max_turn_id_take_succ(ts, k as int);
            }
            if turns[k].id > mt {
                mt = turns[k].id;
            }
            k = k + 1;
        }
        proof {
            assert(gs.take(games@.len() as int) =~= gs);
            assert(ts.take(turns@.len() as int) =~= ts);
            lemma_max_game_id_bounds(gs);
            lemma_max_turn_id_bounds(ts);
        }
        let s = Store { games, turns, next_game_id: mg + 1, next_turn_id: mt + 1 };
        proof {
            assert(s@.games == gs && s@.turns == ts);
            assert(s@.inv());
        }
        Ok(s)
    }

    /// Creates a game stamped with the current wall-clock time. Apart from
    /// the choice of timestamp this behaves exactly like `create_game_at`:
    /// the same success condition, the same atomicity, the same result.
    pub fn create_game(&mut self, schema: CreateGameSchema) -> (r: Result<
        GameWithTurnsResponse,
        StoreError,
    >)
        requires
            old(self).wf(),
        ensures
            final(self).wf(),
            r is Ok <==> old(self)@.create_fits(schema@.turns.len()),
            r is Err ==> *final(self) == *old(self) && r == Err::<GameWithTurnsResponse, StoreError>(
                StoreError::StorageError,
            ),
            r matches Ok(a) ==> exists|now: int|
                0 <= now && final(self)@ == old(self)@.created(schema@, now)
                    && a@ == final(self)@.aggregate(old(self)@.next_game_id)
                    && sorted_by_turn_order(a@.turns),
    {
        let ghost input = schema@;
        let now = now_millis();
        let r = self.create_game_at(schema, now);
        proof {
            if r is Ok {
                assert(0 <= now as int && self@ == old(self)@.created(input, now as int));
            }
        }
        r
    }

    /// Updates a game stamped with the current wall-clock time. Apart from
    /// the choice of timestamp this behaves exactly like `update_game_at`:
    /// the same success and failure conditions, the same atomicity, the same
    /// full-replace result.
    pub fn update_game(&mut self, game_id: i64, schema: CreateGameSchema) -> (r: Result<
        GameWithTurnsResponse,
        StoreError,
    >)
        requires
            old(self).wf(),
        ensures
            final(self).wf(),
            r is Ok <==> (old(self)@.has_game(game_id as int) && old(self)@.update_fits(
                schema@.turns.len(),
            )),
            r is Err ==> *final(self) == *old(self),
            !old(self)@.has_game(game_id as int) ==> r == Err::<
                GameWithTurnsResponse,
                StoreError,
            >(StoreError::NotFound),
            old(self)@.has_game(game_id as int) && !old(self)@.update_fits(schema@.turns.len())
                ==> r == Err::<GameWithTurnsResponse, StoreError>(StoreError::StorageError),
            r matches Ok(a) ==> exists|now: int|
                0 <= now && final(self)@ == old(self)@.updated(game_id as int, schema@, now)
                    && a@ == final(self)@.aggregate(game_id as int) && sorted_by_turn_order(
                    a@.turns,
                ),
    {
        let ghost input = schema@;
        let now = now_millis();
        let r = self.update_game_at(game_id, schema, now);
        proof {
            if r is Ok {
                assert(0 <= now as int && self@ == old(self)@.updated(
                    game_id as int,
                    input,
                    now as int,
                ));
            }
        }
        r
    }
}

} // verus!
