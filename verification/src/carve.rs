//! Carving a labyrinth: the step that grows it by one corridor and one room, and the run of
//! thirty rounds of one to four steps that every floor and layer is carved by.
use vstd::prelude::*;
use crate::coords::{Coords, Dir2i, dirs, is_dir};
use crate::cell::CellType;
use crate::labyrinth::{
    at, in_grid, shaped, all_walls, is_free, is_room_like, is_labyrinth, keeps_carved, with_kind,
    PossCoords, poss_upto, lemma_poss_upto, lemma_start_only, lemma_carve, carved_next_to,
    wall_grid, room_cells, bridge_cells, lemma_bridges_match_rooms, is_walk, lemma_every_room_reachable,
    bridges_join_rooms, rooms_entered_once, enters,
};
use crate::random::random_range;
use crate::grid::KindGrid;

verus! {

/// Where the carving stands: the kinds, the current room, and the rooms carved so far
/// (the start first).
pub type CarveState = (Seq<Seq<CellType>>, Coords, Seq<Coords>);

/// How many numbers a step draws from: the ways to grow from the current room, or, where
/// there is none, the rooms carved so far.
pub open spec fn draw_range(st: CarveState, w: int, h: int) -> int {
    let n = poss_upto(st.0, w, h, st.1, 4).len();
    if n == 0 {
        st.2.len() as int
    } else {
        n as int
    }
}

/// One step with the drawn number `pick`: where no corridor and room fit next to the
/// current room, jump to the carved room `pick`; otherwise carve the way to grow numbered
/// `pick` and move into its new room.
pub open spec fn carve_step_spec(st: CarveState, w: int, h: int, pick: int) -> CarveState {
    let poss = poss_upto(st.0, w, h, st.1, 4);
    if poss.len() == 0 {
        (st.0, st.2[pick], st.2)
    } else {
        let e = poss[pick];
        (
            with_kind(
                with_kind(st.0, e.bridge.x as int, e.bridge.y as int, CellType::Bridge { direction: e.direction }),
                e.room.x as int,
                e.room.y as int,
                CellType::Room,
            ),
            e.room,
            st.2.push(e.room),
        )
    }
}

/// The state after the steps drawn in `picks`, one after the other.
pub open spec fn run(st: CarveState, w: int, h: int, picks: Seq<int>) -> CarveState
    decreases picks.len(),
{
    if picks.len() == 0 {
        st
    } else {
        carve_step_spec(run(st, w, h, picks.drop_last()), w, h, picks.last())
    }
}

/// Every number drawn lies in the range its step draws from.
pub open spec fn run_ok(st: CarveState, w: int, h: int, picks: Seq<int>) -> bool
    decreases picks.len(),
{
    picks.len() == 0 || (run_ok(st, w, h, picks.drop_last()) && 0 <= picks.last() < draw_range(
        run(st, w, h, picks.drop_last()),
        w,
        h,
    ))
}

pub open spec fn sum(s: Seq<int>) -> int
    decreases s.len(),
{
    if s.len() == 0 {
        0
    } else {
        sum(s.drop_last()) + s.last()
    }
}

/// Thirty rounds, each of one to four steps.
pub open spec fn rounds_ok(ways: Seq<int>) -> bool {
    &&& ways.len() == 30
    &&& forall|i: int| 0 <= i < ways.len() ==> 1 <= #[trigger] ways[i] <= 4
}

/// Carving starts with the start placed at `s`, standing in it, with only it carved.
pub open spec fn start_state(t: Seq<Seq<CellType>>, s: Coords) -> CarveState {
    (with_kind(t, s.x as int, s.y as int, CellType::Start), s, seq![s])
}

/// `t2` is what carving from `s` makes of `t` for some draws: thirty rounds of one to four
/// steps, each step with a number from its range.
pub open spec fn carved_by_draws(t: Seq<Seq<CellType>>, t2: Seq<Seq<CellType>>, w: int, h: int, s: Coords) -> bool {
    exists|ways: Seq<int>, picks: Seq<int>|
        #![trigger rounds_ok(ways), run_ok(start_state(t, s), w, h, picks)]
        rounds_ok(ways) && picks.len() == sum(ways) && run_ok(start_state(t, s), w, h, picks) && run(
            start_state(t, s),
            w,
            h,
            picks,
        ).0 == t2
}

/// The state a step may start from: the current room and every carved room lie in the grid.
pub open spec fn state_ok(st: CarveState, w: int, h: int) -> bool {
    &&& shaped(st.0, w, h)
    &&& 1 <= w <= i32::MAX
    &&& 1 <= h <= i32::MAX
    &&& in_grid(w, h, st.1.x as int, st.1.y as int)
    &&& is_room_like(at(st.0, st.1.x as int, st.1.y as int))
    &&& st.2.len() >= 1
    &&& forall|k: int|
        0 <= k < st.2.len() ==> in_grid(w, h, #[trigger] st.2[k].x as int, st.2[k].y as int)
            && is_room_like(at(st.0, st.2[k].x as int, st.2[k].y as int))
}

/// A step keeps the carved cells, the good state, and the labyrinth.
pub proof fn lemma_step(st: CarveState, w: int, h: int, s: Coords, pick: int)
    requires
        state_ok(st, w, h),
        0 <= pick < draw_range(st, w, h),
    ensures
        state_ok(carve_step_spec(st, w, h, pick), w, h),
        keeps_carved(st.0, carve_step_spec(st, w, h, pick).0, w, h),
        is_labyrinth(st.0, w, h, s) ==> is_labyrinth(carve_step_spec(st, w, h, pick).0, w, h, s),
{
    let poss = poss_upto(st.0, w, h, st.1, 4);
    lemma_poss_upto(st.0, w, h, st.1, 4);
    if poss.len() != 0 {
        let e = poss[pick];
        let t = st.0;
        let st2 = carve_step_spec(st, w, h, pick);
        let t2 = st2.0;
        assert(carved_next_to(t, t2, w, h, st.1, e.direction));
        if is_labyrinth(t, w, h, s) {
            lemma_carve(t, t2, w, h, s, st.1, e.direction);
        } else {
            assert forall|x: int, y: int|
                #![trigger at(t2, x, y)]
                in_grid(w, h, x, y) && !(at(t, x, y) is Wall) implies at(t2, x, y) == at(t, x, y) by {
                assert(!(x == e.bridge.x && y == e.bridge.y));
                assert(!(x == e.room.x && y == e.room.y));
            }
        }
        assert forall|k: int|
            0 <= k < st2.2.len() implies in_grid(w, h, #[trigger] st2.2[k].x as int, st2.2[k].y as int)
            && is_room_like(at(t2, st2.2[k].x as int, st2.2[k].y as int)) by {
            if k < st.2.len() {
                assert(st2.2[k] == st.2[k]);
                assert(!(st.2[k].x == e.bridge.x && st.2[k].y == e.bridge.y));
                assert(!(st.2[k].x == e.room.x && st.2[k].y == e.room.y));
            }
        }
        assert(!(st.1.x == e.bridge.x && st.1.y == e.bridge.y));
    }
}

/// The carved cells survive any run.
pub proof fn lemma_run_keeps_carved(st: CarveState, w: int, h: int, picks: Seq<int>)
    requires
        state_ok(st, w, h),
        run_ok(st, w, h, picks),
    ensures
        state_ok(run(st, w, h, picks), w, h),
        keeps_carved(st.0, run(st, w, h, picks).0, w, h),
    decreases picks.len(),
{
    if picks.len() > 0 {
        lemma_run_keeps_carved(st, w, h, picks.drop_last());
        let mid = run(st, w, h, picks.drop_last());
        lemma_step(mid, w, h, Coords { x: 0, y: 0 }, picks.last());
        let fin = run(st, w, h, picks);
        assert forall|x: int, y: int|
            #![trigger at(fin.0, x, y)]
            in_grid(w, h, x, y) && !(at(st.0, x, y) is Wall) implies at(fin.0, x, y) == at(st.0, x, y) by {
            assert(at(mid.0, x, y) == at(st.0, x, y));
        }
    }
}

pub proof fn lemma_sum_at_least(ways: Seq<int>)
    requires
        forall|i: int| 0 <= i < ways.len() ==> 1 <= #[trigger] ways[i],
    ensures
        sum(ways) >= ways.len(),
    decreases ways.len(),
{
    if ways.len() > 0 {
        assert forall|i: int| 0 <= i < ways.drop_last().len() implies 1 <= #[trigger] ways.drop_last()[i] by {
            assert(ways.drop_last()[i] == ways[i]);
        }
        lemma_sum_at_least(ways.drop_last());
    }
}

/// Law: where a corridor and a room fit next to the start, carving always leaves the start
/// through a corridor, whatever is drawn.
pub proof fn lemma_start_gets_a_corridor(t: Seq<Seq<CellType>>, t2: Seq<Seq<CellType>>, w: int, h: int, s: Coords, d: Coords)
    requires
        shaped(t, w, h),
        1 <= w <= i32::MAX,
        1 <= h <= i32::MAX,
        in_grid(w, h, s.x as int, s.y as int),
        is_dir(d),
        crate::labyrinth::can_carve(start_state(t, s).0, w, h, s, d),
        carved_by_draws(t, t2, w, h, s),
    ensures
        exists|e: Coords|
            #![trigger at(t2, s.x + e.x, s.y + e.y)]
            is_dir(e) && in_grid(w, h, s.x + e.x, s.y + e.y) && at(t2, s.x + e.x, s.y + e.y) == (
            CellType::Bridge { direction: e }),
{
    let st0 = start_state(t, s);
    let (ways, picks) = choose|ways: Seq<int>, picks: Seq<int>|
        #![trigger rounds_ok(ways), run_ok(start_state(t, s), w, h, picks)]
        rounds_ok(ways) && picks.len() == sum(ways) && run_ok(start_state(t, s), w, h, picks) && run(
            start_state(t, s),
            w,
            h,
            picks,
        ).0 == t2;
    lemma_sum_at_least(ways);
    lemma_poss_upto(st0.0, w, h, s, 4);
    lemma_poss_nonempty(st0.0, w, h, s, d);
    assert(state_ok(st0, w, h));
    let first = picks.take(1);
    lemma_run_after_first(st0, w, h, picks);
    assert(first.drop_last() =~= Seq::<int>::empty());
    assert(run(st0, w, h, first.drop_last()) == st0);
    assert(run_ok(st0, w, h, first));
    let st1 = run(st0, w, h, first);
    let e = poss_upto(st0.0, w, h, s, 4)[first.last()];
    assert(at(st1.0, s.x + e.direction.x, s.y + e.direction.y) == (CellType::Bridge { direction: e.direction }));
    assert(at(t2, s.x + e.direction.x, s.y + e.direction.y) == at(st1.0, s.x + e.direction.x, s.y + e.direction.y));
}

/// Whatever the first step carves survives the rest of the run.
proof fn lemma_run_after_first(st: CarveState, w: int, h: int, picks: Seq<int>)
    requires
        state_ok(st, w, h),
        run_ok(st, w, h, picks),
        picks.len() >= 1,
    ensures
        run_ok(st, w, h, picks.take(1)),
        keeps_carved(run(st, w, h, picks.take(1)).0, run(st, w, h, picks).0, w, h),
    decreases picks.len(),
{
    if picks.len() == 1 {
        assert(picks.take(1) =~= picks);
    } else {
        let front = picks.drop_last();
        assert(front.take(1) =~= picks.take(1));
        lemma_run_after_first(st, w, h, front);
        lemma_run_keeps_carved(st, w, h, front);
        let first = run(st, w, h, picks.take(1));
        let mid = run(st, w, h, front);
        lemma_step(mid, w, h, Coords { x: 0, y: 0 }, picks.last());
        let fin = run(st, w, h, picks);
        assert forall|x: int, y: int|
            #![trigger at(fin.0, x, y)]
            in_grid(w, h, x, y) && !(at(first.0, x, y) is Wall) implies at(fin.0, x, y) == at(first.0, x, y) by {
            assert(at(mid.0, x, y) == at(first.0, x, y));
        }
    }
}

/// Where some direction fits, there is a way to grow.
proof fn lemma_poss_nonempty(t: Seq<Seq<CellType>>, w: int, h: int, c: Coords, d: Coords)
    requires
        is_dir(d),
        crate::labyrinth::can_carve(t, w, h, c, d),
    ensures
        poss_upto(t, w, h, c, 4).len() > 0,
{
    let i: int = if d == dirs()[0] { 0 } else if d == dirs()[1] { 1 } else if d == dirs()[2] { 2 } else { 3 };
    assert(d == dirs()[i]);
    lemma_poss_grows(t, w, h, c, i + 1, 4);
}

proof fn lemma_poss_grows(t: Seq<Seq<CellType>>, w: int, h: int, c: Coords, m: int, n: int)
    requires
        1 <= m <= n <= 4,
        crate::labyrinth::can_carve(t, w, h, c, dirs()[m - 1]),
    ensures
        poss_upto(t, w, h, c, n).len() > 0,
    decreases n,
{
    if n > m {
        lemma_poss_grows(t, w, h, c, m, n - 1);
    }
}

/// A run from a labyrinth keeps it a labyrinth.
pub proof fn lemma_run_labyrinth(st: CarveState, w: int, h: int, s: Coords, picks: Seq<int>)
    requires
        state_ok(st, w, h),
        run_ok(st, w, h, picks),
        is_labyrinth(st.0, w, h, s),
    ensures
        is_labyrinth(run(st, w, h, picks).0, w, h, s),
    decreases picks.len(),
{
    if picks.len() > 0 {
        lemma_run_labyrinth(st, w, h, s, picks.drop_last());
        lemma_run_keeps_carved(st, w, h, picks.drop_last());
        lemma_step(run(st, w, h, picks.drop_last()), w, h, s, picks.last());
    }
}

fn cell_is_free<G: KindGrid>(g: &G, coords: Coords) -> (r: bool)
    requires
        g.grid_ok(),
    ensures
        r == is_free(g.kinds(), g.grid_w(), g.grid_h(), coords.x as int, coords.y as int),
{
    match g.kind_at(coords) {
        Some(CellType::Wall) => true,
        _ => false,
    }
}

fn check_direction<G: KindGrid>(g: &G, coords: Coords, dir: Coords) -> (r: Option<Coords>)
    requires
        g.grid_ok(),
        i32::MIN <= coords.x + dir.x <= i32::MAX,
        i32::MIN <= coords.y + dir.y <= i32::MAX,
    ensures
        r is Some <==> is_free(g.kinds(), g.grid_w(), g.grid_h(), coords.x + dir.x, coords.y + dir.y),
        r is Some ==> r->0.x == coords.x + dir.x && r->0.y == coords.y + dir.y,
{
    let new_coords = Coords { x: coords.x + dir.x, y: coords.y + dir.y };
    if cell_is_free(g, new_coords) {
        Some(new_coords)
    } else {
        None
    }
}

/// The ways to grow the labyrinth from `coords`, in the order up, right, down, left.
pub fn get_poss_coords<G: KindGrid>(g: &G, coords: Coords) -> (r: Vec<PossCoords>)
    requires
        g.grid_ok(),
        i32::MIN < coords.x < i32::MAX,
        i32::MIN < coords.y < i32::MAX,
    ensures
        r@ == poss_upto(g.kinds(), g.grid_w(), g.grid_h(), coords, 4),
{
    let mut poss_coords: Vec<PossCoords> = Vec::new();
    let all = Dir2i::all();
    let mut i: usize = 0;
    while i < 4
        invariant
            g.grid_ok(),
            i32::MIN < coords.x < i32::MAX,
            i32::MIN < coords.y < i32::MAX,
            0 <= i <= 4,
            all@ == dirs(),
            poss_coords@ == poss_upto(g.kinds(), g.grid_w(), g.grid_h(), coords, i as int),
        decreases 4 - i,
    {
        let dir = all[i];
        proof {
            g.lemma_grid_ok();
        }
        if let Some(bridge) = check_direction(g, coords, dir) {
            if let Some(room) = check_direction(g, bridge, dir) {
                poss_coords.push(PossCoords { bridge, room, direction: dir });
            }
        }
        i += 1;
    }
    poss_coords
}

/// One carving step with the drawn number `pick`, `poss` being the ways to grow from
/// `curr`: with no way to grow, the grid stays as it is and the step moves to the carved
/// room `created[pick]`; otherwise it makes the corridor of way `pick` a `Bridge` of its
/// direction and its room a `Room`, records that room and moves into it.
pub fn carve_step<G: KindGrid>(
    g: &mut G,
    curr: Coords,
    created: &mut Vec<Coords>,
    poss: &Vec<PossCoords>,
    pick: usize,
) -> (next: Coords)
    requires
        old(g).grid_ok(),
        poss@ == poss_upto(old(g).kinds(), old(g).grid_w(), old(g).grid_h(), curr, 4),
        pick < draw_range((old(g).kinds(), curr, old(created)@), old(g).grid_w(), old(g).grid_h()),
    ensures
        final(g).grid_ok(),
        final(g).grid_w() == old(g).grid_w(),
        final(g).grid_h() == old(g).grid_h(),
        final(g).keeps_payload(old(g)),
        final(g).kinds() == carve_step_spec(
            (old(g).kinds(), curr, old(created)@),
            old(g).grid_w(),
            old(g).grid_h(),
            pick as int,
        ).0,
        next == carve_step_spec(
            (old(g).kinds(), curr, old(created)@),
            old(g).grid_w(),
            old(g).grid_h(),
            pick as int,
        ).1,
        final(created)@ == carve_step_spec(
            (old(g).kinds(), curr, old(created)@),
            old(g).grid_w(),
            old(g).grid_h(),
            pick as int,
        ).2,
{
    proof {
        g.lemma_grid_ok();
        g.lemma_keeps_payload_refl();
        lemma_poss_upto(g.kinds(), g.grid_w(), g.grid_h(), curr, 4);
    }
    if poss.len() == 0 {
        created[pick]
    } else {
        let next = poss[pick];
        assert(poss@[pick as int] == next);
        let ghost g0 = *g;
        g.set_kind(next.bridge, CellType::Bridge { direction: next.direction });
        let ghost g1 = *g;
        g.set_kind(next.room, CellType::Room);
        proof {
            g.lemma_keeps_payload_trans(&g1, &g0);
        }
        created.push(next.room);
        next.room
    }
}

/// Carves a labyrinth from the start `s`: thirty rounds, each of one to four steps, every
/// step with a number drawn at random.
pub fn generate_labyrinth<G: KindGrid>(g: &mut G, s: Coords)
    requires
        old(g).grid_ok(),
        in_grid(old(g).grid_w(), old(g).grid_h(), s.x as int, s.y as int),
        all_walls(old(g).kinds(), old(g).grid_w(), old(g).grid_h()) || is_labyrinth(
            old(g).kinds(),
            old(g).grid_w(),
            old(g).grid_h(),
            s,
        ),
    ensures
        final(g).grid_ok(),
        final(g).grid_w() == old(g).grid_w(),
        final(g).grid_h() == old(g).grid_h(),
        final(g).keeps_payload(old(g)),
        carved_by_draws(old(g).kinds(), final(g).kinds(), old(g).grid_w(), old(g).grid_h(), s),
        is_labyrinth(final(g).kinds(), old(g).grid_w(), old(g).grid_h(), s),
        keeps_carved(old(g).kinds(), final(g).kinds(), old(g).grid_w(), old(g).grid_h()),
{
    let ghost g0 = *g;
    let ghost w = g.grid_w();
    let ghost h = g.grid_h();
    let ghost t0 = g.kinds();
    let ghost st0 = start_state(t0, s);
    proof {
        g.lemma_grid_ok();
    }
    let mut curr_coords = s;
    g.set_kind(curr_coords, CellType::Start);
    proof {
        g.lemma_grid_ok();
        assert(g.kinds() == st0.0);
        if all_walls(t0, w, h) {
            assert forall|x: int, y: int|
                #![trigger at(st0.0, x, y)]
                in_grid(w, h, x, y) && !(x == s.x && y == s.y) implies at(st0.0, x, y) is Wall by {
                assert(at(t0, x, y) is Wall);
            }
            lemma_start_only(st0.0, w, h, s);
        } else {
            assert(at(t0, s.x as int, s.y as int) is Start);
            assert(t0[s.y as int].update(s.x as int, CellType::Start) =~= t0[s.y as int]);
            assert(st0.0 =~= t0);
        }
        assert(keeps_carved(t0, st0.0, w, h));
        assert(state_ok(st0, w, h));
    }
    let mut created_cells: Vec<Coords> = vec![curr_coords];
    let ghost mut ways: Seq<int> = seq![];
    let ghost mut picks: Seq<int> = seq![];
    proof {
        assert(run(st0, w, h, picks) == st0);
        assert(created_cells@ =~= st0.2);
    }
    let mut round: usize = 0;
    while round < 30
        invariant
            g.grid_ok(),
            g.grid_w() == w,
            g.grid_h() == h,
            g.keeps_payload(&g0),
            1 <= w <= i32::MAX,
            1 <= h <= i32::MAX,
            state_ok(st0, w, h),
            is_labyrinth(st0.0, w, h, s),
            keeps_carved(t0, st0.0, w, h),
            state_ok((g.kinds(), curr_coords, created_cells@), w, h),
            run_ok(st0, w, h, picks),
            run(st0, w, h, picks).0 == g.kinds(),
            run(st0, w, h, picks).1 == curr_coords,
            run(st0, w, h, picks).2 == created_cells@,
            0 <= round <= 30,
            ways.len() == round,
            forall|i: int| 0 <= i < ways.len() ==> 1 <= #[trigger] ways[i] <= 4,
            picks.len() == sum(ways),
        decreases 30 - round,
    {
        let way_length = random_range(1, 5);
        let mut k: usize = 0;
        while k < way_length
            invariant
                g.grid_ok(),
                g.grid_w() == w,
                g.grid_h() == h,
                g.keeps_payload(&g0),
                1 <= w <= i32::MAX,
                1 <= h <= i32::MAX,
                state_ok(st0, w, h),
                is_labyrinth(st0.0, w, h, s),
                keeps_carved(t0, st0.0, w, h),
                state_ok((g.kinds(), curr_coords, created_cells@), w, h),
                run_ok(st0, w, h, picks),
                run(st0, w, h, picks).0 == g.kinds(),
                run(st0, w, h, picks).1 == curr_coords,
                run(st0, w, h, picks).2 == created_cells@,
                0 <= k <= way_length,
                picks.len() == sum(ways) + k,
            decreases way_length - k,
        {
            let poss_coords = get_poss_coords(g, curr_coords);
            let n = if poss_coords.len() == 0 { created_cells.len() } else { poss_coords.len() };
            let indx = random_range(0, n);
            let ghost st = (g.kinds(), curr_coords, created_cells@);
            let ghost gb = *g;
            proof {
                lemma_step(st, w, h, s, indx as int);
            }
            curr_coords = carve_step(g, curr_coords, &mut created_cells, &poss_coords, indx);
            proof {
                g.lemma_keeps_payload_trans(&gb, &g0);
                let old_picks = picks;
                picks = picks.push(indx as int);
                assert(picks.drop_last() =~= old_picks);
            }
            k += 1;
        }
        proof {
            let old_ways = ways;
            ways = ways.push(way_length as int);
            assert(ways.drop_last() =~= old_ways);
        }
        round += 1;
    }
    proof {
        lemma_run_keeps_carved(st0, w, h, picks);
        lemma_run_labyrinth(st0, w, h, s, picks);
        assert(rounds_ok(ways));
        assert(keeps_carved(t0, g.kinds(), w, h)) by {
            assert forall|x: int, y: int|
                #![trigger at(g.kinds(), x, y)]
                in_grid(w, h, x, y) && !(at(t0, x, y) is Wall) implies at(g.kinds(), x, y) == at(t0, x, y) by {
                assert(at(st0.0, x, y) == at(t0, x, y));
            }
        }
    }
}

/// The rooms carved so far are listed once each after the start, and are all the rooms.
pub open spec fn rooms_listed(st: CarveState, w: int, h: int) -> bool {
    &&& st.2.no_duplicates()
    &&& room_cells(st.0, w, h) == st.2.drop_first().to_set()
}

proof fn lemma_run_lists_rooms(st: CarveState, w: int, h: int, picks: Seq<int>)
    requires
        state_ok(st, w, h),
        rooms_listed(st, w, h),
        run_ok(st, w, h, picks),
    ensures
        rooms_listed(run(st, w, h, picks), w, h),
        run(st, w, h, picks).2.len() <= st.2.len() + picks.len(),
    decreases picks.len(),
{
    if picks.len() > 0 {
        lemma_run_lists_rooms(st, w, h, picks.drop_last());
        lemma_run_keeps_carved(st, w, h, picks.drop_last());
        let mid = run(st, w, h, picks.drop_last());
        let pick = picks.last();
        let poss = poss_upto(mid.0, w, h, mid.1, 4);
        lemma_poss_upto(mid.0, w, h, mid.1, 4);
        if poss.len() != 0 {
            let e = poss[pick];
            let fin = carve_step_spec(mid, w, h, pick);
            assert(fin == run(st, w, h, picks));
            let r = e.room;
            assert(at(mid.0, r.x as int, r.y as int) is Wall);
            assert forall|k: int| 0 <= k < mid.2.len() implies mid.2[k] != r by {
                assert(is_room_like(at(mid.0, mid.2[k].x as int, mid.2[k].y as int)));
            }
            assert forall|i: int, j: int| 0 <= i < fin.2.len() && 0 <= j < fin.2.len() && i != j implies fin.2[i] != fin.2[j] by {
                if i < mid.2.len() && j < mid.2.len() {
                } else if i < mid.2.len() {
                    assert(fin.2[j] == r);
                } else {
                    assert(fin.2[i] == r);
                }
            }
            assert(fin.2.drop_first() =~= mid.2.drop_first().push(r));
            assert(mid.2.drop_first().push(r).to_set() =~= mid.2.drop_first().to_set().insert(r)) by {
                mid.2.drop_first().lemma_push_to_set_commute(r);
            }
            assert forall|c: Coords| #[trigger] room_cells(fin.0, w, h).contains(c) == room_cells(mid.0, w, h).insert(r).contains(c) by {
                if c == r {
                } else if c.x == e.bridge.x && c.y == e.bridge.y {
                } else if in_grid(w, h, c.x as int, c.y as int) {
                    assert(at(fin.0, c.x as int, c.y as int) == at(mid.0, c.x as int, c.y as int));
                }
            }
            assert(room_cells(fin.0, w, h) =~= room_cells(mid.0, w, h).insert(r));
        }
    }
}

pub proof fn lemma_sum_at_most(ways: Seq<int>)
    requires
        forall|i: int| 0 <= i < ways.len() ==> #[trigger] ways[i] <= 4,
    ensures
        sum(ways) <= 4 * ways.len(),
    decreases ways.len(),
{
    if ways.len() > 0 {
        assert forall|i: int| 0 <= i < ways.drop_last().len() implies #[trigger] ways.drop_last()[i] <= 4 by {
            assert(ways.drop_last()[i] == ways[i]);
        }
        lemma_sum_at_most(ways.drop_last());
    }
}

/// Law: a labyrinth carved from walls has at most 120 rooms (one per carving step, and
/// at most four steps in each of thirty rounds), and exactly as many corridors as rooms.
pub proof fn lemma_fresh_labyrinth_counts(w: int, h: int, s: Coords, t2: Seq<Seq<CellType>>)
    requires
        1 <= w <= i32::MAX,
        1 <= h <= i32::MAX,
        in_grid(w, h, s.x as int, s.y as int),
        carved_by_draws(wall_grid(w, h), t2, w, h, s),
    ensures
        is_labyrinth(t2, w, h, s),
        room_cells(t2, w, h).finite(),
        room_cells(t2, w, h).len() <= 120,
        bridge_cells(t2, w, h).finite(),
        bridge_cells(t2, w, h).len() == room_cells(t2, w, h).len(),
{
    let t = wall_grid(w, h);
    let st0 = start_state(t, s);
    let (ways, picks) = choose|ways: Seq<int>, picks: Seq<int>|
        #![trigger rounds_ok(ways), run_ok(start_state(t, s), w, h, picks)]
        rounds_ok(ways) && picks.len() == sum(ways) && run_ok(start_state(t, s), w, h, picks) && run(
            start_state(t, s),
            w,
            h,
            picks,
        ).0 == t2;
    assert forall|x: int, y: int|
        #![trigger at(st0.0, x, y)]
        in_grid(w, h, x, y) && !(x == s.x && y == s.y) implies at(st0.0, x, y) is Wall by {
    }
    lemma_start_only(st0.0, w, h, s);
    assert(state_ok(st0, w, h));
    assert(st0.2.drop_first() =~= Seq::<Coords>::empty());
    assert(room_cells(st0.0, w, h) =~= Set::<Coords>::empty());
    assert(st0.2.drop_first().to_set() =~= Set::<Coords>::empty());
    lemma_run_lists_rooms(st0, w, h, picks);
    lemma_run_labyrinth(st0, w, h, s, picks);
    lemma_sum_at_most(ways);
    let fin = run(st0, w, h, picks);
    fin.2.drop_first().unique_seq_to_set();
    lemma_bridges_match_rooms(t2, w, h, s);
}

/// What any prefix of a run carved survives the rest of the run.
pub proof fn lemma_run_prefix_keeps(st: CarveState, w: int, h: int, picks: Seq<int>, k: int)
    requires
        state_ok(st, w, h),
        run_ok(st, w, h, picks),
        0 <= k <= picks.len(),
    ensures
        run_ok(st, w, h, picks.take(k)),
        keeps_carved(run(st, w, h, picks.take(k)).0, run(st, w, h, picks).0, w, h),
    decreases picks.len(),
{
    if k == picks.len() {
        assert(picks.take(k) =~= picks);
    } else {
        let front = picks.drop_last();
        assert(front.take(k) =~= picks.take(k));
        lemma_run_prefix_keeps(st, w, h, front, k);
        lemma_run_keeps_carved(st, w, h, front);
        let pre = run(st, w, h, picks.take(k));
        let mid = run(st, w, h, front);
        lemma_step(mid, w, h, Coords { x: 0, y: 0 }, picks.last());
        let fin = run(st, w, h, picks);
        assert forall|x: int, y: int|
            #![trigger at(fin.0, x, y)]
            in_grid(w, h, x, y) && !(at(pre.0, x, y) is Wall) implies at(fin.0, x, y) == at(pre.0, x, y) by {
            assert(at(mid.0, x, y) == at(pre.0, x, y));
        }
    }
}

/// Law: what carving from walls yields, whatever is drawn, spelled out:
/// - the start cell is the only `Start`; every other cell is a wall, a room or a corridor;
/// - every corridor of direction `d` (one of the four) has in the grid a room or the start
///   one step back and a `Room` one step ahead; every room has such a corridor leading in;
/// - rooms and the start lie at even offsets from the start, corridors at an odd offset in
///   exactly one direction;
/// - there are as many corridors as rooms, at most 120; so the rooms and the start, joined
///   by the corridors, form a tree: every room is reached from the start, and there is one
///   corridor fewer than rooms and start together;
/// - for the draws of the run, a cell carved at any step keeps its kind to the end.
pub proof fn lemma_fresh_carving_laws(w: int, h: int, s: Coords, t2: Seq<Seq<CellType>>)
    requires
        1 <= w <= i32::MAX,
        1 <= h <= i32::MAX,
        in_grid(w, h, s.x as int, s.y as int),
        carved_by_draws(wall_grid(w, h), t2, w, h, s),
    ensures
        shaped(t2, w, h),
        at(t2, s.x as int, s.y as int) == CellType::Start,
        forall|x: int, y: int|
            #![trigger at(t2, x, y)]
            in_grid(w, h, x, y) && !(x == s.x && y == s.y) ==> (at(t2, x, y) is Wall || at(t2, x, y) is Room
                || at(t2, x, y) is Bridge),
        forall|x: int, y: int|
            #![trigger at(t2, x, y)]
            in_grid(w, h, x, y) && at(t2, x, y) is Bridge ==> {
                let d = at(t2, x, y)->direction;
                &&& dirs().contains(d)
                &&& in_grid(w, h, x - d.x, y - d.y)
                &&& in_grid(w, h, x + d.x, y + d.y)
                &&& (at(t2, x - d.x, y - d.y) is Room || at(t2, x - d.x, y - d.y) is Start)
                &&& at(t2, x + d.x, y + d.y) is Room
            },
        forall|x: int, y: int|
            #![trigger at(t2, x, y)]
            in_grid(w, h, x, y) && at(t2, x, y) is Room ==> exists|d: Coords|
                #![trigger at(t2, x - d.x, y - d.y)]
                dirs().contains(d) && in_grid(w, h, x - d.x, y - d.y) && at(t2, x - d.x, y - d.y) == (
                CellType::Bridge { direction: d }),
        forall|x: int, y: int|
            #![trigger at(t2, x, y)]
            in_grid(w, h, x, y) ==> {
                &&& (at(t2, x, y) is Room || at(t2, x, y) is Start) ==> (x - s.x) % 2 == 0 && (y - s.y) % 2
                    == 0
                &&& at(t2, x, y) is Bridge ==> ((x - s.x) % 2 == 0) != ((y - s.y) % 2 == 0)
            },
        room_cells(t2, w, h).finite(),
        bridge_cells(t2, w, h).finite(),
        bridge_cells(t2, w, h).len() == room_cells(t2, w, h).len(),
        room_cells(t2, w, h).len() <= 120,
        !room_cells(t2, w, h).contains(s),
        bridge_cells(t2, w, h).len() == room_cells(t2, w, h).insert(s).len() - 1,
        forall|x: int, y: int|
            in_grid(w, h, x, y) && (#[trigger] at(t2, x, y) is Room) ==> exists|path: Seq<Coords>|
                #![trigger is_walk(t2, w, h, path)]
                is_walk(t2, w, h, path) && path[0] == s && path.last().x == x && path.last().y == y,
        exists|picks: Seq<int>|
            #![trigger run_ok(start_state(wall_grid(w, h), s), w, h, picks)]
            run_ok(start_state(wall_grid(w, h), s), w, h, picks) && run(start_state(wall_grid(w, h), s), w, h, picks).0
                == t2 && forall|k: int|
                0 <= k <= picks.len() ==> keeps_carved(
                    #[trigger] run(start_state(wall_grid(w, h), s), w, h, picks.take(k)).0,
                    t2,
                    w,
                    h,
                ),
{
    lemma_fresh_labyrinth_counts(w, h, s, t2);
    assert(bridges_join_rooms(t2, w, h));
    assert(rooms_entered_once(t2, w, h));
    assert forall|d: Coords| is_dir(d) implies #[trigger] dirs().contains(d) by {
        if d == dirs()[0] {
            assert(dirs()[0] == d);
        } else if d == dirs()[1] {
            assert(dirs()[1] == d);
        } else if d == dirs()[2] {
            assert(dirs()[2] == d);
        } else {
            assert(dirs()[3] == d);
        }
    }
    assert forall|x: int, y: int|
        #![trigger at(t2, x, y)]
        in_grid(w, h, x, y) && at(t2, x, y) is Room implies exists|d: Coords|
            #![trigger at(t2, x - d.x, y - d.y)]
            dirs().contains(d) && in_grid(w, h, x - d.x, y - d.y) && at(t2, x - d.x, y - d.y) == (
            CellType::Bridge { direction: d }) by {
        let d = choose|d: Coords| #[trigger] enters(t2, w, h, x, y, d);
        assert(enters(t2, w, h, x, y, d));
        assert(dirs().contains(d));
    }
    assert forall|x: int, y: int|
        in_grid(w, h, x, y) && (#[trigger] at(t2, x, y) is Room) implies exists|path: Seq<Coords>|
            #![trigger is_walk(t2, w, h, path)]
            is_walk(t2, w, h, path) && path[0] == s && path.last().x == x && path.last().y == y by {
        lemma_every_room_reachable(t2, w, h, s, x, y);
    }
    assert(!room_cells(t2, w, h).contains(s));
    let t = wall_grid(w, h);
    let st0 = start_state(t, s);
    let (ways, picks) = choose|ways: Seq<int>, picks: Seq<int>|
        #![trigger rounds_ok(ways), run_ok(start_state(t, s), w, h, picks)]
        rounds_ok(ways) && picks.len() == sum(ways) && run_ok(start_state(t, s), w, h, picks) && run(
            start_state(t, s),
            w,
            h,
            picks,
        ).0 == t2;
    assert forall|x: int, y: int|
        #![trigger at(st0.0, x, y)]
        in_grid(w, h, x, y) && !(x == s.x && y == s.y) implies at(st0.0, x, y) is Wall by {
    }
    lemma_start_only(st0.0, w, h, s);
    assert(state_ok(st0, w, h));
    assert forall|k: int|
        0 <= k <= picks.len() implies keeps_carved(#[trigger] run(st0, w, h, picks.take(k)).0, t2, w, h) by {
        lemma_run_prefix_keeps(st0, w, h, picks, k);
    }
}


/// The step from `st` finds a way to grow: a corridor and a room fit next to the current
/// room.
pub open spec fn finds_way(st: CarveState, w: int, h: int) -> bool {
    poss_upto(st.0, w, h, st.1, 4).len() > 0
}

/// How many of the steps drawn in `picks` found a way to grow (the others jumped).
pub open spec fn growing_steps(st: CarveState, w: int, h: int, picks: Seq<int>) -> int
    decreases picks.len(),
{
    if picks.len() == 0 {
        0
    } else {
        growing_steps(st, w, h, picks.drop_last()) + if finds_way(run(st, w, h, picks.drop_last()), w, h) {
            1int
        } else {
            0int
        }
    }
}

/// Each step that finds a way to grow records one room; a jump records none.
proof fn lemma_rooms_recorded(st: CarveState, w: int, h: int, picks: Seq<int>)
    ensures
        run(st, w, h, picks).2.len() == st.2.len() + growing_steps(st, w, h, picks),
        0 <= growing_steps(st, w, h, picks) <= picks.len(),
    decreases picks.len(),
{
    if picks.len() > 0 {
        lemma_rooms_recorded(st, w, h, picks.drop_last());
    }
}

/// Law: whatever is drawn, a carving is a run of at least 30 and at most 120 steps (thirty
/// rounds of one to four), each with a number from its range, that yields the carved grid.
pub proof fn lemma_carving_step_count(
    t: Seq<Seq<CellType>>,
    t2: Seq<Seq<CellType>>,
    w: int,
    h: int,
    s: Coords,
)
    requires
        carved_by_draws(t, t2, w, h, s),
    ensures
        exists|picks: Seq<int>|
            #![trigger run_ok(start_state(t, s), w, h, picks)]
            run_ok(start_state(t, s), w, h, picks) && run(start_state(t, s), w, h, picks).0 == t2 && 30
                <= picks.len() <= 120,
{
    let (ways, picks) = choose|ways: Seq<int>, picks: Seq<int>|
        #![trigger rounds_ok(ways), run_ok(start_state(t, s), w, h, picks)]
        rounds_ok(ways) && picks.len() == sum(ways) && run_ok(start_state(t, s), w, h, picks) && run(
            start_state(t, s),
            w,
            h,
            picks,
        ).0 == t2;
    lemma_sum_at_least(ways);
    lemma_sum_at_most(ways);
    assert(run_ok(start_state(t, s), w, h, picks));
}

/// Law: a labyrinth carved from walls comes from a run of 30 to 120 steps in which every
/// step that finds a way to grow adds exactly one room: the rooms are as many as those
/// steps. So where each step finds a way to grow, there are at least 30 rooms.
pub proof fn lemma_fresh_rooms_count_growing_steps(w: int, h: int, s: Coords, t2: Seq<Seq<CellType>>)
    requires
        1 <= w <= i32::MAX,
        1 <= h <= i32::MAX,
        in_grid(w, h, s.x as int, s.y as int),
        carved_by_draws(wall_grid(w, h), t2, w, h, s),
    ensures
        exists|picks: Seq<int>|
            #![trigger run_ok(start_state(wall_grid(w, h), s), w, h, picks)]
            {
                &&& run_ok(start_state(wall_grid(w, h), s), w, h, picks)
                &&& run(start_state(wall_grid(w, h), s), w, h, picks).0 == t2
                &&& 30 <= picks.len() <= 120
                &&& room_cells(t2, w, h).len() == growing_steps(start_state(wall_grid(w, h), s), w, h, picks)
                &&& (forall|k: int|
                    0 <= k < picks.len() ==> finds_way(
                        #[trigger] run(start_state(wall_grid(w, h), s), w, h, picks.take(k)),
                        w,
                        h,
                    )) ==> room_cells(t2, w, h).len() >= 30
            },
{
    let t = wall_grid(w, h);
    let st0 = start_state(t, s);
    let (ways, picks) = choose|ways: Seq<int>, picks: Seq<int>|
        #![trigger rounds_ok(ways), run_ok(start_state(t, s), w, h, picks)]
        rounds_ok(ways) && picks.len() == sum(ways) && run_ok(start_state(t, s), w, h, picks) && run(
            start_state(t, s),
            w,
            h,
            picks,
        ).0 == t2;
    lemma_sum_at_least(ways);
    lemma_sum_at_most(ways);
    assert forall|x: int, y: int|
        #![trigger at(st0.0, x, y)]
        in_grid(w, h, x, y) && !(x == s.x && y == s.y) implies at(st0.0, x, y) is Wall by {
    }
    lemma_start_only(st0.0, w, h, s);
    assert(state_ok(st0, w, h));
    assert(st0.2.drop_first() =~= Seq::<Coords>::empty());
    assert(room_cells(st0.0, w, h) =~= Set::<Coords>::empty());
    assert(st0.2.drop_first().to_set() =~= Set::<Coords>::empty());
    lemma_run_lists_rooms(st0, w, h, picks);
    lemma_rooms_recorded(st0, w, h, picks);
    let fin = run(st0, w, h, picks);
    fin.2.drop_first().unique_seq_to_set();
    if forall|k: int|
        0 <= k < picks.len() ==> finds_way(#[trigger] run(st0, w, h, picks.take(k)), w, h) {
        lemma_all_grow(st0, w, h, picks);
    }
    assert(run_ok(st0, w, h, picks));
}

/// Where every step of a run finds a way to grow, every step counts.
proof fn lemma_all_grow(st: CarveState, w: int, h: int, picks: Seq<int>)
    requires
        forall|k: int| 0 <= k < picks.len() ==> finds_way(#[trigger] run(st, w, h, picks.take(k)), w, h),
    ensures
        growing_steps(st, w, h, picks) == picks.len(),
    decreases picks.len(),
{
    if picks.len() > 0 {
        let front = picks.drop_last();
        assert forall|k: int| 0 <= k < front.len() implies finds_way(#[trigger] run(st, w, h, front.take(k)), w, h) by {
            assert(front.take(k) =~= picks.take(k));
            assert(finds_way(run(st, w, h, picks.take(k)), w, h));
        }
        lemma_all_grow(st, w, h, front);
        assert(picks.take(front.len() as int) =~= front);
        assert(finds_way(run(st, w, h, picks.take(front.len() as int)), w, h));
    }
}


/// Law: a step finds a way to grow exactly when, along one of the four directions, the next
/// cell and the one beyond it are walls inside the grid.
pub proof fn lemma_finds_way_iff_free_pair(st: CarveState, w: int, h: int)
    requires
        w <= i32::MAX,
        h <= i32::MAX,
    ensures
        finds_way(st, w, h) <==> exists|d: Coords|
            #[trigger] is_dir(d) && is_free(st.0, w, h, st.1.x + d.x, st.1.y + d.y) && is_free(
                st.0,
                w,
                h,
                st.1.x + 2 * d.x,
                st.1.y + 2 * d.y,
            ),
{
    lemma_poss_upto(st.0, w, h, st.1, 4);
    if finds_way(st, w, h) {
        let p = poss_upto(st.0, w, h, st.1, 4)[0];
        assert(crate::labyrinth::can_carve(st.0, w, h, st.1, p.direction));
    }
    if exists|d: Coords|
        #[trigger] is_dir(d) && is_free(st.0, w, h, st.1.x + d.x, st.1.y + d.y) && is_free(
            st.0,
            w,
            h,
            st.1.x + 2 * d.x,
            st.1.y + 2 * d.y,
        ) {
        let d = choose|d: Coords|
            #[trigger] is_dir(d) && is_free(st.0, w, h, st.1.x + d.x, st.1.y + d.y) && is_free(
                st.0,
                w,
                h,
                st.1.x + 2 * d.x,
                st.1.y + 2 * d.y,
            );
        lemma_poss_nonempty(st.0, w, h, st.1, d);
    }
}

} // verus!
