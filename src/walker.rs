//! The random walker: random moves until the board is solved.

use vstd::prelude::*;
use rand::rngs::StdRng;
use crate::board::{
    copy_board, flat, has_blank, is_grid, is_puzzle, is_solved, lemma_move_keeps_puzzle,
    lemma_puzzle_facts, make_move, move_spec, solved_spec, Direction,
};
use crate::rng::draw_below;

verus! {

/// What the walker does after a move was refused at the edge.
#[derive(Clone, Copy, Debug, PartialEq, Eq, Structural)]
pub enum RetryPolicy {
    /// Every draw is uniform over the four directions.
    Uniform,
    /// The draw right after a refused move leaves that direction out.
    AvoidLastFailed,
}

/// The direction numbered `i`: up, down, left, right.
pub open spec fn direction_of(i: int) -> Direction {
    if i == 0 {
        Direction::Up
    } else if i == 1 {
        Direction::Down
    } else if i == 2 {
        Direction::Left
    } else {
        Direction::Right
    }
}

/// The number of a direction: up 0, down 1, left 2, right 3.
pub open spec fn index_of(d: Direction) -> int {
    match d {
        Direction::Up => 0,
        Direction::Down => 1,
        Direction::Left => 2,
        Direction::Right => 3,
    }
}

/// The directions left to draw from: three where the last move was refused
/// and the policy leaves it out, else four.
pub open spec fn choices(policy: RetryPolicy, last_failed: Option<Direction>) -> int {
    if policy == RetryPolicy::AvoidLastFailed && last_failed is Some {
        3
    } else {
        4
    }
}

/// The direction that draw `draw` picks: the directions in order, the left
/// out one skipped.
pub open spec fn pick_spec(policy: RetryPolicy, last_failed: Option<Direction>, draw: int) -> Direction {
    match last_failed {
        Some(f) => if policy == RetryPolicy::AvoidLastFailed && draw >= index_of(f) {
            direction_of(draw + 1)
        } else {
            direction_of(draw)
        },
        None => direction_of(draw),
    }
}

/// The direction that a draw below `choices(policy, last_failed)` picks;
/// under `AvoidLastFailed` it is never the direction refused last.
pub fn pick_direction(policy: RetryPolicy, last_failed: Option<Direction>, draw: u8) -> (d: Direction)
    requires
        draw < choices(policy, last_failed),
    ensures
        d == pick_spec(policy, last_failed, draw as int),
        policy == RetryPolicy::AvoidLastFailed && last_failed is Some ==> d != last_failed->Some_0,
{
    let mut i = draw;
    if let RetryPolicy::AvoidLastFailed = policy {
        if let Some(f) = last_failed {
            let fi: u8 = match f {
                Direction::Up => 0,
                Direction::Down => 1,
                Direction::Left => 2,
                Direction::Right => 3,
            };
            if draw >= fi {
                i = draw + 1;
            }
        }
    }
    if i == 0 {
        Direction::Up
    } else if i == 1 {
        Direction::Down
    } else if i == 2 {
        Direction::Left
    } else {
        Direction::Right
    }
}

/// One step of the walk for a given draw: the direction it picks, the board
/// after the move (`None` where the move was refused at the edge), and the
/// direction to remember as refused (`None` after a move that was made).
pub fn walk_step(
    board: &Vec<Vec<u8>>,
    policy: RetryPolicy,
    last_failed: Option<Direction>,
    draw: u8,
) -> (r: (Option<Vec<Vec<u8>>>, Option<Direction>))
    requires
        is_grid(board.deep_view()),
        has_blank(board.deep_view()),
        draw < choices(policy, last_failed),
    ensures
        ({
            let d = pick_spec(policy, last_failed, draw as int);
            match move_spec(board.deep_view(), d) {
                None => r.0 is None && r.1 == Some(d),
                Some(s) => r.0 matches Some(nb) && is_grid(nb.deep_view()) && nb.deep_view().len()
                    == board.deep_view().len() && flat(nb.deep_view()) == s && r.1 is None,
            }
        }),
{
    let d = pick_direction(policy, last_failed, draw);
    match make_move(board, d) {
        Some(nb) => (Some(nb), None),
        None => (None, Some(d)),
    }
}

/// The draw bound for the next step: `choices(policy, last_failed)`.
pub fn draw_bound(policy: RetryPolicy, last_failed: Option<Direction>) -> (b: u8)
    ensures
        b as int == choices(policy, last_failed),
{
    match (policy, last_failed) {
        (RetryPolicy::AvoidLastFailed, Some(_)) => 3,
        _ => 4,
    }
}

/// Trying direction `d` on `c` gives `b`: the board the move makes, or `c`
/// itself where the move is refused.
pub open spec fn tries(c: Seq<Seq<u8>>, d: Direction, b: Seq<Seq<u8>>) -> bool {
    match move_spec(c, d) {
        None => b == c,
        Some(s) => is_grid(b) && b.len() == c.len() && flat(b) == s,
    }
}

/// Boards `path[0]`, ..., `path[steps]` from `a` to `b`, where `path[i + 1]`
/// is what trying `dirs[i]` on `path[i]` gives.
pub open spec fn is_walk(
    path: Seq<Seq<Seq<u8>>>,
    dirs: Seq<Direction>,
    a: Seq<Seq<u8>>,
    b: Seq<Seq<u8>>,
    steps: nat,
) -> bool {
    &&& path.len() == steps + 1
    &&& dirs.len() == steps
    &&& path[0] == a
    &&& path[steps as int] == b
    &&& forall|i: int| 0 <= i < steps ==> tries(#[trigger] path[i], dirs[i], path[i + 1])
}

/// No board before the last one of the walk is solved: the walk stops at the
/// first solved board.
pub open spec fn stops_when_solved(path: Seq<Seq<Seq<u8>>>, steps: nat) -> bool {
    forall|i: int| 0 <= i < steps ==> !solved_spec(#[trigger] path[i])
}

/// After a refused direction, the next direction tried is another one.
pub open spec fn avoids_refused(path: Seq<Seq<Seq<u8>>>, dirs: Seq<Direction>) -> bool {
    forall|i: int|
        0 <= i && i + 1 < dirs.len() && (#[trigger] move_spec(path[i], dirs[i])) is None ==> dirs[i
            + 1] != dirs[i]
}

/// What the walker remembers after the walk so far: the last direction tried
/// where it was refused.
pub open spec fn refused_last(path: Seq<Seq<Seq<u8>>>, dirs: Seq<Direction>) -> Option<Direction> {
    if dirs.len() > 0 && move_spec(path[dirs.len() - 1], dirs.last()) is None {
        Some(dirs.last())
    } else {
        None
    }
}

/// Random walker: from `board`, draws a direction and tries the move, until
/// the board is solved or `max_moves` moves were tried; returns the final
/// board and the number of moves tried. A refused move leaves the board as
/// it was and counts as a move. The walk never passes a solved board, and
/// under `AvoidLastFailed` a refused direction is not the next one tried.
pub fn make_random_moves(
    board: &Vec<Vec<u8>>,
    policy: RetryPolicy,
    max_moves: u64,
    rng: &mut StdRng,
) -> (r: (Vec<Vec<u8>>, u64))
    requires
        is_puzzle(board.deep_view()),
    ensures
        is_puzzle(r.0.deep_view()),
        r.0.deep_view().len() == board.deep_view().len(),
        r.1 <= max_moves,
        solved_spec(r.0.deep_view()) || r.1 == max_moves,
        solved_spec(board.deep_view()) ==> r.1 == 0,
        exists|path: Seq<Seq<Seq<u8>>>, dirs: Seq<Direction>|
            #[trigger] is_walk(path, dirs, board.deep_view(), r.0.deep_view(), r.1 as nat)
                && stops_when_solved(path, r.1 as nat) && (policy == RetryPolicy::AvoidLastFailed
                ==> avoids_refused(path, dirs)),
{
    let mut current = copy_board(board);
    let mut last_failed: Option<Direction> = None;
    let mut moves: u64 = 0;
    let ghost mut path: Seq<Seq<Seq<u8>>> = seq![board.deep_view()];
    let ghost mut dirs: Seq<Direction> = Seq::empty();
    while moves < max_moves && !is_solved(&current)
        invariant
            is_puzzle(current.deep_view()),
            current.deep_view().len() == board.deep_view().len(),
            moves <= max_moves,
            is_walk(path, dirs, board.deep_view(), current.deep_view(), moves as nat),
            stops_when_solved(path, moves as nat),
            policy == RetryPolicy::AvoidLastFailed ==> avoids_refused(path, dirs),
            last_failed == refused_last(path, dirs),
            solved_spec(board.deep_view()) ==> moves == 0,
        decreases max_moves - moves,
    {
        proof {
            lemma_puzzle_facts(current.deep_view());
        }
        let bound = draw_bound(policy, last_failed);
        let draw = draw_below(rng, bound);
        let (next, failed) = walk_step(&current, policy, last_failed, draw);
        let ghost before = current.deep_view();
        let ghost d = pick_spec(policy, last_failed, draw as int);
        proof {
            pick_spec_avoids(policy, last_failed, draw as int);
        }
        if let Some(nb) = next {
            proof {
                lemma_move_keeps_puzzle(before, d, nb.deep_view());
            }
            current = nb;
        }
        proof {
            let old_path = path;
            let old_dirs = dirs;
            path = path.push(current.deep_view());
            dirs = dirs.push(d);
            assert(tries(before, d, current.deep_view()));
            assert forall|i: int| 0 <= i < moves + 1 implies tries(
                #[trigger] path[i],
                dirs[i],
                path[i + 1],
            ) by {
                if i < moves {
                    assert(old_path[i] == path[i] && old_path[i + 1] == path[i + 1]);
                    assert(old_dirs[i] == dirs[i]);
                }
            }
            assert forall|i: int| 0 <= i < moves + 1 implies !solved_spec(#[trigger] path[i]) by {
                if i < moves {
                    assert(old_path[i] == path[i]);
                }
            }
            if policy == RetryPolicy::AvoidLastFailed {
                assert forall|i: int|
                    0 <= i && i + 1 < dirs.len() && (#[trigger] move_spec(
                        path[i],
                        dirs[i],
                    )) is None implies dirs[i + 1] != dirs[i] by {
                    if i + 1 < moves {
                        assert(old_path[i] == path[i]);
                        assert(old_dirs[i] == dirs[i] && old_dirs[i + 1] == dirs[i + 1]);
                    } else {
                        assert(old_dirs[i] == dirs[i]);
                        assert(old_path[i] == path[i]);
                    }
                }
            }
            assert(dirs.last() == d);
            assert(path[dirs.len() - 1] == before);
        }
        last_failed = failed;
        moves += 1;
    }
    proof {
        assert(is_walk(path, dirs, board.deep_view(), current.deep_view(), moves as nat));
        assert(stops_when_solved(path, moves as nat));
        assert(policy == RetryPolicy::AvoidLastFailed ==> avoids_refused(path, dirs));
    }
    let r = (current, moves);
    proof {
        assert(r.0.deep_view() == current.deep_view());
        assert(is_walk(path, dirs, board.deep_view(), r.0.deep_view(), r.1 as nat));
    }
    r
}

/// Under `AvoidLastFailed`, a draw never picks the direction refused last.
pub proof fn pick_spec_avoids(policy: RetryPolicy, last_failed: Option<Direction>, draw: int)
    requires
        0 <= draw < choices(policy, last_failed),
    ensures
        policy == RetryPolicy::AvoidLastFailed && last_failed is Some ==> pick_spec(
            policy,
            last_failed,
            draw,
        ) != last_failed->Some_0,
{
}

} // verus!
