//! The board model: an N×N grid of tile labels, 0 being the blank.

use vstd::prelude::*;
use vstd::arithmetic::div_mod::{lemma_fundamental_div_mod, lemma_fundamental_div_mod_converse, lemma_mod_pos_bound};
use vstd::seq_lib::to_multiset_update;
use vstd::multiset::group_multiset_axioms;

verus! {

/// Largest side length: every label 0..N²-1 of a board must fit in a `u8`.
pub const MAX_SIDE: usize = 16;

/// N rows of N cells each, with 1 <= N <= `MAX_SIDE`.
pub open spec fn is_grid(b: Seq<Seq<u8>>) -> bool {
    &&& 1 <= b.len() <= MAX_SIDE
    &&& forall|i: int| 0 <= i < b.len() ==> #[trigger] b[i].len() == b.len()
}

/// The cell at row-major position `k`.
pub open spec fn cell(b: Seq<Seq<u8>>, k: int) -> u8 {
    b[k / b.len() as int][k % b.len() as int]
}

/// The board read row by row.
pub open spec fn flat(b: Seq<Seq<u8>>) -> Seq<u8> {
    Seq::new(b.len() * b.len(), |k: int| cell(b, k))
}

/// The labels 0, 1, ..., n-1 in increasing order.
pub open spec fn labels(n: nat) -> Seq<u8> {
    Seq::new(n, |i: int| i as u8)
}

/// A well-formed puzzle: an N×N grid holding the blank exactly once and each
/// of 1..N²-1 exactly once.
pub open spec fn is_puzzle(b: Seq<Seq<u8>>) -> bool {
    &&& is_grid(b)
    &&& flat(b).to_multiset() == labels(b.len() * b.len()).to_multiset()
}

/// Read row by row, the first N²-1 cells hold 1, 2, ..., N²-1; the last cell
/// is not examined.
pub open spec fn solved_spec(b: Seq<Seq<u8>>) -> bool {
    forall|k: int| 0 <= k < flat(b).len() - 1 ==> flat(b)[k] == k + 1
}

/// Row-major position `k` lies in row `k / n` and column `k % n`.
pub proof fn lemma_cell_bounds(n: int, k: int)
    requires
        0 < n,
        0 <= k < n * n,
    ensures
        0 <= k / n < n,
        0 <= k % n < n,
        k == (k / n) * n + k % n,
{
    lemma_fundamental_div_mod(k, n);
    lemma_mod_pos_bound(k, n);
    let q = k / n;
    let m = k % n;
    assert(0 <= q < n) by (nonlinear_arith)
        requires 0 < n, k == n * q + m, 0 <= k < n * n, 0 <= m < n;
    assert(k == q * n + m) by (nonlinear_arith)
        requires k == n * q + m;
}

/// Row `r` and column `c` sit at row-major position `r * n + c`.
pub proof fn lemma_position(n: int, r: int, c: int)
    requires
        0 <= r < n,
        0 <= c < n,
    ensures
        0 <= r * n + c < n * n,
        (r * n + c) / n == r,
        (r * n + c) % n == c,
{
    lemma_fundamental_div_mod_converse(r * n + c, n, r, c);
    assert(0 <= r * n + c < n * n) by (nonlinear_arith)
        requires 0 <= r < n, 0 <= c < n;
}

/// Solved-state test: true iff the tiles read row by row are 1, 2, ..., N²-1
/// (the final cell is not examined).
pub fn is_solved(board: &Vec<Vec<u8>>) -> (r: bool)
    requires
        is_grid(board.deep_view()),
    ensures
        r == solved_spec(board.deep_view()),
{
    let ghost b = board.deep_view();
    let n = board.len();
    proof {
        assert(1 <= n * n <= MAX_SIDE * MAX_SIDE) by (nonlinear_arith)
            requires 1 <= n <= MAX_SIDE;
    }
    let total = n * n;
    let mut k: usize = 0;
    while k + 1 < total
        invariant
            b == board.deep_view(),
            is_grid(b),
            n == b.len(),
            total == n * n,
            flat(b).len() == total,
            k < total,
            forall|k2: int| 0 <= k2 < k ==> flat(b)[k2] == k2 + 1,
        decreases total - k,
    {
        proof {
            lemma_cell_bounds(n as int, k as int);
            assert(board@[(k / n) as int]@.len() == b[(k / n) as int].len());
        }
        let tile = board[k / n][k % n];
        assert(tile == flat(b)[k as int]);
        if tile as usize != k + 1 {
            return false;
        }
        k += 1;
    }
    true
}

/// The direction a move takes the blank in: the neighbouring tile on that
/// side slides into the blank's cell.
#[derive(Clone, Copy, Debug, PartialEq, Eq, Structural)]
pub enum Direction {
    Up,
    Down,
    Left,
    Right,
}

/// The direction that undoes a move in direction `d`.
pub open spec fn opposite_spec(d: Direction) -> Direction {
    match d {
        Direction::Up => Direction::Down,
        Direction::Down => Direction::Up,
        Direction::Left => Direction::Right,
        Direction::Right => Direction::Left,
    }
}

impl Direction {
    /// The direction that undoes a move in this direction.
    pub fn opposite(self) -> (r: Direction)
        ensures
            r == opposite_spec(self),
    {
        match self {
            Direction::Up => Direction::Down,
            Direction::Down => Direction::Up,
            Direction::Left => Direction::Right,
            Direction::Right => Direction::Left,
        }
    }
}

/// The board holds a blank somewhere.
pub open spec fn has_blank(b: Seq<Seq<u8>>) -> bool {
    flat(b).contains(0)
}

/// `k` is the first row-major position of a blank.
pub open spec fn is_first_blank(b: Seq<Seq<u8>>, k: int) -> bool {
    &&& 0 <= k < flat(b).len()
    &&& flat(b)[k] == 0
    &&& forall|k2: int| 0 <= k2 < k ==> flat(b)[k2] != 0
}

/// The first row-major position of a blank.
pub open spec fn first_blank(b: Seq<Seq<u8>>) -> int {
    choose|k: int| is_first_blank(b, k)
}

/// Where the tile that slides into a blank at position `k` of an `n`-wide
/// grid stands, for a move in direction `d`; `None` where the blank sits on
/// that edge of the grid.
pub open spec fn target(n: int, k: int, d: Direction) -> Option<int> {
    match d {
        Direction::Up => if k / n > 0 { Some(k - n) } else { None },
        Direction::Down => if k / n < n - 1 { Some(k + n) } else { None },
        Direction::Left => if k % n > 0 { Some(k - 1) } else { None },
        Direction::Right => if k % n < n - 1 { Some(k + 1) } else { None },
    }
}

/// The sequence `s` with the entries at `i` and `j` exchanged.
pub open spec fn swap(s: Seq<u8>, i: int, j: int) -> Seq<u8> {
    s.update(i, s[j]).update(j, s[i])
}

/// What a move in direction `d` yields: `None` where the blank sits on that
/// edge, else the board whose row-major reading is that of `b` with the
/// blank and the target tile exchanged.
pub open spec fn move_spec(b: Seq<Seq<u8>>, d: Direction) -> Option<Seq<u8>> {
    match target(b.len() as int, first_blank(b), d) {
        None => None,
        Some(t) => Some(swap(flat(b), first_blank(b), t)),
    }
}

/// A position holding a blank has a first blank at or before it.
pub proof fn lemma_first_blank_exists(b: Seq<Seq<u8>>, k: int)
    requires
        0 <= k < flat(b).len(),
        flat(b)[k] == 0,
    ensures
        is_first_blank(b, first_blank(b)),
        first_blank(b) <= k,
    decreases k,
{
    if exists|k2: int| 0 <= k2 < k && flat(b)[k2] == 0 {
        let k2 = choose|k2: int| 0 <= k2 < k && flat(b)[k2] == 0;
        lemma_first_blank_exists(b, k2);
    } else {
        assert(is_first_blank(b, k));
        lemma_first_blank_unique(b, k, first_blank(b));
    }
}

/// There is at most one first blank.
pub proof fn lemma_first_blank_unique(b: Seq<Seq<u8>>, k1: int, k2: int)
    requires
        is_first_blank(b, k1),
        is_first_blank(b, k2),
    ensures
        k1 == k2,
{
}

/// A board with a blank has a first one.
pub proof fn lemma_has_first_blank(b: Seq<Seq<u8>>)
    requires
        has_blank(b),
    ensures
        is_first_blank(b, first_blank(b)),
{
    let k = choose|k: int| 0 <= k < flat(b).len() && flat(b)[k] == 0;
    lemma_first_blank_exists(b, k);
}

/// Writing `v` at row `r`, column `c` writes it at position `r * n + c` of
/// the row-major reading.
pub proof fn lemma_flat_update(b: Seq<Seq<u8>>, r: int, c: int, v: u8)
    requires
        is_grid(b),
        0 <= r < b.len(),
        0 <= c < b.len(),
    ensures
        is_grid(b.update(r, b[r].update(c, v))),
        flat(b.update(r, b[r].update(c, v))) == flat(b).update(r * b.len() + c, v),
{
    let n = b.len() as int;
    let b2 = b.update(r, b[r].update(c, v));
    lemma_position(n, r, c);
    assert forall|k: int| 0 <= k < n * n implies #[trigger] flat(b2)[k] == flat(b).update(
        r * n + c,
        v,
    )[k] by {
        lemma_cell_bounds(n, k);
    }
    assert(flat(b2) =~= flat(b).update(r * n + c, v));
}

/// Two grids of one size with the same row-major reading are equal.
pub proof fn lemma_flat_injective(a: Seq<Seq<u8>>, b: Seq<Seq<u8>>)
    requires
        is_grid(a),
        is_grid(b),
        a.len() == b.len(),
        flat(a) == flat(b),
    ensures
        a == b,
{
    let n = a.len() as int;
    assert forall|i: int| 0 <= i < n implies #[trigger] a[i] == b[i] by {
        assert forall|j: int| 0 <= j < n implies a[i][j] == b[i][j] by {
            lemma_position(n, i, j);
            assert(flat(a)[i * n + j] == cell(a, i * n + j));
            assert(flat(b)[i * n + j] == cell(b, i * n + j));
        }
        assert(a[i] =~= b[i]);
    }
    assert(a =~= b);
}

/// The deep view of a row is its plain view.
pub proof fn lemma_row_view(v: Vec<u8>)
    ensures
        v.deep_view() == v@,
{
    assert(v.deep_view() =~= v@);
}

/// A copy of one row.
fn copy_row(row: &Vec<u8>) -> (r: Vec<u8>)
    ensures
        r@ == row@,
{
    let mut r: Vec<u8> = Vec::new();
    let mut j: usize = 0;
    while j < row.len()
        invariant
            j <= row.len(),
            r@ == row@.take(j as int),
        decreases row.len() - j,
    {
        r.push(row[j]);
        j += 1;
        assert(r@ =~= row@.take(j as int));
    }
    assert(row@.take(j as int) =~= row@);
    r
}

/// A copy of a whole board.
pub(crate) fn copy_board(board: &Vec<Vec<u8>>) -> (r: Vec<Vec<u8>>)
    ensures
        r.deep_view() == board.deep_view(),
{
    let mut r: Vec<Vec<u8>> = Vec::new();
    let mut i: usize = 0;
    while i < board.len()
        invariant
            i <= board.len(),
            r@.len() == i,
            forall|x: int| 0 <= x < i ==> #[trigger] r@[x]@ == board@[x]@,
        decreases board.len() - i,
    {
        let row = copy_row(&board[i]);
        r.push(row);
        i += 1;
    }
    assert forall|x: int| 0 <= x < r@.len() implies #[trigger] r.deep_view()[x]
        == board.deep_view()[x] by {
        lemma_row_view(r@[x]);
        lemma_row_view(board@[x]);
    }
    assert(r.deep_view() =~= board.deep_view());
    r
}

/// Writes `v` at row `r`, column `c`.
fn set_cell(board: &mut Vec<Vec<u8>>, r: usize, c: usize, v: u8)
    requires
        r < old(board).deep_view().len(),
        c < old(board).deep_view()[r as int].len(),
    ensures
        final(board).deep_view() == old(board).deep_view().update(
            r as int,
            old(board).deep_view()[r as int].update(c as int, v),
        ),
{
    assert(board@[r as int]@.len() == old(board).deep_view()[r as int].len());
    let mut row = copy_row(&board[r]);
    row.set(c, v);
    proof {
        lemma_row_view(row);
        lemma_row_view(old(board)@[r as int]);
    }
    board.set(r, row);
    assert(board.deep_view() =~= old(board).deep_view().update(
        r as int,
        old(board).deep_view()[r as int].update(c as int, v),
    ));
}

/// The first row-major position of the blank.
pub fn find_blank(board: &Vec<Vec<u8>>) -> (k: usize)
    requires
        is_grid(board.deep_view()),
        has_blank(board.deep_view()),
    ensures
        k == first_blank(board.deep_view()),
        is_first_blank(board.deep_view(), k as int),
{
    let ghost b = board.deep_view();
    let size = board.len();
    proof {
        assert(1 <= size * size <= MAX_SIDE * MAX_SIDE) by (nonlinear_arith)
            requires 1 <= size <= MAX_SIDE;
        lemma_has_first_blank(b);
    }
    let total = size * size;
    let ghost first = first_blank(b);
    let mut k: usize = 0;
    loop
        invariant
            b == board.deep_view(),
            is_grid(b),
            size == b.len(),
            total == size * size,
            flat(b).len() == total,
            is_first_blank(b, first),
            0 <= k <= first,
        ensures
            k == first,
        decreases first - k,
    {
        proof {
            lemma_cell_bounds(size as int, k as int);
            assert(board@[(k / size) as int]@.len() == b[(k / size) as int].len());
        }
        if board[k / size][k % size] == 0 {
            assert(flat(b)[k as int] == b[(k / size) as int][(k % size) as int]);
            break;
        }
        assert(flat(b)[k as int] == b[(k / size) as int][(k % size) as int]);
        k += 1;
    }
    k
}

/// Move engine: slides the tile next to the blank, on side `direction`, into
/// the blank's cell. Returns `None`, the no-op outcome, where the blank sits
/// on that edge; else a new board with the blank and that tile exchanged. The
/// blank is the first 0 in row-major order.
pub fn make_move(board: &Vec<Vec<u8>>, direction: Direction) -> (r: Option<Vec<Vec<u8>>>)
    requires
        is_grid(board.deep_view()),
        has_blank(board.deep_view()),
    ensures
        match move_spec(board.deep_view(), direction) {
            None => r.is_none(),
            Some(s) => r.is_some() && is_grid(r.unwrap().deep_view()) && r.unwrap().deep_view().len()
                == board.deep_view().len() && flat(r.unwrap().deep_view()) == s,
        },
{
    let ghost b = board.deep_view();
    let size = board.len();
    proof {
        assert(1 <= size * size <= MAX_SIDE * MAX_SIDE) by (nonlinear_arith)
            requires 1 <= size <= MAX_SIDE;
    }
    let k = find_blank(board);
    let row = k / size;
    let col = k % size;
    proof {
        lemma_cell_bounds(size as int, k as int);
    }
    let (new_row, new_col) = match direction {
        Direction::Up => {
            if row > 0 {
                (row - 1, col)
            } else {
                return None;
            }
        },
        Direction::Down => {
            if row < size - 1 {
                (row + 1, col)
            } else {
                return None;
            }
        },
        Direction::Left => {
            if col > 0 {
                (row, col - 1)
            } else {
                return None;
            }
        },
        Direction::Right => {
            if col < size - 1 {
                (row, col + 1)
            } else {
                return None;
            }
        },
    };
    let ghost t = new_row * size + new_col;
    proof {
        assert(target(size as int, k as int, direction) == Some(t)) by (nonlinear_arith)
            requires
                k == row * size + col,
                t == new_row * size + new_col,
                row == k / size,
                col == k % size,
                direction == Direction::Up ==> row > 0 && new_row == row - 1 && new_col == col,
                direction == Direction::Down ==> row < size - 1 && new_row == row + 1 && new_col == col,
                direction == Direction::Left ==> col > 0 && new_row == row && new_col == col - 1,
                direction == Direction::Right ==> col < size - 1 && new_row == row && new_col == col + 1,
        ;
        lemma_position(size as int, new_row as int, new_col as int);
        lemma_position(size as int, row as int, col as int);
    }
    proof {
        assert(board@[new_row as int]@.len() == b[new_row as int].len());
    }
    let moved = board[new_row][new_col];
    assert(moved == flat(b)[t]);
    let mut new_board = copy_board(board);
    set_cell(&mut new_board, row, col, moved);
    proof {
        lemma_flat_update(b, row as int, col as int, moved);
    }
    let ghost b1 = new_board.deep_view();
    set_cell(&mut new_board, new_row, new_col, 0);
    proof {
        lemma_flat_update(b1, new_row as int, new_col as int, 0);
    }
    Some(new_board)
}

/// The canonical solved reading of an `m`-cell board: 1, 2, ..., m-1, then
/// the blank.
pub open spec fn canonical(m: nat) -> Seq<u8> {
    Seq::new(m, |i: int| if i < m - 1 { (i + 1) as u8 } else { 0u8 })
}

/// What a puzzle's reading holds: no label twice, every label below N², and
/// the blank.
pub proof fn lemma_puzzle_facts(b: Seq<Seq<u8>>)
    requires
        is_puzzle(b),
    ensures
        flat(b).no_duplicates(),
        forall|i: int| 0 <= i < flat(b).len() ==> (#[trigger] flat(b)[i]) < b.len() * b.len(),
        has_blank(b),
        flat(b).len() == b.len() * b.len(),
{
    let m = b.len() * b.len();
    assert(1 <= m <= MAX_SIDE * MAX_SIDE) by (nonlinear_arith)
        requires 1 <= b.len() <= MAX_SIDE, m == b.len() * b.len();
    let l = labels(m);
    let s = flat(b);
    assert(l.no_duplicates());
    l.lemma_multiset_has_no_duplicates();
    l.to_multiset_ensures();
    s.to_multiset_ensures();
    s.lemma_multiset_has_no_duplicates_conv();
    assert forall|i: int| 0 <= i < s.len() implies (#[trigger] s[i]) < m by {
        assert(s.contains(s[i]));
        assert(s.to_multiset().count(s[i]) > 0);
        assert(l.to_multiset().count(s[i]) > 0);
        let j = choose|j: int| 0 <= j < l.len() && l[j] == s[i];
        assert(l[j] == j as u8);
    }
    assert(l[0] == 0);
    assert(l.contains(0));
    assert(l.to_multiset().count(0) > 0);
    assert(s.to_multiset().count(0) > 0);
}

/// Exchanging two entries keeps what a sequence holds.
pub proof fn lemma_swap_multiset(s: Seq<u8>, i: int, j: int)
    requires
        0 <= i < s.len(),
        0 <= j < s.len(),
    ensures
        swap(s, i, j).to_multiset() == s.to_multiset(),
        swap(s, i, j).len() == s.len(),
{
    broadcast use group_multiset_axioms;
    let s1 = s.update(i, s[j]);
    to_multiset_update(s, i, s[j]);
    to_multiset_update(s1, j, s[i]);
    s.to_multiset_ensures();
    assert(s.to_multiset().count(s[i]) > 0);
    assert(s.to_multiset().insert(s[j]).remove(s[i]).insert(s[i]).remove(s1[j]) =~= s.to_multiset());
}

/// A move never breaks the permutation invariant.
pub proof fn lemma_move_keeps_puzzle(b: Seq<Seq<u8>>, d: Direction, b2: Seq<Seq<u8>>)
    requires
        is_puzzle(b),
        is_grid(b2),
        b2.len() == b.len(),
        move_spec(b, d) == Some(flat(b2)),
    ensures
        is_puzzle(b2),
{
    let n = b.len() as int;
    lemma_puzzle_facts(b);
    lemma_has_first_blank(b);
    let k = first_blank(b);
    let t = target(n, k, d)->Some_0;
    lemma_move_target_bounds(n, k, d);
    lemma_swap_multiset(flat(b), k, t);
}

/// A move's target lies on the grid.
pub proof fn lemma_move_target_bounds(n: int, k: int, d: Direction)
    requires
        0 < n,
        0 <= k < n * n,
    ensures
        target(n, k, d) matches Some(t) ==> 0 <= t < n * n && t != k,
{
    lemma_cell_bounds(n, k);
    let r = k / n;
    let c = k % n;
    match d {
        Direction::Up => {
            if r > 0 {
                lemma_position(n, r - 1, c);
                assert((r - 1) * n + c == k - n) by (nonlinear_arith)
                    requires k == r * n + c;
            }
        },
        Direction::Down => {
            if r < n - 1 {
                lemma_position(n, r + 1, c);
                assert((r + 1) * n + c == k + n) by (nonlinear_arith)
                    requires k == r * n + c;
            }
        },
        Direction::Left => {
            if c > 0 {
                lemma_position(n, r, c - 1);
            }
        },
        Direction::Right => {
            if c < n - 1 {
                lemma_position(n, r, c + 1);
            }
        },
    }
}

/// The opposite direction leads from a move's target back to the blank.
pub proof fn lemma_target_back(n: int, k: int, d: Direction)
    requires
        0 < n,
        0 <= k < n * n,
        target(n, k, d) is Some,
    ensures
        target(n, target(n, k, d)->Some_0, opposite_spec(d)) == Some(k),
{
    lemma_cell_bounds(n, k);
    let r = k / n;
    let c = k % n;
    match d {
        Direction::Up => {
            lemma_position(n, r - 1, c);
            assert((r - 1) * n + c == k - n) by (nonlinear_arith)
                requires k == r * n + c;
        },
        Direction::Down => {
            lemma_position(n, r + 1, c);
            assert((r + 1) * n + c == k + n) by (nonlinear_arith)
                requires k == r * n + c;
        },
        Direction::Left => {
            lemma_position(n, r, c - 1);
        },
        Direction::Right => {
            lemma_position(n, r, c + 1);
        },
    }
}

/// The blank at position `k` of an `n`-wide grid sits on the edge that a
/// move in direction `d` would cross.
pub open spec fn on_edge(n: int, k: int, d: Direction) -> bool {
    match d {
        Direction::Up => k / n == 0,
        Direction::Down => k / n == n - 1,
        Direction::Left => k % n == 0,
        Direction::Right => k % n == n - 1,
    }
}

/// A move is refused exactly where the blank sits on the edge it would
/// cross: row 0 for up, the last row for down, column 0 for left, the last
/// column for right.
pub proof fn lemma_refused_iff_on_edge(b: Seq<Seq<u8>>, d: Direction)
    requires
        is_grid(b),
        has_blank(b),
    ensures
        move_spec(b, d) is None <==> on_edge(b.len() as int, first_blank(b), d),
{
    lemma_has_first_blank(b);
    lemma_cell_bounds(b.len() as int, first_blank(b));
}

/// A move followed by the move in the opposite direction gives back the
/// board it started from.
pub proof fn lemma_move_then_opposite(b: Seq<Seq<u8>>, d: Direction, b2: Seq<Seq<u8>>)
    requires
        is_puzzle(b),
        is_grid(b2),
        b2.len() == b.len(),
        move_spec(b, d) == Some(flat(b2)),
    ensures
        move_spec(b2, opposite_spec(d)) == Some(flat(b)),
        forall|b3: Seq<Seq<u8>>|
            is_grid(b3) && b3.len() == b.len() && move_spec(b2, opposite_spec(d)) == Some(
                #[trigger] flat(b3),
            ) ==> b3 == b,
{
    let n = b.len() as int;
    lemma_puzzle_facts(b);
    lemma_has_first_blank(b);
    let s = flat(b);
    let k = first_blank(b);
    let t = target(n, k, d)->Some_0;
    lemma_move_target_bounds(n, k, d);
    lemma_target_back(n, k, d);
    let s2 = flat(b2);
    assert(s[t] != 0);
    assert(s2 == swap(s, k, t));
    assert forall|k2: int| 0 <= k2 < t implies s2[k2] != 0 by {
        if k2 != k {
            assert(s2[k2] == s[k2]);
        }
    }
    assert(is_first_blank(b2, t));
    lemma_has_first_blank(b2);
    lemma_first_blank_unique(b2, t, first_blank(b2));
    assert(swap(s2, t, k) =~= s);
    assert forall|b3: Seq<Seq<u8>>|
        is_grid(b3) && b3.len() == b.len() && move_spec(b2, opposite_spec(d)) == Some(
            #[trigger] flat(b3),
        ) implies b3 == b by {
        lemma_flat_injective(b3, b);
    }
}

/// On a puzzle, the solved-state test holds exactly of the canonical
/// ordering 1, 2, ..., N²-1 followed by the blank.
pub proof fn lemma_solved_iff_canonical(b: Seq<Seq<u8>>)
    requires
        is_puzzle(b),
    ensures
        solved_spec(b) <==> flat(b) == canonical(b.len() * b.len()),
{
    let m = b.len() * b.len();
    let s = flat(b);
    lemma_puzzle_facts(b);
    assert(1 <= m <= MAX_SIDE * MAX_SIDE) by (nonlinear_arith)
        requires 1 <= b.len() <= MAX_SIDE, m == b.len() * b.len();
    if solved_spec(b) {
        assert(s.contains(0));
        let z = choose|z: int| 0 <= z < s.len() && s[z] == 0;
        assert(z == m - 1);
        assert forall|i: int| 0 <= i < m implies s[i] == #[trigger] canonical(m)[i] by {
            if i < m - 1 {
                assert(s[i] == i + 1);
            }
        }
        assert(s =~= canonical(m));
    }
    if s == canonical(m) {
        assert forall|k: int| 0 <= k < s.len() - 1 implies s[k] == k + 1 by {
            assert(s[k] == canonical(m)[k]);
        }
    }
}

} // verus!
