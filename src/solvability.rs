//! The inversion-parity solvability test.

use vstd::prelude::*;
use crate::board::{
    find_blank, first_blank, flat, has_blank, is_first_blank, is_grid, lemma_cell_bounds,
    lemma_first_blank_unique, lemma_flat_injective, lemma_has_first_blank,
    lemma_move_target_bounds, lemma_position, lemma_puzzle_facts, lemma_swap_multiset,
    move_spec, swap, target, is_puzzle, Direction, MAX_SIDE,
};

verus! {

/// The labels of `s` in order, the blanks left out.
pub open spec fn tiles(s: Seq<u8>) -> Seq<u8>
    decreases s.len(),
{
    if s.len() == 0 {
        Seq::empty()
    } else if s.last() != 0 {
        tiles(s.drop_last()).push(s.last())
    } else {
        tiles(s.drop_last())
    }
}

/// How many `j` with `from <= j < s.len()` have `s[i] > s[j]`.
pub open spec fn greater_after(s: Seq<u8>, i: int, from: int) -> nat
    decreases s.len() - from,
{
    if from < 0 || from >= s.len() {
        0
    } else {
        (if s[i] > s[from] { 1nat } else { 0nat }) + greater_after(s, i, from + 1)
    }
}

/// How many pairs `i < j` with `from <= i` have `s[i] > s[j]`.
pub open spec fn inversions_from(s: Seq<u8>, from: int) -> nat
    decreases s.len() - from,
{
    if from < 0 || from >= s.len() {
        0
    } else {
        greater_after(s, from, from + 1) + inversions_from(s, from + 1)
    }
}

/// How many pairs `i < j` have `s[i] > s[j]`.
pub open spec fn inversions(s: Seq<u8>) -> nat {
    inversions_from(s, 0)
}

/// The row of the first blank.
pub open spec fn blank_row(b: Seq<Seq<u8>>) -> int {
    first_blank(b) / b.len() as int
}

/// The inversions of the tiles read row by row, blank left out, plus for an
/// odd side length the row of the blank, make an even number.
pub open spec fn solvable_spec(b: Seq<Seq<u8>>) -> bool {
    let extra = if b.len() % 2 == 1 { blank_row(b) } else { 0 };
    (inversions(tiles(flat(b))) + extra) % 2 == 0
}

/// The tiles of a board, read row by row without the blank.
fn nonblank_tiles(board: &Vec<Vec<u8>>) -> (t: Vec<u8>)
    requires
        is_grid(board.deep_view()),
    ensures
        t@ == tiles(flat(board.deep_view())),
        t@.len() <= flat(board.deep_view()).len(),
{
    let ghost b = board.deep_view();
    let size = board.len();
    proof {
        assert(1 <= size * size <= MAX_SIDE * MAX_SIDE) by (nonlinear_arith)
            requires 1 <= size <= MAX_SIDE;
    }
    let total = size * size;
    let mut t: Vec<u8> = Vec::new();
    let mut k: usize = 0;
    while k < total
        invariant
            b == board.deep_view(),
            is_grid(b),
            size == b.len(),
            total == size * size,
            flat(b).len() == total,
            k <= total,
            t@ == tiles(flat(b).take(k as int)),
            t@.len() <= k,
        decreases total - k,
    {
        proof {
            lemma_cell_bounds(size as int, k as int);
            assert(board@[(k / size) as int]@.len() == b[(k / size) as int].len());
            assert(flat(b).take(k + 1).drop_last() =~= flat(b).take(k as int));
        }
        let x = board[k / size][k % size];
        assert(x == flat(b)[k as int]);
        if x != 0 {
            t.push(x);
        }
        k += 1;
    }
    assert(flat(b).take(k as int) =~= flat(b));
    t
}

/// Solvability test: counts the inversions among the tiles read row by
/// row with the blank left out, adds the blank's row where the side length
/// is odd, and reports whether the total is even.
pub fn is_solvable(board: &Vec<Vec<u8>>) -> (r: bool)
    requires
        is_grid(board.deep_view()),
        has_blank(board.deep_view()),
    ensures
        r == solvable_spec(board.deep_view()),
{
    let ghost b = board.deep_view();
    let t = nonblank_tiles(board);
    let len = t.len();
    proof {
        assert(len <= MAX_SIDE * MAX_SIDE) by (nonlinear_arith)
            requires len <= b.len() * b.len(), b.len() <= MAX_SIDE;
    }
    let mut inversions: usize = 0;
    let mut i: usize = 0;
    while i < len
        invariant
            len == t@.len(),
            len <= MAX_SIDE * MAX_SIDE,
            i <= len,
            inversions + inversions_from(t@, i as int) == inversions_from(t@, 0),
            inversions <= i * len,
            i * len <= len * len,
        decreases len - i,
    {
        let mut count: usize = 0;
        let mut j: usize = i + 1;
        while j < len
            invariant
                len == t@.len(),
                i < len,
                i + 1 <= j <= len,
                count + greater_after(t@, i as int, j as int) == greater_after(t@, i as int, i + 1),
                count <= j,
            decreases len - j,
        {
            if t[i] > t[j] {
                count += 1;
            }
            j += 1;
        }
        proof {
            assert(inversions + count <= (i + 1) * len <= MAX_SIDE * MAX_SIDE * MAX_SIDE * MAX_SIDE)
                by (nonlinear_arith)
                requires inversions <= i * len, count <= len, i < len, len <= MAX_SIDE * MAX_SIDE;
        }
        inversions += count;
        i += 1;
        proof {
            assert(i * len <= len * len) by (nonlinear_arith)
                requires i <= len;
        }
    }
    proof {
        assert(len * len <= MAX_SIDE * MAX_SIDE * MAX_SIDE * MAX_SIDE) by (nonlinear_arith)
            requires len <= MAX_SIDE * MAX_SIDE;
    }
    if board.len() % 2 == 1 {
        let k = find_blank(board);
        proof {
            lemma_cell_bounds(b.len() as int, k as int);
        }
        inversions += k / board.len();
    }
    inversions % 2 == 0
}

/// Leaving the blanks out of a concatenation leaves them out of each part.
pub proof fn lemma_tiles_add(s1: Seq<u8>, s2: Seq<u8>)
    ensures
        tiles(s1 + s2) == tiles(s1) + tiles(s2),
    decreases s2.len(),
{
    if s2.len() == 0 {
        assert(s1 + s2 =~= s1);
        assert(tiles(s2) =~= Seq::<u8>::empty());
        assert(tiles(s1) + tiles(s2) =~= tiles(s1));
    } else {
        lemma_tiles_add(s1, s2.drop_last());
        assert((s1 + s2).drop_last() =~= s1 + s2.drop_last());
        assert((s1 + s2).last() == s2.last());
        if s2.last() != 0 {
            assert(tiles(s1) + tiles(s2) =~= (tiles(s1) + tiles(s2.drop_last())).push(s2.last()));
        } else {
            assert(tiles(s1) + tiles(s2) =~= tiles(s1) + tiles(s2.drop_last()));
        }
    }
}

/// Two neighbours of which one is the blank give the same tiles in either
/// order.
pub proof fn lemma_tiles_pair(x: u8, y: u8)
    requires
        x == 0 || y == 0,
    ensures
        tiles(seq![x, y]) == tiles(seq![y, x]),
{
    assert(seq![x, y].drop_last() =~= seq![x]);
    assert(seq![y, x].drop_last() =~= seq![y]);
    assert(seq![x].drop_last() =~= Seq::<u8>::empty());
    assert(seq![y].drop_last() =~= Seq::<u8>::empty());
    assert(tiles(Seq::<u8>::empty()) == Seq::<u8>::empty());
    assert(seq![x].last() == x);
    assert(seq![y].last() == y);
    assert(seq![x, y].last() == y);
    assert(seq![y, x].last() == x);
    if x == 0 {
        assert(tiles(seq![x]) == Seq::<u8>::empty());
        assert(tiles(seq![x, y]) == tiles(seq![y]));
        assert(tiles(seq![y, x]) == tiles(seq![y]));
    } else {
        assert(tiles(seq![y]) == Seq::<u8>::empty());
        assert(tiles(seq![x, y]) == tiles(seq![x]));
        assert(tiles(seq![y, x]) == tiles(seq![y]).push(x));
        assert(tiles(seq![x]) == Seq::<u8>::empty().push(x));
        assert(tiles(seq![y]).push(x) =~= Seq::<u8>::empty().push(x));
    }
}

/// A sideways move, to the left or to the right, keeps the verdict of the
/// solvability test: the tiles read row by row stay in the same order and
/// the blank stays in its row.
pub proof fn lemma_sideways_move_keeps_solvability(
    b: Seq<Seq<u8>>,
    d: Direction,
    b2: Seq<Seq<u8>>,
)
    requires
        is_grid(b),
        has_blank(b),
        d == Direction::Left || d == Direction::Right,
        is_grid(b2),
        b2.len() == b.len(),
        move_spec(b, d) == Some(flat(b2)),
    ensures
        solvable_spec(b2) == solvable_spec(b),
{
    let n = b.len() as int;
    lemma_has_first_blank(b);
    let s = flat(b);
    let k = first_blank(b);
    let t = target(n, k, d)->Some_0;
    lemma_move_target_bounds(n, k, d);
    lemma_cell_bounds(n, k);
    let s2 = flat(b2);
    assert(s2 == swap(s, k, t));
    if s[t] == 0 {
        assert(s2 =~= s);
        lemma_flat_injective(b2, b);
    } else {
        let lo = if d == Direction::Left { t } else { k };
        assert(s =~= s.take(lo) + (seq![s[lo], s[lo + 1]] + s.skip(lo + 2)));
        assert(s2 =~= s.take(lo) + (seq![s[lo + 1], s[lo]] + s.skip(lo + 2)));
        lemma_tiles_pair(s[lo], s[lo + 1]);
        lemma_tiles_add(s.take(lo), seq![s[lo], s[lo + 1]] + s.skip(lo + 2));
        lemma_tiles_add(s.take(lo), seq![s[lo + 1], s[lo]] + s.skip(lo + 2));
        lemma_tiles_add(seq![s[lo], s[lo + 1]], s.skip(lo + 2));
        lemma_tiles_add(seq![s[lo + 1], s[lo]], s.skip(lo + 2));
        assert(tiles(s2) == tiles(s));
        assert forall|k2: int| 0 <= k2 < t implies s2[k2] != 0 by {
            if k2 != k {
                assert(s2[k2] == s[k2]);
            }
        }
        assert(is_first_blank(b2, t));
        lemma_has_first_blank(b2);
        lemma_first_blank_unique(b2, t, first_blank(b2));
        if d == Direction::Left {
            lemma_position(n, k / n, k % n - 1);
        } else {
            lemma_position(n, k / n, k % n + 1);
        }
    }
}

/// Counting from one value over two sequences that agree from `from` on
/// gives the same number.
pub proof fn lemma_greater_after_same(s: Seq<u8>, s2: Seq<u8>, i: int, i2: int, from: int)
    requires
        s.len() == s2.len(),
        0 <= i < s.len(),
        0 <= i2 < s2.len(),
        s[i] == s2[i2],
        0 <= from,
        forall|j: int| from <= j < s.len() ==> s[j] == s2[j],
    ensures
        greater_after(s, i, from) == greater_after(s2, i2, from),
    decreases s.len() - from,
{
    if from < s.len() {
        lemma_greater_after_same(s, s2, i, i2, from + 1);
    }
}

/// Two sequences that agree from `from` on have as many inversions there.
pub proof fn lemma_inversions_from_same(s: Seq<u8>, s2: Seq<u8>, from: int)
    requires
        s.len() == s2.len(),
        0 <= from,
        forall|j: int| from <= j < s.len() ==> s[j] == s2[j],
    ensures
        inversions_from(s, from) == inversions_from(s2, from),
    decreases s.len() - from,
{
    if from < s.len() {
        lemma_greater_after_same(s, s2, from, from, from + 1);
        lemma_inversions_from_same(s, s2, from + 1);
    }
}

/// Exchanging the entries at `p` and `p + 1` does not change what an
/// earlier entry counts from at most `p` on.
pub proof fn lemma_greater_after_swap_before(s: Seq<u8>, p: int, i: int, from: int)
    requires
        0 <= i < p,
        p + 1 < s.len(),
        i < from <= p,
    ensures
        greater_after(s, i, from) == greater_after(swap(s, p, p + 1), i, from),
    decreases p - from,
{
    let s2 = swap(s, p, p + 1);
    if from < p {
        lemma_greater_after_swap_before(s, p, i, from + 1);
    } else {
        lemma_greater_after_same(s, s2, i, i, p + 2);
        assert(greater_after(s, i, p + 1) == (if s[i] > s[p + 1] { 1nat } else { 0nat })
            + greater_after(s, i, p + 2));
        assert(greater_after(s2, i, p + 1) == (if s2[i] > s2[p + 1] { 1nat } else { 0nat })
            + greater_after(s2, i, p + 2));
    }
}

/// Exchanging two neighbouring entries `x` then `y` changes the inversion
/// count by one: up where `x < y`, down where `x > y`.
pub proof fn lemma_inversions_swap_adjacent(s: Seq<u8>, p: int, from: int)
    requires
        0 <= from <= p,
        p + 1 < s.len(),
    ensures
        inversions_from(s, from) + (if s[p + 1] > s[p] { 1int } else { 0int })
            == inversions_from(swap(s, p, p + 1), from) + (if s[p] > s[p + 1] { 1int } else { 0int }),
    decreases p - from,
{
    let s2 = swap(s, p, p + 1);
    if from < p {
        lemma_greater_after_swap_before(s, p, from, from + 1);
        lemma_inversions_swap_adjacent(s, p, from + 1);
    } else {
        lemma_inversions_from_same(s, s2, p + 2);
        lemma_greater_after_same(s, s2, p, p + 1, p + 2);
        lemma_greater_after_same(s, s2, p + 1, p, p + 2);
        assert(greater_after(s, p, p + 1) == (if s[p] > s[p + 1] { 1nat } else { 0nat })
            + greater_after(s, p, p + 2));
        assert(greater_after(s2, p, p + 1) == (if s2[p] > s2[p + 1] { 1nat } else { 0nat })
            + greater_after(s2, p, p + 2));
        assert(inversions_from(s, p + 1) == greater_after(s, p + 1, p + 2) + inversions_from(s, p + 2));
        assert(inversions_from(s2, p + 1) == greater_after(s2, p + 1, p + 2) + inversions_from(s2, p + 2));
    }
}

/// Exchanging two tiles that stand next to each other in reading order,
/// neither of them the blank, flips the verdict of the solvability test. This
/// pairs the boards that pass the test with boards that fail it.
pub proof fn lemma_tile_swap_flips_solvability(b: Seq<Seq<u8>>, k: int, b2: Seq<Seq<u8>>)
    requires
        is_puzzle(b),
        0 <= k,
        k + 1 < flat(b).len(),
        flat(b)[k] != 0,
        flat(b)[k + 1] != 0,
        is_grid(b2),
        b2.len() == b.len(),
        flat(b2) == swap(flat(b), k, k + 1),
    ensures
        is_puzzle(b2),
        solvable_spec(b2) != solvable_spec(b),
{
    let s = flat(b);
    let s2 = flat(b2);
    lemma_puzzle_facts(b);
    lemma_swap_multiset(s, k, k + 1);
    let x = s[k];
    let y = s[k + 1];
    assert(x != y);
    let a = s.take(k);
    let c = s.skip(k + 2);
    assert(s =~= a + (seq![x, y] + c));
    assert(s2 =~= a + (seq![y, x] + c));
    assert(seq![x, y].drop_last() =~= seq![x]);
    assert(seq![y, x].drop_last() =~= seq![y]);
    assert(seq![x].drop_last() =~= Seq::<u8>::empty());
    assert(seq![y].drop_last() =~= Seq::<u8>::empty());
    assert(tiles(Seq::<u8>::empty()) == Seq::<u8>::empty());
    assert(seq![x].last() == x && seq![y].last() == y);
    assert(seq![x, y].last() == y && seq![y, x].last() == x);
    assert(tiles(seq![x]) == Seq::<u8>::empty().push(x));
    assert(tiles(seq![y]) == Seq::<u8>::empty().push(y));
    assert(tiles(seq![x]) =~= seq![x]);
    assert(tiles(seq![y]) =~= seq![y]);
    assert(tiles(seq![x, y]) =~= seq![x, y]);
    assert(tiles(seq![y, x]) =~= seq![y, x]);
    lemma_tiles_add(a, seq![x, y] + c);
    lemma_tiles_add(a, seq![y, x] + c);
    lemma_tiles_add(seq![x, y], c);
    lemma_tiles_add(seq![y, x], c);
    let t = tiles(s);
    let p = tiles(a).len() as int;
    assert(t =~= tiles(a) + (seq![x, y] + tiles(c)));
    assert(tiles(s2) =~= swap(t, p, p + 1));
    lemma_inversions_swap_adjacent(t, p, 0);
    lemma_has_first_blank(b);
    let z = first_blank(b);
    assert forall|j: int| 0 <= j < z implies s2[j] != 0 by {
        if j != k && j != k + 1 {
            assert(s2[j] == s[j]);
        }
    }
    assert(s2[z] == 0);
    assert(is_first_blank(b2, z));
    lemma_has_first_blank(b2);
    lemma_first_blank_unique(b2, z, first_blank(b2));
}

} // verus!
