//! Random boards: a shuffled permutation of the labels laid out row by row.

use vstd::prelude::*;
use rand::rngs::StdRng;
use crate::board::{
    flat, is_grid, is_puzzle, labels, lemma_cell_bounds, lemma_position, lemma_row_view, MAX_SIDE,
};
use crate::rng::shuffle_labels;
use crate::solvability::{is_solvable, solvable_spec};

verus! {

/// The labels 0, 1, ..., m-1 in increasing order.
fn label_vec(m: usize) -> (v: Vec<u8>)
    requires
        m <= MAX_SIDE * MAX_SIDE,
    ensures
        v@ == labels(m as nat),
{
    let mut v: Vec<u8> = Vec::new();
    let mut i: usize = 0;
    while i < m
        invariant
            i <= m,
            m <= MAX_SIDE * MAX_SIDE,
            v@ =~= labels(i as nat),
        decreases m - i,
    {
        v.push(i as u8);
        i += 1;
    }
    v
}

/// Lays `labels` out on a `size`×`size` grid, row by row.
pub fn layout_board(labels: &Vec<u8>, size: usize) -> (b: Vec<Vec<u8>>)
    requires
        labels@.len() == size * size,
        1 <= size <= MAX_SIDE,
    ensures
        is_grid(b.deep_view()),
        b.deep_view().len() == size,
        flat(b.deep_view()) == labels@,
{
    proof {
        assert(1 <= size * size <= MAX_SIDE * MAX_SIDE) by (nonlinear_arith)
            requires 1 <= size <= MAX_SIDE;
    }
    let total = size * size;
    let mut result: Vec<Vec<u8>> = Vec::new();
    let mut i: usize = 0;
    while i < size
        invariant
            1 <= size <= MAX_SIDE,
            total == size * size,
            labels@.len() == total,
            i <= size,
            result@.len() == i,
            forall|x: int| 0 <= x < i ==> (#[trigger] result@[x])@.len() == size,
            forall|x: int, y: int|
                0 <= x < i && 0 <= y < size ==> #[trigger] result@[x]@[y] == labels@[x * size + y],
        decreases size - i,
    {
        let mut row: Vec<u8> = Vec::new();
        let mut j: usize = 0;
        while j < size
            invariant
                1 <= size <= MAX_SIDE,
                total == size * size,
                labels@.len() == total,
                i < size,
                j <= size,
                row@.len() == j,
                forall|y: int| 0 <= y < j ==> #[trigger] row@[y] == labels@[i * size + y],
            decreases size - j,
        {
            proof {
                lemma_position(size as int, i as int, j as int);
            }
            row.push(labels[i * size + j]);
            j += 1;
        }
        result.push(row);
        i += 1;
    }
    let ghost b = result.deep_view();
    proof {
        assert forall|x: int| 0 <= x < size implies #[trigger] b[x] == result@[x]@ by {
            lemma_row_view(result@[x]);
        }
        assert(is_grid(b));
        assert forall|k: int| 0 <= k < total implies #[trigger] flat(b)[k] == labels@[k] by {
            lemma_cell_bounds(size as int, k);
        }
        assert(flat(b) =~= labels@);
    }
    result
}

/// Board generator: a uniformly shuffled permutation of 0..size²-1, laid out
/// row by row on a `size`×`size` grid.
pub fn generate_random_board(size: usize, rng: &mut StdRng) -> (b: Vec<Vec<u8>>)
    requires
        1 <= size <= MAX_SIDE,
    ensures
        is_puzzle(b.deep_view()),
        b.deep_view().len() == size,
{
    proof {
        assert(1 <= size * size <= MAX_SIDE * MAX_SIDE) by (nonlinear_arith)
            requires 1 <= size <= MAX_SIDE;
    }
    let mut shuffled = label_vec(size * size);
    shuffle_labels(&mut shuffled, rng);
    proof {
        shuffled@.to_multiset_ensures();
        labels((size * size) as nat).to_multiset_ensures();
    }
    layout_board(&shuffled, size)
}

/// Draws boards until the solvability test passes, at most `max_tries`
/// times. Whatever is returned is a solvable puzzle; a 1×1 board is always
/// solvable, so there the first draw is returned.
pub fn generate_solvable_board(size: usize, rng: &mut StdRng, max_tries: u32) -> (r: Option<
    Vec<Vec<u8>>,
>)
    requires
        1 <= size <= MAX_SIDE,
    ensures
        r matches Some(b) ==> is_puzzle(b.deep_view()) && b.deep_view().len() == size
            && solvable_spec(b.deep_view()),
        size == 1 && max_tries > 0 ==> r is Some,
        max_tries == 0 ==> r is None,
{
    let mut tries: u32 = 0;
    while tries < max_tries
        invariant
            1 <= size <= MAX_SIDE,
            size == 1 ==> tries == 0,
        decreases max_tries - tries,
    {
        let b = generate_random_board(size, rng);
        proof {
            crate::board::lemma_puzzle_facts(b.deep_view());
        }
        if is_solvable(&b) {
            return Some(b);
        }
        proof {
            if size == 1 {
                lemma_single_cell_solvable(b.deep_view());
            }
        }
        tries += 1;
    }
    None
}

/// A 1×1 board passes the solvability test.
pub proof fn lemma_single_cell_solvable(b: Seq<Seq<u8>>)
    requires
        is_puzzle(b),
        b.len() == 1,
    ensures
        solvable_spec(b),
{
    crate::board::lemma_puzzle_facts(b);
    crate::board::lemma_has_first_blank(b);
    let s = flat(b);
    assert(s.len() == 1);
    assert(s[0] == 0);
    assert(s.drop_last() =~= Seq::<u8>::empty());
    assert(crate::solvability::tiles(s) == crate::solvability::tiles(Seq::<u8>::empty()));
    assert(crate::solvability::tiles(s) =~= Seq::<u8>::empty());
}

} // verus!
