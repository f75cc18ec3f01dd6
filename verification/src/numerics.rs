//! Seeded draws.
//!
//! A matrix of scaled standard normals takes two uniform draws per entry, and
//! each uniform draw takes one 64-bit word of a ChaCha20 stream. This module
//! takes the words off the stream, entry by entry and row by row; turning a
//! pair of words into a normal is the caller's floating-point arithmetic.

use crate::error::Error;
use crate::matrix::Matrix;
use rand::{RngCore, SeedableRng};
use rand_chacha::ChaCha20Rng;
use vstd::arithmetic::div_mod::{
    lemma_fundamental_div_mod, lemma_fundamental_div_mod_converse,
};
use vstd::prelude::*;

verus! {

/// Makes `rand_chacha::ChaCha20Rng` known as an opaque type.
#[verifier::external_type_specification]
#[verifier::external_body]
pub struct ExChaCha20Rng(ChaCha20Rng);

/// The 64-bit words that a freshly seeded ChaCha20 generator gives, in order.
pub uninterp spec fn chacha20_words(seed: u64) -> Map<nat, u64>;

/// The 64-bit words that a generator has still to give, in order.
pub uninterp spec fn pending_words(rng: ChaCha20Rng) -> Map<nat, u64>;

/// Calls `ChaCha20Rng::seed_from_u64`. Claims that the new generator stands at
/// the start of the stream that the seed determines.
#[verifier::external_body]
fn seeded_generator(seed: u64) -> (rng: ChaCha20Rng)
    ensures
        pending_words(rng) == chacha20_words(seed),
{
    ChaCha20Rng::seed_from_u64(seed)
}

/// Calls `RngCore::next_u64` on a ChaCha20 generator. Claims that the call
/// gives the next word of the stream and leaves the words after it, in their
/// order.
#[verifier::external_body]
fn next_word(rng: &mut ChaCha20Rng) -> (word: u64)
    ensures
        word == pending_words(*old(rng))[0],
        forall|n: nat|
            #[trigger] pending_words(*final(rng))[n] == pending_words(*old(rng))[n + 1],
{
    rng.next_u64()
}

/// The two words behind one normal draw: the radial one first.
#[derive(Clone, Copy, Debug, PartialEq, Eq, Structural)]
pub struct Draw {
    pub radial: u64,
    pub angular: u64,
}

/// Draw `index` of the stream of `seed`.
pub open spec fn draw_at(seed: u64, index: int) -> Draw {
    Draw {
        radial: chacha20_words(seed)[(2 * index) as nat],
        angular: chacha20_words(seed)[(2 * index + 1) as nat],
    }
}

/// `draws` is the `rows` by `columns` matrix filled row by row from the stream
/// of `seed`.
pub open spec fn is_seeded_draw(
    draws: Matrix<Draw>,
    rows: nat,
    columns: nat,
    seed: u64,
) -> bool {
    &&& draws.wf()
    &&& draws.has_shape(rows, columns)
    &&& forall|i: int, j: int|
        0 <= i < rows && 0 <= j < columns ==> #[trigger] draws@[i][j] == draw_at(
            seed,
            i * columns + j,
        )
}

/// Draws a `rows` by `columns` matrix from the ChaCha20 stream of `seed`, row
/// by row and two words per entry, or [`Error::MatrixTooLarge`] where the entry
/// count overflows.
pub fn gaussian_matrix(rows: usize, columns: usize, seed: u64) -> (result: Result<
    Matrix<Draw>,
    Error,
>)
    ensures
        rows * columns > usize::MAX ==> result == Err::<Matrix<Draw>, Error>(
            Error::MatrixTooLarge { rows, columns },
        ),
        rows * columns <= usize::MAX ==> (result matches Ok(draws) && is_seeded_draw(
            draws,
            rows as nat,
            columns as nat,
            seed,
        )),
{
    if rows.checked_mul(columns).is_none() {
        return Err(Error::MatrixTooLarge { rows, columns });
    }
    let mut rng = seeded_generator(seed);
    let mut lines: Vec<Vec<Draw>> = Vec::new();
    let mut i: usize = 0;
    let ghost mut taken: int = 0;
    while i < rows
        invariant
            i <= rows,
            taken == i * columns,
            forall|n: nat|
                #[trigger] pending_words(rng)[n] == chacha20_words(seed)[(2 * taken + n) as nat],
            lines@.len() == i,
            forall|r: int| 0 <= r < i ==> (#[trigger] lines@[r])@.len() == columns,
            forall|r: int, c: int|
                0 <= r < i && 0 <= c < columns ==> #[trigger] lines@[r]@[c] == draw_at(
                    seed,
                    r * columns + c,
                ),
        decreases rows - i,
    {
        let mut line: Vec<Draw> = Vec::new();
        let mut j: usize = 0;
        assert(i * columns >= 0) by (nonlinear_arith);
        while j < columns
            invariant
                j <= columns,
                i * columns >= 0,
                taken == i * columns + j,
                forall|n: nat|
                    #[trigger] pending_words(rng)[n] == chacha20_words(seed)[(2 * taken
                        + n) as nat],
                line@.len() == j,
                forall|c: int|
                    0 <= c < j ==> #[trigger] line@[c] == draw_at(seed, i * columns + c),
            decreases columns - j,
        {
            let ghost before = pending_words(rng);
            assert(before[0] == chacha20_words(seed)[(2 * taken) as nat]);
            let radial: u64 = next_word(&mut rng);
            let ghost between = pending_words(rng);
            assert(between[0] == before[1]);
            assert(before[1] == chacha20_words(seed)[(2 * taken + 1) as nat]);
            let angular: u64 = next_word(&mut rng);
            line.push(Draw { radial, angular });
            proof {
                taken = taken + 1;
                assert forall|n: nat| #[trigger] pending_words(rng)[n] == chacha20_words(seed)[(2
                    * taken + n) as nat] by {
                    assert(between[n + 1] == before[n + 1 + 1]);
                }
            }
            j += 1;
        }
        lines.push(line);
        assert(i * columns + columns == (i + 1) * columns) by (nonlinear_arith);
        i += 1;
    }
    let draws = Matrix::from_equal_rows(columns, lines);
    assert forall|r: int, c: int| 0 <= r < rows && 0 <= c < columns implies #[trigger] draws@[r][c]
        == draw_at(seed, r * columns + c) by {
        assert(draws@[r] == lines@[r]@);
    }
    Ok(draws)
}

/// A draw is reproducible: the seed and the shape determine every entry.
pub proof fn draws_are_reproducible(
    first: Matrix<Draw>,
    second: Matrix<Draw>,
    rows: nat,
    columns: nat,
    seed: u64,
)
    requires
        is_seeded_draw(first, rows, columns, seed),
        is_seeded_draw(second, rows, columns, seed),
    ensures
        first@ == second@,
{
    assert forall|i: int| 0 <= i < rows implies first@[i] =~= second@[i] by {
        assert forall|j: int| 0 <= j < columns implies first@[i][j] == second@[i][j] by {}
    }
    assert(first@ =~= second@);
}

/// Row by row filling: a draw with more rows begins with the smaller draw.
pub proof fn taller_draws_extend_shorter_ones(
    short: Matrix<Draw>,
    tall: Matrix<Draw>,
    short_rows: nat,
    tall_rows: nat,
    columns: nat,
    seed: u64,
)
    requires
        is_seeded_draw(short, short_rows, columns, seed),
        is_seeded_draw(tall, tall_rows, columns, seed),
        short_rows <= tall_rows,
    ensures
        tall@.take(short_rows as int) == short@,
{
    assert forall|i: int| 0 <= i < short_rows implies tall@[i] =~= short@[i] by {
        assert forall|j: int| 0 <= j < columns implies tall@[i][j] == short@[i][j] by {}
    }
    assert(tall@.take(short_rows as int) =~= short@);
}

/// No word of the stream is used twice, and none is left out: entry (`i`, `j`)
/// takes the words at positions `2 * (i * columns + j)` and the next, so that
/// distinct entries take distinct positions.
pub proof fn entries_take_their_own_words(
    draws: Matrix<Draw>,
    rows: nat,
    columns: nat,
    seed: u64,
    i: int,
    j: int,
    k: int,
    l: int,
)
    requires
        is_seeded_draw(draws, rows, columns, seed),
        0 <= i < rows,
        0 <= j < columns,
        0 <= k < rows,
        0 <= l < columns,
    ensures
        draws@.len() == rows,
        draws@[i].len() == columns,
        0 <= i * columns + j < rows * columns,
        draws@[i][j].radial == chacha20_words(seed)[(2 * (i * columns + j)) as nat],
        draws@[i][j].angular == chacha20_words(seed)[(2 * (i * columns + j) + 1) as nat],
        i * columns + j == k * columns + l <==> i == k && j == l,
{
    assert(draws@[i][j] == draw_at(seed, i * columns + j));
    lemma_entry_place(rows as int, columns as int, i, j);
    lemma_fundamental_div_mod_converse(i * columns + j, columns as int, i, j);
    lemma_fundamental_div_mod_converse(k * columns + l, columns as int, k, l);
}

proof fn lemma_entry_place(rows: int, columns: int, i: int, j: int)
    requires
        0 <= i < rows,
        0 <= j < columns,
    ensures
        0 <= i * columns + j < rows * columns,
{
    assert(0 <= i * columns) by (nonlinear_arith)
        requires
            0 <= i,
            0 <= columns,
    ;
    assert(i * columns + columns <= rows * columns) by (nonlinear_arith)
        requires
            i + 1 <= rows,
            0 <= columns,
    ;
}

/// Reading a draw row by row, the radial word of each entry before the angular
/// one, gives the first `2 * rows * columns` words of the seed's stream in
/// order.
pub proof fn draws_read_off_the_stream(
    draws: Matrix<Draw>,
    rows: nat,
    columns: nat,
    seed: u64,
    position: int,
)
    requires
        is_seeded_draw(draws, rows, columns, seed),
        0 <= position < 2 * (rows * columns),
    ensures
        ({
            let entry = position / 2;
            let (i, j) = (entry / columns as int, entry % columns as int);
            &&& 0 <= i < rows
            &&& 0 <= j < columns
            &&& chacha20_words(seed)[position as nat] == if position % 2 == 0 {
                draws@[i][j].radial
            } else {
                draws@[i][j].angular
            }
        }),
{
    let entry = position / 2;
    let (i, j) = (entry / columns as int, entry % columns as int);
    assert(columns > 0) by (nonlinear_arith)
        requires
            0 < rows * columns,
            columns >= 0,
    ;
    lemma_fundamental_div_mod(entry, columns as int);
    assert(0 <= j < columns);
    assert(0 <= i < rows) by (nonlinear_arith)
        requires
            entry == columns * i + j,
            0 <= j < columns,
            0 <= entry < rows * columns,
    ;
    assert(columns * i == i * columns) by (nonlinear_arith);
    assert(draws@[i][j] == draw_at(seed, i * columns + j));
}

} // verus!
