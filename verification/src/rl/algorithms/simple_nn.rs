//! The parts of the small feed-forward networks of the evolutionary
//! algorithm that are not arithmetic on weights.
use vstd::prelude::*;

verus! {

/// The activation applied after a layer.
#[derive(Clone, Copy, Debug, PartialEq, Eq, Structural)]
pub enum Activation {
    /// No activation: the layer's output is passed on as it is.
    Identity,
    Relu,
}

/// The entry at row `o` and column `i` of an `output_dim` x `input_dim`
/// row-major matrix grown to `new_output_dim` x `new_input_dim`: the old
/// entry where there was one, `fill` in the new rows and columns.
pub open spec fn expanded_entry<T>(
    values: Seq<T>,
    input_dim: int,
    output_dim: int,
    o: int,
    i: int,
    fill: T,
) -> T {
    if o < output_dim && i < input_dim {
        values[o * input_dim + i]
    } else {
        fill
    }
}

proof fn lemma_row_major_index(o: int, i: int, rows: int, cols: int)
    requires
        0 <= o < rows,
        0 <= i < cols,
    ensures
        0 <= o * cols + i < rows * cols,
        rows * cols == cols * rows,
        o * cols + i + 1 <= (o + 1) * cols,
{
    assert(rows * cols == cols * rows) by (nonlinear_arith);
    assert(0 <= o * cols + i < rows * cols) by (nonlinear_arith)
        requires
            0 <= o < rows,
            0 <= i < cols,
    ;
    assert(o * cols + i + 1 <= (o + 1) * cols) by (nonlinear_arith)
        requires
            0 <= i < cols,
    ;
}

/// Grows a row-major `output_dim` x `input_dim` matrix (a layer's weights,
/// or with one column its biases) to `new_output_dim` x `new_input_dim`:
/// every old entry keeps its row and column, the new entries are `fill`.
pub fn expand_row_major<T: Copy>(
    values: &Vec<T>,
    input_dim: usize,
    output_dim: usize,
    new_input_dim: usize,
    new_output_dim: usize,
    fill: T,
) -> (r: Vec<T>)
    requires
        values@.len() == input_dim * output_dim,
        input_dim <= new_input_dim,
        output_dim <= new_output_dim,
        new_input_dim * new_output_dim <= usize::MAX,
    ensures
        r@.len() == new_input_dim * new_output_dim,
        forall|o: int, i: int|
            0 <= o < new_output_dim && 0 <= i < new_input_dim ==> #[trigger] r@[o * new_input_dim + i]
                == expanded_entry(values@, input_dim as int, output_dim as int, o, i, fill),
{
    let n_values = values.len();
    let mut r: Vec<T> = Vec::new();
    let mut o: usize = 0;
    while o < new_output_dim
        invariant
            values@.len() == input_dim * output_dim,
            n_values == values@.len(),
            input_dim <= new_input_dim,
            output_dim <= new_output_dim,
            new_input_dim * new_output_dim <= usize::MAX,
            0 <= o <= new_output_dim,
            r@.len() == o * new_input_dim,
            forall|p: int, i: int|
                0 <= p < o && 0 <= i < new_input_dim ==> #[trigger] r@[p * new_input_dim + i]
                    == expanded_entry(values@, input_dim as int, output_dim as int, p, i, fill),
        decreases new_output_dim - o,
    {
        let mut i: usize = 0;
        while i < new_input_dim
            invariant
                values@.len() == input_dim * output_dim,
                n_values == values@.len(),
                input_dim <= new_input_dim,
                output_dim <= new_output_dim,
                new_input_dim * new_output_dim <= usize::MAX,
                0 <= o < new_output_dim,
                0 <= i <= new_input_dim,
                r@.len() == o * new_input_dim + i,
                forall|p: int, j: int|
                    0 <= p < o && 0 <= j < new_input_dim ==> #[trigger] r@[p * new_input_dim + j]
                        == expanded_entry(values@, input_dim as int, output_dim as int, p, j, fill),
                forall|j: int|
                    0 <= j < i ==> #[trigger] r@[o * new_input_dim + j] == expanded_entry(
                        values@,
                        input_dim as int,
                        output_dim as int,
                        o as int,
                        j,
                        fill,
                    ),
            decreases new_input_dim - i,
        {
            proof {
                lemma_row_major_index(o as int, i as int, new_output_dim as int, new_input_dim as int);
            }
            let ghost before = r@;
            if o < output_dim && i < input_dim {
                proof {
                    lemma_row_major_index(o as int, i as int, output_dim as int, input_dim as int);
                }
                r.push(values[o * input_dim + i]);
            } else {
                r.push(fill);
            }
            proof {
                assert forall|p: int, j: int|
                    0 <= p < o && 0 <= j < new_input_dim implies #[trigger] r@[p * new_input_dim + j]
                        == expanded_entry(values@, input_dim as int, output_dim as int, p, j, fill) by {
                    lemma_row_major_index(p, j, o as int, new_input_dim as int);
                    assert(r@[p * new_input_dim + j] == before[p * new_input_dim + j]);
                }
                assert forall|j: int|
                    0 <= j < i + 1 implies #[trigger] r@[o * new_input_dim + j] == expanded_entry(
                        values@,
                        input_dim as int,
                        output_dim as int,
                        o as int,
                        j,
                        fill,
                    ) by {
                    if j < i {
                        assert(r@[o * new_input_dim + j] == before[o * new_input_dim + j]);
                    }
                }
            }
            i = i + 1;
        }
        proof {
            assert((o + 1) * new_input_dim == o * new_input_dim + new_input_dim) by (nonlinear_arith);
        }
        o = o + 1;
    }
    proof {
        assert(new_output_dim * new_input_dim == new_input_dim * new_output_dim) by (nonlinear_arith);
    }
    r
}

} // verus!
