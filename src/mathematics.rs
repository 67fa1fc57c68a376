use vstd::prelude::*;

verus! {

/// Turns rows into columns: column `j` of the result holds element `j` of every row.
/// Rows longer than the first are cut to its length.
pub fn transpose_vec2d<T: Copy>(input: Vec<Vec<T>>) -> (r: Vec<Vec<T>>)
    requires
        input.len() > 0,
        forall|i: int| 0 <= i < input.len() ==> (#[trigger] input[i]).len() >= input[0].len(),
    ensures
        r.len() == input[0].len(),
        forall|j: int| 0 <= j < r.len() ==> (#[trigger] r[j]).len() == input.len(),
        forall|j: int, i: int| 0 <= j < r.len() && 0 <= i < input.len() ==> #[trigger] r[j]@[i] == input[i]@[j],
{
    let width = input[0].len();
    let mut r: Vec<Vec<T>> = Vec::new();
    let mut j: usize = 0;
    while j < width
        invariant
            j <= width == input[0].len(),
            r.len() == j,
            forall|i: int| 0 <= i < input.len() ==> (#[trigger] input[i]).len() >= width,
            forall|q: int| 0 <= q < j ==> (#[trigger] r[q]).len() == input.len(),
            forall|q: int, i: int| 0 <= q < j && 0 <= i < input.len() ==> #[trigger] r[q]@[i] == input[i]@[q],
        decreases width - j,
    {
        let mut col: Vec<T> = Vec::new();
        let mut i: usize = 0;
        while i < input.len()
            invariant
                i <= input.len(),
                j < width,
                forall|k: int| 0 <= k < input.len() ==> (#[trigger] input[k]).len() >= width,
                col.len() == i,
                forall|k: int| 0 <= k < i ==> #[trigger] col@[k] == input[k]@[j as int],
            decreases input.len() - i,
        {
            col.push(input[i][j]);
            i = i + 1;
        }
        r.push(col);
        j = j + 1;
    }
    r
}

} // verus!
