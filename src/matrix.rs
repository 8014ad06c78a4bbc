//! Target encoding of every column of a matrix.
use vstd::prelude::*;
use crate::column::{
    all_seen, encoded, is_column_plan, is_fitted, shrinkage_degenerate, ColumnPlan,
    ColumnTargetEncoder,
};
use crate::error::EncodeError;
use crate::key::order_key;
use crate::strategy::Encoders;

verus! {

/// Column `j` of a matrix given by its rows.
pub open spec fn column_of(data: Seq<Vec<u64>>, j: int) -> Seq<u64> {
    Seq::new(data.len(), |r: int| data[r]@[j])
}

/// Every row of `data` has `cols` entries.
pub open spec fn is_matrix(data: Seq<Vec<u64>>, cols: nat) -> bool {
    forall|r: int| 0 <= r < data.len() ==> #[trigger] data[r].len() == cols
}

/// The number of columns of a matrix given by its rows (zero without rows).
pub open spec fn width(data: Seq<Vec<u64>>) -> nat {
    if data.len() == 0 {
        0
    } else {
        data[0].len() as nat
    }
}

/// Every cell of `data` holds a category that the map of its column knows.
pub open spec fn all_cells_seen(maps: Seq<Map<u64, u64>>, data: Seq<Vec<u64>>) -> bool {
    forall|r: int, j: int|
        0 <= r < data.len() && 0 <= j < maps.len() ==> maps[j].contains_key(
            order_key(#[trigger] data[r]@[j]),
        )
}

/// `out` is `data` with every cell replaced by its entry in the map of its
/// column.
pub open spec fn is_encoded_matrix(
    maps: Seq<Map<u64, u64>>,
    data: Seq<Vec<u64>>,
    out: Seq<Vec<u64>>,
) -> bool {
    &&& out.len() == data.len()
    &&& forall|r: int| 0 <= r < out.len() ==> #[trigger] out[r].len() == maps.len()
    &&& forall|r: int, j: int|
        0 <= r < out.len() && 0 <= j < maps.len() ==> #[trigger] out[r]@[j] == maps[j][order_key(
            data[r]@[j],
        )]
}

/// Copies column `j` out of a matrix given by its rows.
pub fn extract_column(data: &Vec<Vec<u64>>, j: usize) -> (c: Vec<u64>)
    requires
        forall|r: int| 0 <= r < data.len() ==> j < #[trigger] data[r].len(),
    ensures
        c@ == column_of(data@, j as int),
{
    let mut c: Vec<u64> = Vec::with_capacity(data.len());
    let mut r: usize = 0;
    while r < data.len()
        invariant
            r <= data.len(),
            forall|i: int| 0 <= i < data.len() ==> j < #[trigger] data[i].len(),
            c@ == column_of(data@, j as int).take(r as int),
        decreases data.len() - r,
    {
        assert(j < data[r as int].len());
        c.push(data[r][j]);
        r += 1;
        assert(c@ =~= column_of(data@, j as int).take(r as int));
    }
    assert(column_of(data@, j as int).take(r as int) =~= column_of(data@, j as int));
    c
}

/// One column encoder per column of a matrix, in column order.
pub struct MatrixEncoder {
    encodings: Vec<ColumnTargetEncoder>,
}

impl View for MatrixEncoder {
    type V = Seq<Map<u64, u64>>;

    closed spec fn view(&self) -> Seq<Map<u64, u64>> {
        self.encodings@.map_values(|e: ColumnTargetEncoder| e@)
    }
}

impl MatrixEncoder {
    /// The number of columns the encoder was fit on.
    pub fn n_columns(&self) -> (n: usize)
        ensures
            n == self@.len(),
    {
        self.encodings.len()
    }

    /// Plans every column of `data` (given by its rows) against the shared
    /// `target`, exactly as a single column is planned.
    ///
    /// Fails with `EmptyInput` when there are no rows, and with
    /// `DegenerateShrinkage` when some column is degenerate for James-Stein
    /// shrinkage.
    pub fn plan(data: &Vec<Vec<u64>>, target: &Vec<u64>, encoder: &Encoders) -> (r: Result<
        Vec<ColumnPlan>,
        EncodeError,
    >)
        requires
            data.len() == target.len(),
            is_matrix(data@, width(data@)),
        ensures
            target.len() == 0 ==> r == Err::<Vec<ColumnPlan>, EncodeError>(
                EncodeError::EmptyInput,
            ),
            target.len() > 0 && (exists|j: int|
                0 <= j < width(data@) && shrinkage_degenerate(
                    *encoder,
                    #[trigger] column_of(data@, j),
                )) ==> r == Err::<Vec<ColumnPlan>, EncodeError>(EncodeError::DegenerateShrinkage),
            target.len() > 0 && !(exists|j: int|
                0 <= j < width(data@) && shrinkage_degenerate(
                    *encoder,
                    #[trigger] column_of(data@, j),
                )) ==> match r {
                Ok(plans) => plans.len() == width(data@) && forall|j: int|
                    0 <= j < plans.len() ==> is_column_plan(
                        #[trigger] column_of(data@, j),
                        target@,
                        *encoder,
                        plans[j],
                    ),
                Err(_) => false,
            },
    {
        if target.len() == 0 {
            return Err(EncodeError::EmptyInput);
        }
        let cols = data[0].len();
        let mut plans: Vec<ColumnPlan> = Vec::with_capacity(cols);
        let mut j: usize = 0;
        while j < cols
            invariant
                j <= cols,
                cols == width(data@),
                data.len() == target.len(),
                target.len() > 0,
                is_matrix(data@, width(data@)),
                plans.len() == j,
                forall|i: int| 0 <= i < j ==> !shrinkage_degenerate(*encoder, #[trigger] column_of(data@, i)),
                forall|i: int|
                    0 <= i < j ==> is_column_plan(
                        #[trigger] column_of(data@, i),
                        target@,
                        *encoder,
                        plans[i],
                    ),
            decreases cols - j,
        {
            let c = extract_column(data, j);
            match ColumnTargetEncoder::plan(&c, target, encoder) {
                Ok(p) => plans.push(p),
                Err(e) => {
                    return Err(e);
                },
            }
            j += 1;
        }
        Ok(plans)
    }

    /// The encoders of a planned matrix: column `j` is fit from `plans[j]`
    /// and `blended[j]` exactly as a single column is.
    pub fn fit(plans: &Vec<ColumnPlan>, prior: u64, blended: &Vec<Vec<u64>>) -> (r: MatrixEncoder)
        requires
            plans.len() == blended.len(),
            forall|j: int|
                0 <= j < plans.len() ==> #[trigger] plans[j].wf() && blended[j].len()
                    == plans[j].groups.len(),
        ensures
            r@.len() == plans.len(),
            forall|j: int|
                0 <= j < plans.len() ==> is_fitted(#[trigger] r@[j], plans[j], prior, blended[j]@),
    {
        let mut encodings: Vec<ColumnTargetEncoder> = Vec::with_capacity(plans.len());
        let mut j: usize = 0;
        while j < plans.len()
            invariant
                j <= plans.len(),
                plans.len() == blended.len(),
                forall|i: int|
                    0 <= i < plans.len() ==> #[trigger] plans[i].wf() && blended[i].len()
                        == plans[i].groups.len(),
                encodings.len() == j,
                forall|i: int|
                    0 <= i < j ==> is_fitted(#[trigger] encodings[i]@, plans[i], prior, blended[i]@),
            decreases plans.len() - j,
        {
            let e = ColumnTargetEncoder::fit(&plans[j], prior, &blended[j]);
            encodings.push(e);
            j += 1;
        }
        let r = MatrixEncoder { encodings };
        assert forall|i: int| 0 <= i < plans.len() implies is_fitted(#[trigger] r@[i], plans[i], prior, blended[i]@) by {
            assert(r@[i] == r.encodings@[i]@);
        }
        r
    }

    /// Encodes every cell of `data` (given by its rows) with the encoder of
    /// its column, keeping the layout. Fails with `UnseenCategory` when some
    /// cell holds a category its column did not see at fit time.
    pub fn transform(&self, data: &Vec<Vec<u64>>) -> (r: Result<Vec<Vec<u64>>, EncodeError>)
        requires
            is_matrix(data@, self@.len()),
        ensures
            all_cells_seen(self@, data@) ==> match r {
                Ok(out) => is_encoded_matrix(self@, data@, out@),
                Err(_) => false,
            },
            !all_cells_seen(self@, data@) ==> r == Err::<Vec<Vec<u64>>, EncodeError>(
                EncodeError::UnseenCategory,
            ),
    {
        let cols = self.encodings.len();
        let mut out: Vec<Vec<u64>> = Vec::with_capacity(data.len());
        let mut r: usize = 0;
        while r < data.len()
            invariant
                r <= data.len(),
                cols == self@.len(),
                is_matrix(data@, self@.len()),
                all_cells_seen(self@, data@.take(r as int)),
                is_encoded_matrix(self@, data@.take(r as int), out@),
            decreases data.len() - r,
        {
            let mut row: Vec<u64> = Vec::with_capacity(cols);
            let mut j: usize = 0;
            while j < cols
                invariant
                    j <= cols,
                    r < data.len(),
                    cols == self@.len(),
                    is_matrix(data@, self@.len()),
                    row.len() == j,
                    forall|i: int| 0 <= i < j ==> self@[i].contains_key(order_key(data@[r as int]@[i])),
                    forall|i: int| 0 <= i < j ==> #[trigger] row@[i] == self@[i][order_key(data@[r as int]@[i])],
                decreases cols - j,
            {
                assert(self@[j as int] == self.encodings@[j as int]@);
                assert(data[r as int].len() == self@.len());
                match self.encodings[j].encode(data[r][j]) {
                    Some(v) => row.push(v),
                    None => {
                        assert(!all_cells_seen(self@, data@)) by {
                            assert(data@[r as int]@[j as int] == data[r as int]@[j as int]);
                        }
                        return Err(EncodeError::UnseenCategory);
                    },
                }
                j += 1;
            }
            let ghost prev = data@.take(r as int);
            out.push(row);
            r += 1;
            proof {
                let now = data@.take(r as int);
                assert forall|a: int, b: int| 0 <= a < now.len() && 0 <= b < self@.len() implies self@[b].contains_key(
                    order_key(#[trigger] now[a]@[b])) by {
                    if a < r - 1 {
                        assert(now[a] == prev[a]);
                    }
                }
                assert forall|a: int| 0 <= a < out.len() implies #[trigger] out@[a].len() == self@.len() by {}
                assert forall|a: int, b: int| 0 <= a < out.len() && 0 <= b < self@.len() implies #[trigger] out@[a]@[b]
                    == self@[b][order_key(now[a]@[b])] by {
                    if a < r - 1 {
                        assert(now[a] == prev[a]);
                    }
                }
            }
        }
        assert(data@.take(data.len() as int) =~= data@);
        Ok(out)
    }
}

/// Encoding a matrix column by column: column `j` of the encoded matrix is
/// column `j` of the input encoded with the map of that column alone.
pub proof fn lemma_matrix_by_columns(
    maps: Seq<Map<u64, u64>>,
    data: Seq<Vec<u64>>,
    out: Seq<Vec<u64>>,
    j: int,
)
    requires
        0 <= j < maps.len(),
        is_matrix(data, maps.len()),
        is_encoded_matrix(maps, data, out),
    ensures
        all_cells_seen(maps, data) ==> all_seen(maps[j], column_of(data, j)),
        column_of(out, j) == encoded(maps[j], column_of(data, j)),
{
    assert(column_of(out, j) =~= encoded(maps[j], column_of(data, j)));
}

} // verus!
