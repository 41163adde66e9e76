use vstd::prelude::*;

use crate::lambda_helpers::number_of;
use crate::model::{Model, is_array, is_error};
use crate::number::{Number, SCALE, spec_to_usize};
use crate::values::{ArrayNode, CalcResult, ErrorKind, Grid, NodeV, grid_view, row_view};

verus! {

/// The `n` by `n` identity matrix.
pub open spec fn identity(n: int) -> Seq<Seq<NodeV>> {
    Seq::new(
        n as nat,
        |i: int|
            Seq::new(
                n as nat,
                |j: int|
                    if i == j {
                        number_of(SCALE as int)
                    } else {
                        number_of(0)
                    },
            ),
    )
}

impl Model {
    /// MUNIT(dimension): the identity matrix of that size (truncated toward
    /// zero); a size of zero or above 1000 is `#VALUE!`.
    pub fn fn_munit(&self, dimension: Number) -> (r: CalcResult)
        ensures
            ({
                let n = spec_to_usize(dimension);
                if n == 0 || n > 1000 {
                    is_error(r, ErrorKind::Value)
                } else {
                    is_array(r, identity(n))
                }
            }),
    {
        let n = dimension.to_usize();
        if n == 0 || n > 1000 {
            return CalcResult::Error(ErrorKind::Value);
        }
        let mut result: Grid = Vec::new();
        let mut i: usize = 0;
        while i < n
            invariant
                i <= n,
                result.len() == i,
                forall|m: int| 0 <= m < i ==> #[trigger] row_view(result@[m]) == identity(n as int)[m],
            decreases n - i,
        {
            let mut row: Vec<ArrayNode> = Vec::new();
            let mut j: usize = 0;
            while j < n
                invariant
                    i < n,
                    j <= n,
                    row.len() == j,
                    forall|k: int|
                        0 <= k < j ==> #[trigger] row@[k]@ == if i == k {
                            number_of(SCALE as int)
                        } else {
                            number_of(0)
                        },
                decreases n - j,
            {
                if i == j {
                    row.push(ArrayNode::Number(Number::from_scaled(SCALE)));
                } else {
                    row.push(ArrayNode::Number(Number::from_scaled(0)));
                }
                j += 1;
            }
            assert(row_view(row) =~= identity(n as int)[i as int]);
            result.push(row);
            i += 1;
        }
        assert(grid_view(result) =~= identity(n as int));
        CalcResult::Array(result)
    }
}

} // verus!
