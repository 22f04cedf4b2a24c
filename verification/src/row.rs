//! Materialized entity rows and their mathematical model.

use vstd::prelude::*;

use crate::Row;

verus! {

/// Mathematical model of a [`Row`]: the primary key, the optional lookup
/// key stored in each key column, and the text stored in each text
/// column.
pub ghost struct RowV {
    pub id: u64,
    pub keys: Seq<Option<u64>>,
    pub texts: Seq<Seq<char>>,
}

/// The model of an executable row.
pub open spec fn row_view(r: Row) -> RowV {
    RowV {
        id: r.id,
        keys: r.keys@,
        texts: r.texts@.map_values(|t: String| t@),
    }
}

/// The models of a sequence of executable rows.
pub open spec fn rows_view(rs: Seq<Row>) -> Seq<RowV> {
    rs.map_values(|r: Row| row_view(r))
}

impl Row {
    /// Copies a row; the copy models the same row.
    pub fn duplicate(&self) -> (r: Row)
        ensures
            row_view(r) == row_view(*self),
    {
        let mut keys: Vec<Option<u64>> = Vec::new();
        let mut i: usize = 0;
        while i < self.keys.len()
            invariant
                i <= self.keys@.len(),
                keys@ == self.keys@.subrange(0, i as int),
            decreases self.keys@.len() - i,
        {
            keys.push(self.keys[i]);
            i += 1;
        }
        let mut texts: Vec<String> = Vec::new();
        let mut j: usize = 0;
        while j < self.texts.len()
            invariant
                j <= self.texts@.len(),
                texts@.len() == j,
                forall|k: int| 0 <= k < j ==> texts@[k]@ == self.texts@[k]@,
            decreases self.texts@.len() - j,
        {
            texts.push(self.texts[j].clone());
            j += 1;
        }
        let r = Row { id: self.id, keys, texts };
        proof {
            assert(self.keys@.subrange(0, self.keys@.len() as int) =~= self.keys@);
            assert(r.texts@.map_values(|t: String| t@) =~= self.texts@.map_values(
                |t: String| t@,
            ));
            assert(row_view(r) =~= row_view(*self));
        }
        r
    }
}

/// Copies a sequence of rows; the copies model the same rows.
pub fn duplicate_rows(rs: &Vec<Row>) -> (r: Vec<Row>)
    ensures
        rows_view(r@) == rows_view(rs@),
{
    let mut out: Vec<Row> = Vec::new();
    let mut i: usize = 0;
    while i < rs.len()
        invariant
            i <= rs@.len(),
            out@.len() == i,
            forall|k: int| 0 <= k < i ==> row_view(#[trigger] out@[k]) == row_view(rs@[k]),
        decreases rs@.len() - i,
    {
        out.push(rs[i].duplicate());
        i += 1;
    }
    proof {
        assert(rows_view(out@) =~= rows_view(rs@));
    }
    out
}

} // verus!
