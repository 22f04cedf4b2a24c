//! The relational store the engine fetches from.
//!
//! One table of rows per entity type, held in a stable order that models
//! the order the backing store returns rows in. Every fetch is specified
//! exactly: which rows come back, in which order, and when the fetch
//! fails. A table can be marked failing to model a connection or query
//! failure.

use vstd::prelude::*;

use crate::descriptor::EntityDesc;
use crate::descriptor::Registry;
use crate::row::row_view;
use crate::row::rows_view;
use crate::row::RowV;
use crate::seqs::lemma_filter_first;
use crate::seqs::lemma_filter_subrange_step;
use crate::seqs::lemma_filter_whole;
use crate::text::contains_ci;
use crate::text::contains_folded;
use crate::Row;

verus! {

/// A fetch against the backing store failed.
#[derive(Debug, PartialEq, Eq)]
pub enum RepoError {
    Unavailable,
}

/// The rows of one entity type, plus a fault switch that makes every
/// fetch on this table fail.
pub struct Table {
    pub rows: Vec<Row>,
    pub failing: bool,
}

/// The backing store: one table per entity type, indexed as the registry
/// is.
pub struct Store {
    pub tables: Vec<Table>,
}

/// A search predicate on one text column: a row matches when the needle
/// occurs in that column, case folded.
pub struct Filter {
    pub col: usize,
    pub needle: String,
}

/// The models of the rows of one table, in table order.
pub open spec fn table_view(s: Store, ent: int) -> Seq<RowV> {
    rows_view(s.tables@[ent].rows@)
}

/// Whether fetches on this table fail.
pub open spec fn failing(s: Store, ent: int) -> bool {
    s.tables@[ent].failing
}

/// A row of this entity type carries the declared number of key and
/// text columns.
pub open spec fn row_wf(desc: EntityDesc, r: RowV) -> bool {
    r.keys.len() == desc.key_cols && r.texts.len() == desc.text_cols
}

/// No two rows of the sequence share a primary key.
pub open spec fn unique_ids(rows: Seq<RowV>) -> bool {
    forall|i: int, j: int| 0 <= i < j < rows.len() ==> rows[i].id != rows[j].id
}

/// The store conforms to the registry: one table per entity type, every
/// row carries the declared columns, and primary keys are unique within
/// each table.
pub open spec fn store_wf(s: Store, reg: Registry) -> bool {
    &&& s.tables@.len() == reg.entities@.len()
    &&& forall|ent: int, i: int|
        0 <= ent < s.tables@.len() && 0 <= i < table_view(s, ent).len() ==> row_wf(
            reg.entities@[ent],
            #[trigger] table_view(s, ent)[i],
        )
    &&& forall|ent: int|
        0 <= ent < s.tables@.len() ==> unique_ids(#[trigger] table_view(s, ent))
}

/// The row's key column holds this foreign-key value.
pub open spec fn fk_is(r: RowV, col: int, k: u64) -> bool {
    0 <= col < r.keys.len() && r.keys[col] == Some(k)
}

/// The row's key column holds one of these foreign-key values.
pub open spec fn fk_in(r: RowV, col: int, ks: Set<u64>) -> bool {
    exists|k: u64| ks.contains(k) && fk_is(r, col, k)
}

/// The rows whose primary key is one of the given keys, in table order.
pub open spec fn rows_with_id_in(rows: Seq<RowV>, ks: Set<u64>) -> Seq<RowV> {
    rows.filter(|r: RowV| ks.contains(r.id))
}

/// The rows whose foreign-key column holds one of the given keys, in
/// table order.
pub open spec fn rows_with_fk_in(rows: Seq<RowV>, col: int, ks: Set<u64>) -> Seq<RowV> {
    rows.filter(|r: RowV| fk_in(r, col, ks))
}

/// The rows whose foreign-key column holds exactly this key, in table
/// order.
pub open spec fn rows_with_fk(rows: Seq<RowV>, col: int, k: u64) -> Seq<RowV> {
    rows.filter(|r: RowV| fk_is(r, col, k))
}

/// The first row with this primary key, if any.
pub open spec fn direct_one(rows: Seq<RowV>, k: u64) -> Option<RowV> {
    let m = rows.filter(|r: RowV| r.id == k);
    if m.len() == 0 {
        None
    } else {
        Some(m[0])
    }
}

/// A window of the fetched rows: `offset` rows are skipped, at most
/// `limit` rows are kept.
pub open spec fn page(rows: Seq<RowV>, limit: int, offset: int) -> Seq<RowV> {
    if offset >= rows.len() || offset < 0 || limit < 0 {
        Seq::empty()
    } else if offset + limit >= rows.len() {
        rows.subrange(offset, rows.len() as int)
    } else {
        rows.subrange(offset, offset + limit)
    }
}

/// The search predicate: the needle occurs, case folded, in the named
/// text column. A column that does not exist matches nothing.
pub open spec fn filter_matches(r: RowV, col: int, needle: Seq<char>) -> bool {
    0 <= col < r.texts.len() && contains_folded(r.texts[col], needle)
}

/// The predicate of a root fetch: with a key set, keys select rows; with
/// a search filter, matching rows are selected as well; with neither,
/// every row is selected.
pub open spec fn root_pred(r: RowV, ids: Option<Set<u64>>, f: Option<(int, Seq<char>)>) -> bool {
    match (ids, f) {
        (Option::None, Option::None) => true,
        (Option::Some(ks), Option::None) => ks.contains(r.id),
        (Option::None, Option::Some(fv)) => filter_matches(r, fv.0, fv.1),
        (Option::Some(ks), Option::Some(fv)) => ks.contains(r.id) || filter_matches(
            r,
            fv.0,
            fv.1,
        ),
    }
}

/// The model of an optional id filter.
pub open spec fn ids_view(ids: Option<&Vec<u64>>) -> Option<Set<u64>> {
    match ids {
        Option::Some(v) => Some(v@.to_set()),
        Option::None => None,
    }
}

/// The model of an optional search filter.
pub open spec fn filter_view(f: Option<&Filter>) -> Option<(int, Seq<char>)> {
    match f {
        Option::Some(f) => Some((f.col as int, f.needle@)),
        Option::None => None,
    }
}

/// Whether this key occurs in the vector.
pub fn contains_key(ks: &Vec<u64>, x: u64) -> (r: bool)
    ensures
        r == ks@.to_set().contains(x),
{
    let mut i: usize = 0;
    while i < ks.len()
        invariant
            i <= ks@.len(),
            forall|j: int| 0 <= j < i ==> ks@[j] != x,
        decreases ks@.len() - i,
    {
        if ks[i] == x {
            return true;
        }
        i += 1;
    }
    false
}

impl Row {
    /// Whether the row's key column holds the given foreign-key value.
    pub(crate) fn has_fk(&self, col: usize, k: u64) -> (r: bool)
        ensures
            r == fk_is(row_view(*self), col as int, k),
    {
        col < self.keys.len() && match self.keys[col] {
            Option::Some(v) => v == k,
            Option::None => false,
        }
    }

    /// Whether the row's key column holds one of the given keys.
    fn has_fk_in(&self, col: usize, ks: &Vec<u64>) -> (r: bool)
        ensures
            r == fk_in(row_view(*self), col as int, ks@.to_set()),
    {
        if col >= self.keys.len() {
            return false;
        }
        match self.keys[col] {
            Option::Some(v) => {
                let hit = contains_key(ks, v);
                proof {
                    if hit {
                        assert(fk_is(row_view(*self), col as int, v));
                    }
                }
                hit
            },
            Option::None => false,
        }
    }

    /// Whether the row satisfies the root fetch predicate.
    fn matches_root(&self, ids: Option<&Vec<u64>>, f: Option<&Filter>) -> (r: bool)
        ensures
            r == root_pred(row_view(*self), ids_view(ids), filter_view(f)),
    {
        let by_id = match ids {
            Option::Some(ks) => contains_key(ks, self.id),
            Option::None => false,
        };
        let by_text = match f {
            Option::Some(f) => {
                if f.col < self.texts.len() {
                    contains_ci(self.texts[f.col].as_str(), f.needle.as_str())
                } else {
                    false
                }
            },
            Option::None => false,
        };
        match (ids, f) {
            (Option::None, Option::None) => true,
            (Option::Some(_), Option::None) => by_id,
            (Option::None, Option::Some(_)) => by_text,
            (Option::Some(_), Option::Some(_)) => by_id || by_text,
        }
    }
}

impl Store {
    /// Checks that the store conforms to the registry: one table per
    /// entity type, every row carrying the declared number of key and
    /// text columns, and no two rows of a table sharing a primary key.
    pub fn conforms_to(&self, reg: &Registry) -> (b: bool)
        ensures
            b == store_wf(*self, *reg),
    {
        if self.tables.len() != reg.entities.len() {
            return false;
        }
        let mut ent: usize = 0;
        while ent < self.tables.len()
            invariant
                self.tables@.len() == reg.entities@.len(),
                ent <= self.tables@.len(),
                forall|e2: int, i: int|
                    0 <= e2 < ent && 0 <= i < table_view(*self, e2).len() ==> row_wf(
                        reg.entities@[e2],
                        #[trigger] table_view(*self, e2)[i],
                    ),
                forall|e2: int| 0 <= e2 < ent ==> unique_ids(#[trigger] table_view(*self, e2)),
            decreases self.tables@.len() - ent,
        {
            let rows = &self.tables[ent].rows;
            let ghost tv = table_view(*self, ent as int);
            let mut i: usize = 0;
            while i < rows.len()
                invariant
                    ent < self.tables@.len(),
                    self.tables@.len() == reg.entities@.len(),
                    rows == &self.tables@[ent as int].rows,
                    tv == table_view(*self, ent as int),
                    tv.len() == rows@.len(),
                    i <= tv.len(),
                    forall|k: int|
                        0 <= k < i ==> row_wf(
                            reg.entities@[ent as int],
                            #[trigger] tv[k],
                        ),
                    forall|a: int, b2: int| 0 <= a < b2 < i ==> tv[a].id != tv[b2].id,
                decreases rows@.len() - i,
            {
                proof {
                    assert(tv[i as int] == row_view(rows@[i as int]));
                }
                if rows[i].keys.len() != reg.entities[ent].key_cols || rows[i].texts.len()
                    != reg.entities[ent].text_cols {
                    return false;
                }
                let mut j: usize = 0;
                while j < i
                    invariant
                        ent < self.tables@.len(),
                        rows == &self.tables@[ent as int].rows,
                        tv == table_view(*self, ent as int),
                        tv.len() == rows@.len(),
                        j <= i < tv.len(),
                        forall|a: int| 0 <= a < j ==> #[trigger] tv[a].id != tv[i as int].id,
                    decreases i - j,
                {
                    if rows[j].id == rows[i].id {
                        proof {
                            assert(tv[j as int].id == tv[i as int].id);
                            assert(!unique_ids(table_view(*self, ent as int)));
                        }
                        return false;
                    }
                    proof {
                        assert(tv[j as int] == row_view(rows@[j as int]));
                    }
                    j += 1;
                }
                i += 1;
            }
            ent += 1;
        }
        true
    }

    /// One fetch by primary key: the first row with this key, or nothing.
    pub fn fetch_one(&self, ent: usize, key: u64) -> (r: Result<Option<Row>, RepoError>)
        requires
            ent < self.tables@.len(),
        ensures
            r is Err <==> failing(*self, ent as int),
            match r {
                Result::Ok(opt) => match opt {
                    Option::Some(row) => direct_one(table_view(*self, ent as int), key) == Some(
                        row_view(row),
                    ),
                    Option::None => direct_one(table_view(*self, ent as int), key) is None,
                },
                Result::Err(_) => true,
            },
    {
        if self.tables[ent].failing {
            return Err(RepoError::Unavailable);
        }
        let rows = &self.tables[ent].rows;
        let ghost tv = table_view(*self, ent as int);
        let ghost p = |r: RowV| r.id == key;
        let mut i: usize = 0;
        while i < rows.len()
            invariant
                ent < self.tables@.len(),
                !failing(*self, ent as int),
                rows == &self.tables@[ent as int].rows,
                tv == table_view(*self, ent as int),
                p == (|r: RowV| r.id == key),
                i <= tv.len(),
                tv.len() == rows@.len(),
                forall|j: int| 0 <= j < i ==> !p(tv[j]),
            decreases rows@.len() - i,
        {
            if rows[i].id == key {
                proof {
                    assert(p(tv[i as int]));
                    lemma_filter_first(tv, p, i as int);
                }
                return Ok(Some(rows[i].duplicate()));
            }
            i += 1;
        }
        proof {
            crate::seqs::lemma_filter_all_dropped(tv, p);
        }
        Ok(None)
    }

    /// One batch fetch by primary key: every row whose key is in the set,
    /// in table order.
    pub fn fetch_by_keys(&self, ent: usize, ks: &Vec<u64>) -> (r: Result<Vec<Row>, RepoError>)
        requires
            ent < self.tables@.len(),
        ensures
            r is Err <==> failing(*self, ent as int),
            match r {
                Result::Ok(rows) => rows_view(rows@) == rows_with_id_in(
                    table_view(*self, ent as int),
                    ks@.to_set(),
                ),
                Result::Err(_) => true,
            },
    {
        if self.tables[ent].failing {
            return Err(RepoError::Unavailable);
        }
        let rows = &self.tables[ent].rows;
        let ghost tv = table_view(*self, ent as int);
        let ghost p = |r: RowV| ks@.to_set().contains(r.id);
        let mut out: Vec<Row> = Vec::new();
        let mut i: usize = 0;
        while i < rows.len()
            invariant
                ent < self.tables@.len(),
                rows == &self.tables@[ent as int].rows,
                tv == table_view(*self, ent as int),
                p == (|r: RowV| ks@.to_set().contains(r.id)),
                i <= tv.len(),
                tv.len() == rows@.len(),
                rows_view(out@) == tv.subrange(0, i as int).filter(p),
            decreases rows@.len() - i,
        {
            proof {
                lemma_filter_subrange_step(tv, p, i as int);
            }
            if contains_key(ks, rows[i].id) {
                out.push(rows[i].duplicate());
                proof {
                    assert(rows_view(out@) =~= tv.subrange(0, i + 1).filter(p));
                }
            }
            i += 1;
        }
        proof {
            lemma_filter_whole(tv, p);
        }
        Ok(out)
    }

    /// One batch fetch by foreign key: every row whose foreign-key column
    /// holds one of the keys, in table order, with the pagination window
    /// applied to the combined result before any partitioning.
    pub fn fetch_by_fk(
        &self,
        ent: usize,
        col: usize,
        ks: &Vec<u64>,
        limit: usize,
        offset: usize,
    ) -> (r: Result<Vec<Row>, RepoError>)
        requires
            ent < self.tables@.len(),
        ensures
            r is Err <==> failing(*self, ent as int),
            match r {
                Result::Ok(rows) => rows_view(rows@) == page(
                    rows_with_fk_in(table_view(*self, ent as int), col as int, ks@.to_set()),
                    limit as int,
                    offset as int,
                ),
                Result::Err(_) => true,
            },
    {
        if self.tables[ent].failing {
            return Err(RepoError::Unavailable);
        }
        let rows = &self.tables[ent].rows;
        let ghost tv = table_view(*self, ent as int);
        let ghost p = |r: RowV| fk_in(r, col as int, ks@.to_set());
        let mut matched: Vec<Row> = Vec::new();
        let mut i: usize = 0;
        while i < rows.len()
            invariant
                ent < self.tables@.len(),
                rows == &self.tables@[ent as int].rows,
                tv == table_view(*self, ent as int),
                p == (|r: RowV| fk_in(r, col as int, ks@.to_set())),
                i <= tv.len(),
                tv.len() == rows@.len(),
                rows_view(matched@) == tv.subrange(0, i as int).filter(p),
            decreases rows@.len() - i,
        {
            proof {
                lemma_filter_subrange_step(tv, p, i as int);
            }
            if rows[i].has_fk_in(col, ks) {
                matched.push(rows[i].duplicate());
                proof {
                    assert(rows_view(matched@) =~= tv.subrange(0, i + 1).filter(p));
                }
            }
            i += 1;
        }
        proof {
            lemma_filter_whole(tv, p);
        }
        Ok(page_rows(&matched, limit, offset))
    }

    /// One root fetch: the rows selected by the optional id set and the
    /// optional search filter, in table order, windowed by limit and
    /// offset.
    pub fn fetch_page(
        &self,
        ent: usize,
        ids: Option<&Vec<u64>>,
        f: Option<&Filter>,
        limit: usize,
        offset: usize,
    ) -> (r: Result<Vec<Row>, RepoError>)
        requires
            ent < self.tables@.len(),
        ensures
            r is Err <==> failing(*self, ent as int),
            match r {
                Result::Ok(rows) => rows_view(rows@) == page(
                    table_view(*self, ent as int).filter(
                        |r: RowV| root_pred(r, ids_view(ids), filter_view(f)),
                    ),
                    limit as int,
                    offset as int,
                ),
                Result::Err(_) => true,
            },
    {
        if self.tables[ent].failing {
            return Err(RepoError::Unavailable);
        }
        let rows = &self.tables[ent].rows;
        let ghost tv = table_view(*self, ent as int);
        let ghost p = |r: RowV| root_pred(r, ids_view(ids), filter_view(f));
        let mut matched: Vec<Row> = Vec::new();
        let mut i: usize = 0;
        while i < rows.len()
            invariant
                ent < self.tables@.len(),
                rows == &self.tables@[ent as int].rows,
                tv == table_view(*self, ent as int),
                p == (|r: RowV| root_pred(r, ids_view(ids), filter_view(f))),
                i <= tv.len(),
                tv.len() == rows@.len(),
                rows_view(matched@) == tv.subrange(0, i as int).filter(p),
            decreases rows@.len() - i,
        {
            proof {
                lemma_filter_subrange_step(tv, p, i as int);
            }
            if rows[i].matches_root(ids, f) {
                matched.push(rows[i].duplicate());
                proof {
                    assert(rows_view(matched@) =~= tv.subrange(0, i + 1).filter(p));
                }
            }
            i += 1;
        }
        proof {
            lemma_filter_whole(tv, p);
        }
        Ok(page_rows(&matched, limit, offset))
    }
}

/// Applies the pagination window to already-fetched rows.
fn page_rows(rows: &Vec<Row>, limit: usize, offset: usize) -> (r: Vec<Row>)
    ensures
        rows_view(r@) == page(rows_view(rows@), limit as int, offset as int),
{
    let mut out: Vec<Row> = Vec::new();
    let ghost rv = rows_view(rows@);
    if offset >= rows.len() {
        proof {
            assert(rows_view(out@) =~= page(rv, limit as int, offset as int));
        }
        return out;
    }
    let end = if limit < rows.len() - offset {
        offset + limit
    } else {
        rows.len()
    };
    let mut i: usize = offset;
    while i < end
        invariant
            offset <= i <= end <= rows@.len(),
            rv == rows_view(rows@),
            rv.len() == rows@.len(),
            rows_view(out@) == rv.subrange(offset as int, i as int),
        decreases end - i,
    {
        let dup = rows[i].duplicate();
        out.push(dup);
        proof {
            assert(row_view(dup) == rv[i as int]);
            assert(rv.subrange(offset as int, i + 1) =~= rv.subrange(
                offset as int,
                i as int,
            ).push(rv[i as int]));
            assert(rows_view(out@) =~= rv.subrange(offset as int, i + 1));
        }
        i += 1;
    }
    proof {
        assert(rows_view(out@) =~= page(rv, limit as int, offset as int));
    }
    out
}

} // verus!
