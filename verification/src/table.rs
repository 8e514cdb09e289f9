//! The table: record storage, row identity, and the query builder.
//!
//! A [`Table`] owns an append-only sequence of records plus one composite
//! index supplied by the host through the [`Selectable`] and [`Indexer`]
//! traits. The table is the sole source of truth; every insert and update is
//! routed through the composite index so all registered indexes stay
//! synchronized. Updates follow the remove-before-mutate-then-add protocol:
//! the index entry is purged with the *old* record value, then the mutator
//! runs, then the entry is re-added with the *new* value. The protocol is
//! contractual: `insert`, `update`, and `apply` state, over the abstract
//! index model of the [`Indexer`] trait, exactly what they hand the
//! composite index and in what order.

use vstd::prelude::*;

use crate::selection::Row;
use crate::selection::Selection;
use crate::selection::ascending;
use crate::selection::enumerates;
use crate::selection::full_rows;
use crate::selection::lemma_full_rows_count;

verus! {

/// The capability bundle of one composite index: it must accept every
/// well-typed record, so `add` and `remove` cannot fail. Implementations
/// fan the calls out to their member indexes in a fixed order.
///
/// The three spec functions are the implementation's own model of its
/// state transitions; the exec methods promise to follow it. The table's
/// contracts are then exact about what it hands the composite index and in
/// what order, so a host whose `spec_add`/`spec_remove` are the per-kind
/// view transformations of [`crate::index`] gets the consistency lemmas
/// there end-to-end.
pub trait Indexer<T>: Sized {
    /// The initial state `new` establishes.
    spec fn spec_new() -> Self;

    /// The state after recording that `row` now holds `item`.
    spec fn spec_add(self, row: u32, item: T) -> Self;

    /// The state after purging everything derived from `item` for `row`.
    spec fn spec_remove(self, row: u32, item: T) -> Self;

    fn new() -> (r: Self)
        ensures
            r == Self::spec_new(),
    ;

    fn add(&mut self, row: Row, item: &T)
        ensures
            *final(self) == old(self).spec_add(row@, *item),
    ;

    fn remove(&mut self, row: Row, item: &T)
        ensures
            *final(self) == old(self).spec_remove(row@, *item),
    ;
}

/// A record type that a table can store: it names its composite index and
/// can hand out faithful copies of its values, so records are value-copied
/// out of the table and never aliased.
pub trait Selectable: Sized {
    type Indexer: Indexer<Self>;

    fn duplicate(&self) -> (r: Self)
        ensures
            r == *self,
    ;
}

/// A composite index over nothing, for tables that need no lookups.
pub struct EmptyIndexer;

impl<T> Indexer<T> for EmptyIndexer {
    open spec fn spec_new() -> Self {
        EmptyIndexer
    }

    open spec fn spec_add(self, row: u32, item: T) -> Self {
        self
    }

    open spec fn spec_remove(self, row: u32, item: T) -> Self {
        self
    }

    fn new() -> (r: Self) {
        EmptyIndexer
    }

    fn add(&mut self, _row: Row, _item: &T) {
    }

    fn remove(&mut self, _row: Row, _item: &T) {
    }
}

/// The one failure the store can report: a row identifier that does not
/// denote a storage position of this table.
#[derive(Clone, Copy, Debug, PartialEq, Eq, Structural)]
pub enum Error {
    InvalidRow,
}

/// `items` are copies of `table`'s records at exactly the rows of `sel`,
/// listed in ascending row order.
pub open spec fn materializes<T>(items: Seq<T>, table: Seq<T>, sel: Set<u32>) -> bool {
    exists|rs: Seq<u32>|
        {
            &&& #[trigger] enumerates(rs, sel)
            &&& items.len() == rs.len()
            &&& forall|j: int|
                #![auto]
                0 <= j < rs.len() ==> rs[j] < table.len() && items[j] == table[rs[j] as int]
        }
}

/// An in-memory, single-table store. Owns the records, assigns stable row
/// identities densely in insertion order, and keeps the composite index
/// consistent across insert and update.
pub struct Table<T: Selectable> {
    items: Vec<T>,
    indexer: T::Indexer,
}

impl<T: Selectable> View for Table<T> {
    type V = Seq<T>;

    closed spec fn view(&self) -> Seq<T> {
        self.items@
    }
}

impl<T: Selectable> Table<T> {
    /// Row identifiers are packed into 32-bit bitmaps, which bounds how many
    /// records one table can hold.
    pub open spec fn wf(&self) -> bool {
        self@.len() <= 0xffff_ffff
    }

    /// The composite index's current state, in the host `Indexer`'s own
    /// model of it.
    pub closed spec fn spec_indexer(&self) -> T::Indexer {
        self.indexer
    }

    /// An empty table whose composite index is in its initial state.
    pub fn in_memory() -> (r: Self)
        ensures
            r@ == Seq::<T>::empty(),
            r.spec_indexer() == <T::Indexer as Indexer<T>>::spec_new(),
            r.wf(),
    {
        Table { items: Vec::new(), indexer: T::Indexer::new() }
    }

    /// How many records the table holds.
    pub fn len(&self) -> (r: usize)
        ensures
            r == self@.len(),
    {
        self.items.len()
    }

    pub fn is_empty(&self) -> (r: bool)
        ensures
            r == (self@.len() == 0),
    {
        self.items.len() == 0
    }

    /// The composite index, for key lookups.
    pub fn indexer(&self) -> &T::Indexer {
        &self.indexer
    }

    /// Appends `item` under the next sequential row identifier. The index is
    /// told about the new row before the record is stored; both complete.
    pub fn insert(&mut self, item: T)
        requires
            old(self)@.len() < 0xffff_ffff,
        ensures
            final(self)@ == old(self)@.push(item),
            final(self).spec_indexer() == old(self).spec_indexer().spec_add(
                old(self)@.len() as u32,
                item,
            ),
            final(self).wf(),
    {
        let row = Row::from_u32(self.items.len() as u32);
        self.indexer.add(row, &item);
        self.items.push(item);
    }

    /// A read-only query over every current row.
    pub fn select(&self) -> (q: Query)
        requires
            self.wf(),
        ensures
            q@ == full_rows(self@.len() as nat),
            q.wf(),
    {
        let q = Query { selection: Selection::filled(self.items.len() as u32) };
        proof {
            lemma_full_rows_count(self@.len() as nat);
        }
        q
    }

    /// Rewrites the record at `row` with `mutator`, keeping every index
    /// consistent: the index entries are removed under the old record value,
    /// the mutator is applied, and the entries are re-added under the new
    /// value. Fails, changing nothing, exactly when `row` is out of range.
    pub fn update<F: Fn(T) -> T>(&mut self, row: Row, mutator: F) -> (r: Result<(), Error>)
        requires
            forall|x: T| #[trigger] call_requires(mutator, (x,)),
        ensures
            match r {
                Ok(()) => row@ < old(self)@.len() && exists|v: T|
                    {
                        &&& #[trigger] call_ensures(mutator, (old(self)@[row@ as int],), v)
                        &&& final(self)@ == old(self)@.update(row@ as int, v)
                        &&& final(self).spec_indexer() == old(self).spec_indexer().spec_remove(
                            row@,
                            old(self)@[row@ as int],
                        ).spec_add(row@, v)
                    },
                Err(e) => row@ >= old(self)@.len() && final(self)@ == old(self)@
                    && final(self).spec_indexer() == old(self).spec_indexer()
                    && e == Error::InvalidRow,
            },
    {
        if row.as_index() >= self.items.len() {
            return Err(Error::InvalidRow);
        }
        self.update_row(row, &mutator);
        Ok(())
    }

    /// The update protocol for one in-range row.
    fn update_row<F: Fn(T) -> T>(&mut self, row: Row, mutator: &F)
        requires
            row@ < old(self)@.len(),
            forall|x: T| #[trigger] call_requires(*mutator, (x,)),
        ensures
            exists|v: T|
                {
                    &&& #[trigger] call_ensures(*mutator, (old(self)@[row@ as int],), v)
                    &&& final(self)@ == old(self)@.update(row@ as int, v)
                    &&& final(self).spec_indexer() == old(self).spec_indexer().spec_remove(
                        row@,
                        old(self)@[row@ as int],
                    ).spec_add(row@, v)
                },
    {
        let idx = row.as_index();
        let current = self.items[idx].duplicate();
        self.indexer.remove(row, &current);
        let updated = mutator(current);
        self.indexer.add(row, &updated);
        self.items[idx] = updated;
    }

    /// A copy of the record at `row`. Fails exactly when `row` is out of
    /// range.
    pub fn retrieve_row(&self, row: Row) -> (r: Result<T, Error>)
        ensures
            match r {
                Ok(item) => row@ < self@.len() && item == self@[row@ as int],
                Err(e) => row@ >= self@.len() && e == Error::InvalidRow,
            },
    {
        let idx = row.as_index();
        if idx < self.items.len() {
            Ok(self.items[idx].duplicate())
        } else {
            Err(Error::InvalidRow)
        }
    }

    /// Copies of the records at the selected rows, in ascending row order.
    /// Fails exactly when some selected row is out of range.
    pub fn retrieve_many(&self, rows: &Selection) -> (r: Result<Vec<T>, Error>)
        ensures
            match r {
                Ok(items) => materializes(items@, self@, rows@),
                Err(e) => (exists|row: u32| rows@.contains(row) && row >= self@.len()) && e
                    == Error::InvalidRow,
            },
    {
        let row_list = rows.rows();
        let ghost rs = row_list@.map_values(|row: Row| row@);
        let mut out: Vec<T> = Vec::new();
        let mut i: usize = 0;
        while i < row_list.len()
            invariant
                rs == row_list@.map_values(|row: Row| row@),
                enumerates(rs, rows@),
                i <= row_list@.len(),
                out@.len() == i,
                forall|j: int|
                    0 <= j < i ==> rs[j] < self@.len() && out@[j] == self@[#[trigger] rs[j] as int],
            decreases row_list@.len() - i,
        {
            let row = row_list[i];
            let idx = row.as_index();
            if idx >= self.items.len() {
                proof {
                    assert(rs.contains(rs[i as int]));
                }
                return Err(Error::InvalidRow);
            }
            out.push(self.items[idx].duplicate());
            i = i + 1;
        }
        Ok(out)
    }
}

/// A transient selection of rows being narrowed towards a read or a bulk
/// update. Narrowing operations compose as a boolean algebra over the
/// selection and never touch record content; terminal operations take the
/// table they read or mutate.
pub struct Query {
    selection: Selection,
}

impl View for Query {
    type V = Set<u32>;

    closed spec fn view(&self) -> Set<u32> {
        self.selection@
    }
}

impl Query {
    pub open spec fn wf(&self) -> bool {
        self@.finite()
    }

    /// Narrows the selection to its intersection with `selection`.
    pub fn and(self, selection: &Selection) -> (q: Self)
        requires
            self.wf(),
        ensures
            q@ == self@.intersect(selection@),
            q.wf(),
    {
        let mut s = self.selection;
        s.intersect_with(selection);
        Query { selection: s }
    }

    /// Widens the selection to its union with `selection`.
    pub fn or(self, selection: &Selection) -> (q: Self)
        requires
            self.wf(),
            selection.wf(),
        ensures
            q@ == self@.union(selection@),
            q.wf(),
    {
        let mut s = self.selection;
        s.union_with(selection);
        Query { selection: s }
    }

    /// Empties the selection.
    pub fn none(self) -> (q: Self)
        ensures
            q@ == Set::<u32>::empty(),
            q.wf(),
    {
        Query { selection: Selection::empty() }
    }

    /// Replaces the selection with the single row `row`.
    pub fn only_row(self, row: Row) -> (q: Self)
        ensures
            q@ == Set::<u32>::empty().insert(row@),
            q.wf(),
    {
        Query { selection: Selection::of_row(row) }
    }

    /// Replaces the selection with at most one row: `row`'s single row when
    /// present, nothing otherwise.
    pub fn maybe_only_row(self, maybe_row: Option<Row>) -> (q: Self)
        ensures
            q@ == (match maybe_row {
                Some(row) => Set::<u32>::empty().insert(row@),
                None => Set::<u32>::empty(),
            }),
            q.wf(),
    {
        match maybe_row {
            Some(row) => self.only_row(row),
            None => self.none(),
        }
    }

    /// Replaces the selection wholesale.
    pub fn only(self, selection: Selection) -> (q: Self)
        requires
            selection.wf(),
        ensures
            q@ == selection@,
            q.wf(),
    {
        Query { selection }
    }

    /// How many rows are selected, read off the bitmap without materializing
    /// records.
    pub fn count(&self) -> (r: u64)
        ensures
            r as nat == self@.len(),
    {
        self.selection.len()
    }

    /// Copies of the selected records, in ascending row order, read at call
    /// time. Fails exactly when some selected row is out of range.
    pub fn iter<T: Selectable>(&self, table: &Table<T>) -> (r: Result<Vec<T>, Error>)
        ensures
            match r {
                Ok(items) => materializes(items@, table@, self@),
                Err(e) => (exists|row: u32| self@.contains(row) && row >= table@.len()) && e
                    == Error::InvalidRow,
            },
    {
        let r = table.retrieve_many(&self.selection);
        proof {
            assert(self@ == self.selection@);
        }
        r
    }

    /// Materializes the selected records into a vector, in ascending row
    /// order.
    pub fn collect<T: Selectable>(&self, table: &Table<T>) -> (r: Result<Vec<T>, Error>)
        ensures
            match r {
                Ok(items) => materializes(items@, table@, self@),
                Err(e) => (exists|row: u32| self@.contains(row) && row >= table@.len()) && e
                    == Error::InvalidRow,
            },
    {
        self.iter(table)
    }

    /// The record of the smallest selected row, or nothing when the
    /// selection is empty. Only that row is read, so a later selected row
    /// that is out of range goes unnoticed, as it would when reading just
    /// the head of a lazy sequence.
    pub fn first<T: Selectable>(&self, table: &Table<T>) -> (r: Result<Option<T>, Error>)
        ensures
            match r {
                Ok(opt) => match opt {
                    None => self@ == Set::<u32>::empty(),
                    Some(item) => exists|row: u32|
                        {
                            &&& #[trigger] self@.contains(row)
                            &&& forall|other: u32| self@.contains(other) ==> row <= other
                            &&& row < table@.len()
                            &&& item == table@[row as int]
                        },
                },
                Err(e) => (exists|row: u32|
                    {
                        &&& #[trigger] self@.contains(row)
                        &&& forall|other: u32| self@.contains(other) ==> row <= other
                        &&& row >= table@.len()
                    }) && e == Error::InvalidRow,
            },
    {
        let row_list = self.selection.rows();
        let ghost rs = row_list@.map_values(|row: Row| row@);
        if row_list.len() == 0 {
            proof {
                assert forall|row: u32| !self@.contains(row) by {
                    if self@.contains(row) {
                        assert(rs.contains(row));
                    }
                }
                assert(self@ =~= Set::<u32>::empty());
            }
            Ok(None)
        } else {
            let row = row_list[0];
            proof {
                assert(row@ == rs[0]);
                assert(rs.contains(rs[0]));
                assert(self@.contains(rs[0]));
                assert forall|other: u32| #[trigger] self@.contains(other) implies rs[0]
                    <= other by {
                    assert(rs.contains(other));
                    let k = choose|k: int| 0 <= k < rs.len() && rs[k] == other;
                    if k > 0 {
                        assert(rs[0] < rs[k]);
                    }
                }
            }
            match table.retrieve_row(row) {
                Ok(item) => Ok(Some(item)),
                Err(e) => Err(e),
            }
        }
    }

    /// Runs the table's update protocol once per selected row, in ascending
    /// row order; the set of rows walked is fixed when the call starts. If
    /// any selected row is out of range, fails before mutating anything.
    pub fn apply<T: Selectable, F: Fn(T) -> T>(
        &self,
        table: &mut Table<T>,
        mutator: F,
    ) -> (r: Result<(), Error>)
        requires
            old(table).wf(),
            forall|x: T| #[trigger] call_requires(mutator, (x,)),
        ensures
            match r {
                Ok(()) => {
                    &&& final(table)@.len() == old(table)@.len()
                    &&& forall|r: u32| #[trigger] self@.contains(r) ==> r < old(table)@.len()
                    &&& forall|p: int|
                        #![auto]
                        0 <= p < old(table)@.len() && !self@.contains(p as u32)
                            ==> final(table)@[p] == old(table)@[p]
                    &&& forall|p: int|
                        0 <= p < old(table)@.len() && #[trigger] self@.contains(p as u32)
                            ==> call_ensures(mutator, (old(table)@[p],), final(table)@[p])
                    &&& exists|rs: Seq<u32>, vs: Seq<T>|
                        #![trigger protocol_fold(old(table).spec_indexer(), old(table)@, rs, vs)]
                        {
                            &&& enumerates(rs, self@)
                            &&& vs.len() == rs.len()
                            &&& forall|k: int|
                                0 <= k < rs.len() ==> rs[k] < old(table)@.len()
                                    && #[trigger] call_ensures(
                                    mutator,
                                    (old(table)@[rs[k] as int],),
                                    vs[k],
                                )
                            &&& final(table).spec_indexer() == protocol_fold(
                                old(table).spec_indexer(),
                                old(table)@,
                                rs,
                                vs,
                            )
                        }
                },
                Err(e) => (exists|row: u32| self@.contains(row) && row >= old(table)@.len())
                    && final(table)@ == old(table)@
                    && final(table).spec_indexer() == old(table).spec_indexer()
                    && e == Error::InvalidRow,
            },
    {
        let row_list = self.selection.rows();
        let ghost rs = row_list@.map_values(|row: Row| row@);
        let mut i: usize = 0;
        while i < row_list.len()
            invariant
                rs == row_list@.map_values(|row: Row| row@),
                enumerates(rs, self@),
                i <= row_list@.len(),
                table@ == old(table)@,
                table.spec_indexer() == old(table).spec_indexer(),
                forall|k: int| 0 <= k < i ==> #[trigger] rs[k] < table@.len(),
            decreases row_list@.len() - i,
        {
            if row_list[i].as_index() >= table.len() {
                proof {
                    assert(rs.contains(rs[i as int]));
                }
                return Err(Error::InvalidRow);
            }
            i = i + 1;
        }
        let ghost mut vs: Seq<T> = Seq::empty();
        proof {
            reveal_with_fuel(protocol_fold, 2);
            assert(applied_rows(mutator, old(table)@, table@, rs.subrange(0, 0)));
            assert(rs.subrange(0, 0) =~= Seq::<u32>::empty());
            assert(table.spec_indexer() == protocol_fold(
                old(table).spec_indexer(),
                old(table)@,
                rs.subrange(0, 0),
                vs,
            ));
        }
        let mut j: usize = 0;
        while j < row_list.len()
            invariant
                rs == row_list@.map_values(|row: Row| row@),
                enumerates(rs, self@),
                forall|x: T| #[trigger] call_requires(mutator, (x,)),
                forall|k: int| 0 <= k < rs.len() ==> #[trigger] rs[k] < old(table)@.len(),
                j <= rs.len(),
                old(table)@.len() <= 0xffff_ffff,
                applied_rows(mutator, old(table)@, table@, rs.subrange(0, j as int)),
                vs.len() == j,
                forall|k: int|
                    0 <= k < j ==> #[trigger] call_ensures(
                        mutator,
                        (old(table)@[rs[k] as int],),
                        vs[k],
                    ),
                table.spec_indexer() == protocol_fold(
                    old(table).spec_indexer(),
                    old(table)@,
                    rs.subrange(0, j as int),
                    vs,
                ),
            decreases row_list@.len() - j,
        {
            let row = row_list[j];
            proof {
                assert(row@ == rs[j as int]);
            }
            let ghost prev = table@;
            let ghost prev_ix = table.spec_indexer();
            table.update_row(row, &mutator);
            proof {
                let v = choose|v: T|
                    {
                        &&& call_ensures(mutator, (prev[rs[j as int] as int],), v)
                        &&& table@ == prev.update(rs[j as int] as int, v)
                        &&& table.spec_indexer() == prev_ix.spec_remove(
                            rs[j as int],
                            prev[rs[j as int] as int],
                        ).spec_add(rs[j as int], v)
                    };
                lemma_applied_step(mutator, old(table)@, prev, table@, rs, j as int, v);
                lemma_protocol_fold_push(
                    old(table).spec_indexer(),
                    old(table)@,
                    rs.subrange(0, j as int),
                    vs,
                    rs[j as int],
                    v,
                );
                assert(rs.subrange(0, j as int + 1) =~= rs.subrange(0, j as int).push(
                    rs[j as int],
                ));
                vs = vs.push(v);
            }
            j = j + 1;
        }
        proof {
            assert(rs.subrange(0, rs.len() as int) =~= rs);
            assert(applied_rows(mutator, old(table)@, table@, rs));
            assert forall|p: int|
                0 <= p < old(table)@.len() && !self@.contains(p as u32) implies table@[p] == old(
                table,
            )@[p] by {
                assert(!rs.contains(p as u32));
            }
            assert forall|p: int|
                0 <= p < old(table)@.len() && #[trigger] self@.contains(p as u32) implies call_ensures(
                mutator,
                (old(table)@[p],),
                table@[p],
            ) by {
                assert(rs.contains(p as u32));
            }
            assert forall|r: u32| #[trigger] self@.contains(r) implies r < old(table)@.len() by {
                assert(rs.contains(r));
                let k = choose|k: int| 0 <= k < rs.len() && rs[k] == r;
            }
            assert(table.spec_indexer() == protocol_fold(
                old(table).spec_indexer(),
                old(table)@,
                rs,
                vs,
            ));
        }
        Ok(())
    }
}

/// Row stability: appending a record places it at the next storage
/// position and moves no existing row, and rewriting a row in place moves
/// no row at all — these are the only two ways a table's contents change,
/// so row identifiers stay valid and dense for the life of the table.
pub proof fn lemma_row_stability<T>(items: Seq<T>, item: T, row: int, v: T)
    requires
        0 <= row < items.len(),
    ensures
        items.push(item).len() == items.len() + 1,
        items.push(item)[items.len() as int] == item,
        forall|p: int| 0 <= p < items.len() ==> items.push(item)[p] == items[p],
        items.update(row, v).len() == items.len(),
        items.update(row, v)[row] == v,
        forall|p: int| 0 <= p < items.len() && p != row ==> items.update(row, v)[p] == items[p],
{
}

/// The composite-index state after the update protocol has run over each
/// row of `rows` in order, against the records of `orig`: for the k-th row,
/// the index is purged under that row's record in `orig` and then re-added
/// under the mutator result `vals[k]`.
pub open spec fn protocol_fold<T, I: Indexer<T>>(
    ix: I,
    orig: Seq<T>,
    rows: Seq<u32>,
    vals: Seq<T>,
) -> I
    decreases rows.len(),
{
    if rows.len() == 0 {
        ix
    } else {
        protocol_fold(
            ix.spec_remove(rows[0], orig[rows[0] as int]).spec_add(rows[0], vals[0]),
            orig,
            rows.subrange(1, rows.len() as int),
            vals.subrange(1, vals.len() as int),
        )
    }
}

proof fn lemma_protocol_fold_push<T, I: Indexer<T>>(
    ix: I,
    orig: Seq<T>,
    rows: Seq<u32>,
    vals: Seq<T>,
    r: u32,
    v: T,
)
    requires
        rows.len() == vals.len(),
    ensures
        protocol_fold(ix, orig, rows.push(r), vals.push(v)) == protocol_fold(
            ix,
            orig,
            rows,
            vals,
        ).spec_remove(r, orig[r as int]).spec_add(r, v),
    decreases rows.len(),
{
    reveal_with_fuel(protocol_fold, 3);
    let rows2 = rows.push(r);
    let vals2 = vals.push(v);
    if rows.len() == 0 {
        assert(rows2[0] == r);
        assert(vals2[0] == v);
        assert(rows2.subrange(1, rows2.len() as int) =~= Seq::<u32>::empty());
        assert(vals2.subrange(1, vals2.len() as int) =~= Seq::<T>::empty());
    } else {
        assert(rows2[0] == rows[0]);
        assert(vals2[0] == vals[0]);
        assert(rows2.subrange(1, rows2.len() as int) =~= rows.subrange(
            1,
            rows.len() as int,
        ).push(r));
        assert(vals2.subrange(1, vals2.len() as int) =~= vals.subrange(
            1,
            vals.len() as int,
        ).push(v));
        lemma_protocol_fold_push(
            ix.spec_remove(rows[0], orig[rows[0] as int]).spec_add(rows[0], vals[0]),
            orig,
            rows.subrange(1, rows.len() as int),
            vals.subrange(1, vals.len() as int),
            r,
            v,
        );
    }
}

/// After running the update protocol over the rows of `done`, `cur` holds
/// a mutator result at each of them and `orig`'s record everywhere else.
spec fn applied_rows<T, F: Fn(T) -> T>(mutator: F, orig: Seq<T>, cur: Seq<T>, done: Seq<u32>) -> bool {
    &&& cur.len() == orig.len()
    &&& forall|p: int|
        #![trigger cur[p]]
        0 <= p < orig.len() ==> {
            if done.contains(p as u32) {
                call_ensures(mutator, (orig[p],), cur[p])
            } else {
                cur[p] == orig[p]
            }
        }
}

proof fn lemma_applied_step<T, F: Fn(T) -> T>(
    mutator: F,
    orig: Seq<T>,
    prev: Seq<T>,
    cur: Seq<T>,
    rows: Seq<u32>,
    j: int,
    val: T,
)
    requires
        orig.len() <= 0xffff_ffff,
        ascending(rows),
        0 <= j < rows.len(),
        rows[j] < orig.len(),
        applied_rows(mutator, orig, prev, rows.subrange(0, j)),
        call_ensures(mutator, (prev[rows[j] as int],), val),
        cur == prev.update(rows[j] as int, val),
    ensures
        applied_rows(mutator, orig, cur, rows.subrange(0, j + 1)),
        prev[rows[j] as int] == orig[rows[j] as int],
{
    let r0 = rows[j];
    let before = rows.subrange(0, j);
    let after = rows.subrange(0, j + 1);
    assert forall|x: u32| #[trigger] after.contains(x) implies (before.contains(x) || x == r0) by {
        let k = choose|k: int| 0 <= k < after.len() && after[k] == x;
        if k < j {
            assert(before[k] == x);
        }
    }
    assert forall|x: u32| before.contains(x) || x == r0 implies #[trigger] after.contains(x) by {
        if x == r0 {
            assert(after[j] == x);
        } else {
            let k = choose|k: int| 0 <= k < before.len() && before[k] == x;
            assert(after[k] == x);
        }
    }
    assert(!before.contains(r0)) by {
        if before.contains(r0) {
            let k = choose|k: int| 0 <= k < before.len() && before[k] == r0;
            assert(rows[k] == rows[j]);
            assert(rows[k] < rows[j]);
        }
    }
    assert(prev[r0 as int] == orig[r0 as int]);
    assert forall|p: int| #![trigger cur[p]] 0 <= p < orig.len() implies {
        if rows.subrange(0, j + 1).contains(p as u32) {
            call_ensures(mutator, (orig[p],), cur[p])
        } else {
            cur[p] == orig[p]
        }
    } by {
        if p == r0 as int {
            assert(call_ensures(mutator, (orig[p],), val) && cur[p] == val);
            assert(after.contains(p as u32));
        } else {
            assert(p < 0x1_0000_0000);
            assert(p as u32 as int == p);
            assert(p as u32 != r0);
            assert(cur[p] == prev[p]);
            assert(after.contains(p as u32) == before.contains(p as u32));
        }
    }
}

} // verus!
