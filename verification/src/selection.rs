//! Row identifiers and compressed-bitmap row sets.
//!
//! A [`Selection`] is a finite set of row identifiers backed by a compressed
//! bitmap from the `croaring` crate. The bitmap itself is trusted only
//! through the small wrappers below; everything layered on top of them is
//! verified against the set [`Selection::view`] they describe.

use vstd::prelude::*;
use vstd::set_lib::lemma_len_intersect;
use vstd::set_lib::lemma_len_subset;

verus! {

/// A stable handle to a record's storage position. Row identifiers are
/// assigned densely (0, 1, 2, ...) on each insert and are never reused or
/// renumbered; only the table and selection machinery mint them.
#[derive(Clone, Copy, PartialEq, Eq, Structural)]
pub struct Row {
    value: u32,
}

impl View for Row {
    type V = u32;

    closed spec fn view(&self) -> u32 {
        self.value
    }
}

impl Row {
    /// The storage position this row denotes.
    pub fn as_index(self) -> (r: usize)
        ensures
            r == self@ as usize,
    {
        self.value as usize
    }

    /// The row denoting storage position `value`, which must fit the 32-bit
    /// row universe.
    pub fn from_index(value: usize) -> (r: Self)
        requires
            value <= 0xffff_ffff,
        ensures
            r@ == value as u32,
    {
        Row { value: value as u32 }
    }

    pub fn from_u32(value: u32) -> (r: Self)
        ensures
            r@ == value,
    {
        Row { value }
    }

    pub fn as_u32(self) -> (r: u32)
        ensures
            r == self@,
    {
        self.value
    }
}

/// The set of row values a compressed bitmap currently holds.
pub uninterp spec fn bitmap_rows(b: croaring::Bitmap) -> Set<u32>;

#[verifier::external_type_specification]
#[verifier::external_body]
pub struct ExBitmap(croaring::Bitmap);

/// Relies on croaring::Bitmap::new: a freshly created bitmap holds no values.
#[verifier::external_body]
fn bitmap_new() -> (r: croaring::Bitmap)
    ensures
        bitmap_rows(r) == Set::<u32>::empty(),
{
    croaring::Bitmap::new()
}

/// Relies on croaring::Bitmap::add: inserts one value; all others are kept.
#[verifier::external_body]
fn bitmap_add(b: &mut croaring::Bitmap, value: u32)
    ensures
        bitmap_rows(*final(b)) == bitmap_rows(*old(b)).insert(value),
{
    b.add(value)
}

/// Relies on croaring::Bitmap::remove: removes one value; all others are kept.
#[verifier::external_body]
fn bitmap_remove(b: &mut croaring::Bitmap, value: u32)
    ensures
        bitmap_rows(*final(b)) == bitmap_rows(*old(b)).remove(value),
{
    b.remove(value)
}

/// Relies on croaring::Bitmap::cardinality: the number of values held.
#[verifier::external_body]
fn bitmap_cardinality(b: &croaring::Bitmap) -> (r: u64)
    ensures
        r as nat == bitmap_rows(*b).len(),
{
    b.cardinality()
}

/// Relies on croaring::Bitmap::is_empty: true exactly when no value is held.
#[verifier::external_body]
fn bitmap_is_empty(b: &croaring::Bitmap) -> (r: bool)
    ensures
        r == bitmap_rows(*b).is_empty(),
{
    b.is_empty()
}

/// Relies on croaring::Bitmap::and: a new bitmap holding the intersection.
#[verifier::external_body]
fn bitmap_and(a: &croaring::Bitmap, b: &croaring::Bitmap) -> (r: croaring::Bitmap)
    ensures
        bitmap_rows(r) == bitmap_rows(*a).intersect(bitmap_rows(*b)),
{
    a.and(b)
}

/// Relies on croaring::Bitmap::or: a new bitmap holding the union.
#[verifier::external_body]
fn bitmap_or(a: &croaring::Bitmap, b: &croaring::Bitmap) -> (r: croaring::Bitmap)
    ensures
        bitmap_rows(r) == bitmap_rows(*a).union(bitmap_rows(*b)),
{
    a.or(b)
}

/// Relies on croaring::Bitmap::and_inplace: intersects in place.
#[verifier::external_body]
fn bitmap_and_inplace(a: &mut croaring::Bitmap, b: &croaring::Bitmap)
    ensures
        bitmap_rows(*final(a)) == bitmap_rows(*old(a)).intersect(bitmap_rows(*b)),
{
    a.and_inplace(b)
}

/// Relies on croaring::Bitmap::or_inplace: unions in place.
#[verifier::external_body]
fn bitmap_or_inplace(a: &mut croaring::Bitmap, b: &croaring::Bitmap)
    ensures
        bitmap_rows(*final(a)) == bitmap_rows(*old(a)).union(bitmap_rows(*b)),
{
    a.or_inplace(b)
}

/// Relies on croaring::Bitmap::to_vec: every held value exactly once, in
/// ascending order, so the vector's length is the bitmap's cardinality.
#[verifier::external_body]
fn bitmap_to_vec(b: &croaring::Bitmap) -> (r: Vec<u32>)
    ensures
        enumerates(r@, bitmap_rows(*b)),
        r@.len() == bitmap_rows(*b).len(),
{
    b.to_vec()
}

/// A sequence of row values in strictly ascending order.
pub open spec fn ascending(s: Seq<u32>) -> bool {
    forall|i: int, j: int| 0 <= i < j < s.len() ==> s[i] < s[j]
}

/// `s` lists exactly the members of `rows`, each once, in ascending order.
pub open spec fn enumerates(s: Seq<u32>, rows: Set<u32>) -> bool {
    ascending(s) && (forall|r: u32| rows.contains(r) <==> #[trigger] s.contains(r))
}

/// The full universe of row values below `n`: the set `{0, ..., n-1}`.
pub open spec fn full_rows(n: nat) -> Set<u32> {
    Set::new(|r: u32| (r as nat) < n)
}

/// A set of row identifiers over the universe of a table's rows, with the
/// usual boolean algebra. All operations are total; none can fail.
pub struct Selection {
    bitmap: croaring::Bitmap,
}

impl View for Selection {
    type V = Set<u32>;

    closed spec fn view(&self) -> Set<u32> {
        bitmap_rows(self.bitmap)
    }
}

impl Selection {
    /// Every selection the library hands out holds finitely many rows.
    pub open spec fn wf(&self) -> bool {
        self@.finite()
    }

    /// The selection with no rows.
    pub fn empty() -> (r: Self)
        ensures
            r@ == Set::<u32>::empty(),
            r.wf(),
    {
        Selection { bitmap: bitmap_new() }
    }

    /// The selection holding every row below `count`.
    pub fn filled(count: u32) -> (r: Self)
        ensures
            r@ == full_rows(count as nat),
            r.wf(),
    {
        let mut r = Selection::empty();
        let mut i: u32 = 0;
        while i < count
            invariant
                i <= count,
                r@ == full_rows(i as nat),
                r.wf(),
            decreases count - i,
        {
            r.add(Row::from_u32(i));
            proof {
                assert(r@ =~= full_rows((i + 1) as nat));
            }
            i = i + 1;
        }
        r
    }

    /// The selection holding exactly `row`.
    pub fn of_row(row: Row) -> (r: Self)
        ensures
            r@ == Set::<u32>::empty().insert(row@),
            r.wf(),
    {
        let mut r = Selection::empty();
        r.add(row);
        r
    }

    /// How many rows are selected.
    pub fn len(&self) -> (r: u64)
        ensures
            r as nat == self@.len(),
    {
        bitmap_cardinality(&self.bitmap)
    }

    /// Whether no row is selected.
    pub fn is_empty(&self) -> (r: bool)
        ensures
            r == self@.is_empty(),
    {
        bitmap_is_empty(&self.bitmap)
    }

    /// Adds `row` to the selection. Idempotent.
    pub fn add(&mut self, row: Row)
        requires
            old(self).wf(),
        ensures
            final(self)@ == old(self)@.insert(row@),
            final(self).wf(),
    {
        bitmap_add(&mut self.bitmap, row.as_u32())
    }

    /// Removes `row` from the selection. Idempotent.
    pub fn remove(&mut self, row: Row)
        requires
            old(self).wf(),
        ensures
            final(self)@ == old(self)@.remove(row@),
            final(self).wf(),
    {
        bitmap_remove(&mut self.bitmap, row.as_u32())
    }

    /// A new selection holding the rows present in both operands.
    pub fn intersect(&self, other: &Selection) -> (r: Selection)
        requires
            self.wf(),
        ensures
            r@ == self@.intersect(other@),
            r.wf(),
    {
        let r = Selection { bitmap: bitmap_and(&self.bitmap, &other.bitmap) };
        proof {
            lemma_len_subset(r@, self@);
        }
        r
    }

    /// A new selection holding the rows present in either operand.
    pub fn union(&self, other: &Selection) -> (r: Selection)
        requires
            self.wf(),
            other.wf(),
        ensures
            r@ == self@.union(other@),
            r.wf(),
    {
        Selection { bitmap: bitmap_or(&self.bitmap, &other.bitmap) }
    }

    /// Replaces this selection with its intersection with `other`.
    pub fn intersect_with(&mut self, other: &Selection)
        requires
            old(self).wf(),
        ensures
            final(self)@ == old(self)@.intersect(other@),
            final(self).wf(),
    {
        bitmap_and_inplace(&mut self.bitmap, &other.bitmap);
        proof {
            lemma_len_subset(self@, old(self)@);
        }
    }

    /// Replaces this selection with its union with `other`.
    pub fn union_with(&mut self, other: &Selection)
        requires
            old(self).wf(),
            other.wf(),
        ensures
            final(self)@ == old(self)@.union(other@),
            final(self).wf(),
    {
        bitmap_or_inplace(&mut self.bitmap, &other.bitmap);
    }

    /// The selected rows, each exactly once, in ascending order.
    pub fn rows(&self) -> (r: Vec<Row>)
        ensures
            enumerates(r@.map_values(|row: Row| row@), self@),
            r@.len() == self@.len(),
    {
        let values = bitmap_to_vec(&self.bitmap);
        let mut out: Vec<Row> = Vec::new();
        let mut i: usize = 0;
        while i < values.len()
            invariant
                i <= values.len(),
                out@.len() == i,
                forall|k: int| 0 <= k < i ==> out@[k]@ == values@[k],
            decreases values.len() - i,
        {
            out.push(Row::from_u32(values[i]));
            i = i + 1;
        }
        proof {
            assert(out@.map_values(|row: Row| row@) =~= values@);
        }
        out
    }
}

impl Default for Selection {
    fn default() -> (r: Self)
        ensures
            r@ == Set::<u32>::empty(),
            r.wf(),
    {
        Selection::empty()
    }
}

/// RowSet algebra: intersection of selections is commutative.
///
/// Selections are modelled by their views, the sets these operators act on;
/// `Selection::intersect` returns exactly this intersection.
pub proof fn lemma_intersect_commutative(a: Set<u32>, b: Set<u32>)
    ensures
        a.intersect(b) == b.intersect(a),
{
    assert(a.intersect(b) =~= b.intersect(a));
}

/// RowSet algebra: the empty selection is the identity of union.
pub proof fn lemma_union_empty_identity(a: Set<u32>)
    ensures
        a.union(Set::<u32>::empty()) == a,
{
    assert(a.union(Set::<u32>::empty()) =~= a);
}

/// RowSet algebra: a full selection is the identity of intersection for any
/// selection whose rows all lie below the fill bound.
pub proof fn lemma_intersect_full_identity(a: Set<u32>, n: nat)
    requires
        forall|r: u32| a.contains(r) ==> (r as nat) < n,
    ensures
        a.intersect(full_rows(n)) == a,
{
    assert(a.intersect(full_rows(n)) =~= a);
}

/// RowSet algebra: an intersection is no larger than either operand.
pub proof fn lemma_intersect_cardinality(a: Set<u32>, b: Set<u32>)
    requires
        a.finite(),
        b.finite(),
    ensures
        a.intersect(b).len() <= a.len(),
        a.intersect(b).len() <= b.len(),
{
    lemma_len_intersect(a, b);
    lemma_len_intersect(b, a);
    assert(b.intersect(a) =~= a.intersect(b));
}

/// A set of rows has at most one ascending enumeration, so the sequence a
/// contract quantifies over with `enumerates` is fully determined by the
/// selection it enumerates.
pub proof fn lemma_enumerates_unique(a: Seq<u32>, b: Seq<u32>, rows: Set<u32>)
    requires
        enumerates(a, rows),
        enumerates(b, rows),
    ensures
        a == b,
    decreases a.len(),
{
    if a.len() == 0 {
        if b.len() > 0 {
            assert(b.contains(b[0]));
            assert(rows.contains(b[0]));
            assert(a.contains(b[0]));
        }
        assert(a =~= b);
    } else {
        assert(a.contains(a[0]));
        assert(rows.contains(a[0]));
        assert(b.contains(a[0]));
        let i0 = choose|i: int| 0 <= i < b.len() && b[i] == a[0];
        assert(b.contains(b[0]));
        assert(a.contains(b[0]));
        let j0 = choose|j: int| 0 <= j < a.len() && a[j] == b[0];
        if i0 > 0 {
            assert(b[0] < b[i0]);
        }
        if j0 > 0 {
            assert(a[0] < a[j0]);
        }
        assert(a[0] == b[0]);
        let h = a[0];
        let ta = a.subrange(1, a.len() as int);
        let tb = b.subrange(1, b.len() as int);
        let rest = rows.remove(h);
        assert forall|r: u32| rest.contains(r) implies #[trigger] ta.contains(r) by {
            assert(rows.contains(r));
            assert(a.contains(r));
            let k = choose|k: int| 0 <= k < a.len() && a[k] == r;
            assert(k != 0);
            assert(ta[k - 1] == r);
        }
        assert forall|r: u32| #[trigger] ta.contains(r) implies rest.contains(r) by {
            let k = choose|k: int| 0 <= k < ta.len() && ta[k] == r;
            assert(a[k + 1] == r);
            assert(a.contains(r));
            assert(a[0] < a[k + 1]);
        }
        assert forall|r: u32| rest.contains(r) implies #[trigger] tb.contains(r) by {
            assert(rows.contains(r));
            assert(b.contains(r));
            let k = choose|k: int| 0 <= k < b.len() && b[k] == r;
            assert(k != 0);
            assert(tb[k - 1] == r);
        }
        assert forall|r: u32| #[trigger] tb.contains(r) implies rest.contains(r) by {
            let k = choose|k: int| 0 <= k < tb.len() && tb[k] == r;
            assert(b[k + 1] == r);
            assert(b.contains(r));
            assert(b[0] < b[k + 1]);
        }
        assert forall|i: int, j: int| 0 <= i < j < ta.len() implies ta[i] < ta[j] by {
            assert(ta[i] == a[i + 1]);
            assert(ta[j] == a[j + 1]);
        }
        assert forall|i: int, j: int| 0 <= i < j < tb.len() implies tb[i] < tb[j] by {
            assert(tb[i] == b[i + 1]);
            assert(tb[j] == b[j + 1]);
        }
        assert(enumerates(ta, rest));
        assert(enumerates(tb, rest));
        lemma_enumerates_unique(ta, tb, rest);
        assert forall|i: int| 0 <= i < a.len() implies a[i] == b[i] by {
            if i > 0 {
                assert(ta[i - 1] == a[i]);
                assert(tb[i - 1] == b[i]);
            }
        }
        assert(a =~= b);
    }
}

/// The full selection over `n` rows holds exactly `n` rows.
pub proof fn lemma_full_rows_count(n: nat)
    requires
        n <= 0x1_0000_0000,
    ensures
        full_rows(n).finite(),
        full_rows(n).len() == n,
    decreases n,
{
    if n == 0 {
        assert(full_rows(0) =~= Set::<u32>::empty());
    } else {
        lemma_full_rows_count((n - 1) as nat);
        let last = (n - 1) as u32;
        assert(full_rows(n) =~= full_rows((n - 1) as nat).insert(last));
        assert(!full_rows((n - 1) as nat).contains(last));
    }
}

} // verus!
