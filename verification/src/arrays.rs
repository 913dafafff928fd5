//! Containers backed by `ndarray`. Verus does not look inside them: what they
//! hold is named by a specification function, and every access goes through a
//! small function whose contract is taken on trust from `ndarray`'s source.
use crate::enums::Action;
use std::collections::HashMap;
use vstd::prelude::*;

verus! {

/// A one-dimensional `ndarray` array of index pairs.
#[verifier::external_body]
pub struct PairArray {
    inner: ndarray::Array1<(usize, usize)>,
}

/// The pairs that the array holds, in order.
pub uninterp spec fn pair_array_items(array: PairArray) -> Seq<(usize, usize)>;

/// Whether `count` items of at most `bytes` bytes each can be allocated in one
/// piece: no allocation exceeds `isize::MAX` bytes.
pub open spec fn fits(count: int, bytes: int) -> bool {
    0 <= count && count * bytes <= isize::MAX
}

/// Whether `count` pairs can be allocated in one piece; a pair takes at most
/// sixteen bytes.
pub open spec fn pairs_fit(count: int) -> bool {
    fits(count, 16)
}

/// Whether a table of `rows` rows and `columns` columns, with cells of at most
/// `bytes` bytes, can be allocated in one piece.
pub open spec fn grid_fits(rows: int, columns: int, bytes: int) -> bool {
    &&& 0 <= rows <= isize::MAX
    &&& 0 <= columns <= isize::MAX
    &&& fits(rows * columns, bytes)
}

impl View for PairArray {
    type V = Seq<(usize, usize)>;

    open spec fn view(&self) -> Seq<(usize, usize)> {
        pair_array_items(*self)
    }
}

impl PairArray {
    /// `Array1::from_elem`: an array of `count` copies of `item`. `ndarray`
    /// panics where the element count overflows `isize`, and the vector it
    /// fills where the byte count does; `pairs_fit` excludes both.
    #[verifier::external_body]
    pub(crate) fn filled(count: usize, item: (usize, usize)) -> (array: PairArray)
        requires
            pairs_fit(count as int),
        ensures
            pair_array_items(array) == Seq::new(count as nat, |i: int| item),
    {
        PairArray { inner: ndarray::Array1::from_elem(count, item) }
    }

    /// `Array1::from_vec`: the array takes over the vector's items in order.
    /// It panics only for zero-sized items, which a pair is not.
    #[verifier::external_body]
    fn wrap_vec(items: Vec<(usize, usize)>) -> (array: PairArray)
        ensures
            pair_array_items(array) == items@,
    {
        PairArray { inner: ndarray::Array1::from_vec(items) }
    }

    /// `ArrayBase::shape`: the length of the only axis.
    #[verifier::external_body]
    fn axis_len(&self) -> (count: usize)
        ensures
            count == pair_array_items(*self).len(),
    {
        self.inner.shape()[0]
    }

    /// Indexing by `usize`: the item at `index`; `ndarray` panics out of bounds.
    #[verifier::external_body]
    pub(crate) fn at(&self, index: usize) -> (pair: (usize, usize))
        requires
            index < pair_array_items(*self).len(),
        ensures
            pair == pair_array_items(*self)[index as int],
    {
        self.inner[index]
    }

    /// Assignment through an index: only the item at `index` changes;
    /// `ndarray` panics out of bounds.
    #[verifier::external_body]
    pub(crate) fn set(&mut self, index: usize, pair: (usize, usize))
        requires
            index < pair_array_items(*old(self)).len(),
        ensures
            pair_array_items(*final(self)) == pair_array_items(*old(self)).update(
                index as int,
                pair,
            ),
    {
        self.inner[index] = pair;
    }

    /// `ArrayBase::slice_move` with the slice `..count` and step -1: the first
    /// `count` items in reverse order. `ndarray` panics where `count` is past
    /// the end of the axis.
    #[verifier::external_body]
    pub(crate) fn reversed_prefix(self, count: usize) -> (array: PairArray)
        requires
            count <= pair_array_items(self).len(),
        ensures
            pair_array_items(array) == pair_array_items(self).subrange(0, count as int).reverse(),
    {
        let part = ndarray::SliceInfoElem::Slice { start: 0, end: Some(count as isize), step: -1 };
        let info = ndarray::SliceInfo::<_, ndarray::Ix1, ndarray::Ix1>::try_from([part]).unwrap();
        PairArray { inner: self.inner.slice_move(info) }
    }

    /// An array that holds the pairs of `items`, in order.
    pub fn from_vec(items: Vec<(usize, usize)>) -> (array: PairArray)
        ensures
            array@ == items@,
    {
        PairArray::wrap_vec(items)
    }

    /// The number of pairs.
    pub fn len(&self) -> (count: usize)
        ensures
            count == self@.len(),
    {
        self.axis_len()
    }

    /// The pair at `index`, or `None` past the end.
    pub fn get(&self, index: usize) -> (pair: Option<(usize, usize)>)
        ensures
            pair == if index < self@.len() {
                Some(self@[index as int])
            } else {
                None
            },
    {
        if index < self.axis_len() {
            Some(self.at(index))
        } else {
            None
        }
    }

    /// The pairs as a vector, in order.
    pub fn to_vec(&self) -> (items: Vec<(usize, usize)>)
        ensures
            items@ == self@,
    {
        let count = self.axis_len();
        let mut items: Vec<(usize, usize)> = Vec::new();
        let mut index: usize = 0;
        while index < count
            invariant
                count == self@.len(),
                index <= count,
                items@ == self@.subrange(0, index as int),
            decreases count - index,
        {
            items.push(self.at(index));
            index += 1;
        }
        items
    }
}

/// A two-dimensional `ndarray` array of costs.
#[verifier::external_body]
pub struct CostGrid {
    inner: ndarray::Array2<u64>,
}

/// The costs that the array holds, row by row.
pub uninterp spec fn cost_grid_rows(grid: CostGrid) -> Seq<Seq<u64>>;

impl CostGrid {
    /// `Array2::from_elem`: `rows` rows of `columns` copies of `cost`.
    /// `ndarray` panics where the element count overflows `isize`, and the
    /// vector it fills where the byte count does; `grid_fits` excludes both.
    #[verifier::external_body]
    pub(crate) fn filled(rows: usize, columns: usize, cost: u64) -> (grid: CostGrid)
        requires
            grid_fits(rows as int, columns as int, 8),
        ensures
            cost_grid_rows(grid) == Seq::new(
                rows as nat,
                |row: int| Seq::new(columns as nat, |column: int| cost),
            ),
    {
        CostGrid { inner: ndarray::Array2::from_elem((rows, columns), cost) }
    }

    /// Indexing by a pair of `usize`: the item in row `row` and column
    /// `column`; `ndarray` panics out of bounds.
    #[verifier::external_body]
    pub(crate) fn get(&self, row: usize, column: usize) -> (cost: u64)
        requires
            row < cost_grid_rows(*self).len(),
            column < cost_grid_rows(*self)[row as int].len(),
        ensures
            cost == cost_grid_rows(*self)[row as int][column as int],
    {
        self.inner[[row, column]]
    }

    /// Assignment through a pair of indices: only the item in row `row` and
    /// column `column` changes; `ndarray` panics out of bounds.
    #[verifier::external_body]
    pub(crate) fn set(&mut self, row: usize, column: usize, cost: u64)
        requires
            row < cost_grid_rows(*old(self)).len(),
            column < cost_grid_rows(*old(self))[row as int].len(),
        ensures
            cost_grid_rows(*final(self)) == cost_grid_rows(*old(self)).update(
                row as int,
                cost_grid_rows(*old(self))[row as int].update(column as int, cost),
            ),
    {
        self.inner[[row, column]] = cost;
    }
}

/// A two-dimensional `ndarray` array of actions.
#[verifier::external_body]
pub struct ActionGrid {
    inner: ndarray::Array2<Action>,
}

/// The actions that the array holds, row by row.
pub uninterp spec fn action_grid_rows(grid: ActionGrid) -> Seq<Seq<Action>>;

impl ActionGrid {
    /// `Array2::from_elem`: `rows` rows of `columns` copies of `action`.
    /// `ndarray` panics where the element count overflows `isize`, and the
    /// vector it fills where the byte count does; `grid_fits` excludes both.
    #[verifier::external_body]
    pub(crate) fn filled(rows: usize, columns: usize, action: Action) -> (grid: ActionGrid)
        requires
            grid_fits(rows as int, columns as int, 1),
        ensures
            action_grid_rows(grid) == Seq::new(
                rows as nat,
                |row: int| Seq::new(columns as nat, |column: int| action),
            ),
    {
        ActionGrid { inner: ndarray::Array2::from_elem((rows, columns), action) }
    }

    /// Indexing by a pair of `usize`: the item in row `row` and column
    /// `column`; `ndarray` panics out of bounds.
    #[verifier::external_body]
    pub(crate) fn get(&self, row: usize, column: usize) -> (action: Action)
        requires
            row < action_grid_rows(*self).len(),
            column < action_grid_rows(*self)[row as int].len(),
        ensures
            action == action_grid_rows(*self)[row as int][column as int],
    {
        self.inner[[row, column]]
    }

    /// Assignment through a pair of indices: only the item in row `row` and
    /// column `column` changes; `ndarray` panics out of bounds.
    #[verifier::external_body]
    pub(crate) fn set(&mut self, row: usize, column: usize, action: Action)
        requires
            row < action_grid_rows(*old(self)).len(),
            column < action_grid_rows(*old(self))[row as int].len(),
        ensures
            action_grid_rows(*final(self)) == action_grid_rows(*old(self)).update(
                row as int,
                action_grid_rows(*old(self))[row as int].update(column as int, action),
            ),
    {
        self.inner[[row, column]] = action;
    }
}

/// A one-dimensional `ndarray` array of hash maps from a column to its cost.
#[verifier::external_body]
pub struct CostRows {
    inner: ndarray::Array1<HashMap<usize, u64>>,
}

/// What the maps of the array hold, map by map.
pub uninterp spec fn cost_rows_maps(rows: CostRows) -> Seq<Map<usize, u64>>;

impl CostRows {
    /// `Array1::default`: `count` maps, each the default of its type, which
    /// for a hash map is the empty map. `ndarray` panics where the element
    /// count overflows `isize`, and the vector it fills where the byte count
    /// does; a hash map takes at most 64 bytes.
    #[verifier::external_body]
    pub(crate) fn empty(count: usize) -> (rows: CostRows)
        requires
            fits(count as int, 64),
        ensures
            cost_rows_maps(rows) == Seq::new(count as nat, |row: int| Map::<usize, u64>::empty()),
    {
        CostRows { inner: ndarray::Array1::default(count) }
    }

    /// Indexing by `usize`: the map at `index`; `ndarray` panics out of bounds.
    #[verifier::external_body]
    pub(crate) fn row(&self, index: usize) -> (map: &HashMap<usize, u64>)
        requires
            index < cost_rows_maps(*self).len(),
        ensures
            map@ == cost_rows_maps(*self)[index as int],
    {
        &self.inner[index]
    }

    /// Mutable indexing by `usize`: the map at `index`, to be changed in
    /// place; the other maps stay as they are. `ndarray` panics out of bounds.
    #[verifier::external_body]
    pub(crate) fn row_mut(&mut self, index: usize) -> (map: &mut HashMap<usize, u64>)
        requires
            index < cost_rows_maps(*old(self)).len(),
        ensures
            map@ == cost_rows_maps(*old(self))[index as int],
            cost_rows_maps(*final(self)) == cost_rows_maps(*old(self)).update(index as int, final(map)@),
    {
        &mut self.inner[index]
    }
}

/// A one-dimensional `ndarray` array of hash maps from a column to its action.
#[verifier::external_body]
pub struct ActionRows {
    inner: ndarray::Array1<HashMap<usize, Action>>,
}

/// What the maps of the array hold, map by map.
pub uninterp spec fn action_rows_maps(rows: ActionRows) -> Seq<Map<usize, Action>>;

impl ActionRows {
    /// `Array1::default`: `count` maps, each the default of its type, which
    /// for a hash map is the empty map. `ndarray` panics where the element
    /// count overflows `isize`, and the vector it fills where the byte count
    /// does; a hash map takes at most 64 bytes.
    #[verifier::external_body]
    pub(crate) fn empty(count: usize) -> (rows: ActionRows)
        requires
            fits(count as int, 64),
        ensures
            action_rows_maps(rows) == Seq::new(count as nat, |row: int| Map::<usize, Action>::empty()),
    {
        ActionRows { inner: ndarray::Array1::default(count) }
    }

    /// Indexing by `usize`: the map at `index`; `ndarray` panics out of bounds.
    #[verifier::external_body]
    pub(crate) fn row(&self, index: usize) -> (map: &HashMap<usize, Action>)
        requires
            index < action_rows_maps(*self).len(),
        ensures
            map@ == action_rows_maps(*self)[index as int],
    {
        &self.inner[index]
    }

    /// Mutable indexing by `usize`: the map at `index`, to be changed in
    /// place; the other maps stay as they are. `ndarray` panics out of bounds.
    #[verifier::external_body]
    pub(crate) fn row_mut(&mut self, index: usize) -> (map: &mut HashMap<usize, Action>)
        requires
            index < action_rows_maps(*old(self)).len(),
        ensures
            map@ == action_rows_maps(*old(self))[index as int],
            action_rows_maps(*final(self)) == action_rows_maps(*old(self)).update(index as int, final(map)@),
    {
        &mut self.inner[index]
    }
}

} // verus!
