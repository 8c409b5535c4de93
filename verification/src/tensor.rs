//! Tensor maps: blocks collected under keys.

use vstd::prelude::*;
use std::sync::Arc;
use crate::block::{BlockView, TensorBlock, write_result};
use crate::data::{Array, ArrayRef, ArrayRefMut, stepped};
use crate::errors::Error;
use crate::labels::{LabelValue, Labels, LabelsView, viewed};

verus! {

/// What a tensor map is, apart from how it is stored: its keys, one block
/// for each key entry, and the names of the key dimensions that tie blocks
/// together.
pub ghost struct TensorMapView<E> {
    pub keys: LabelsView,
    pub blocks: Seq<BlockView<E>>,
    pub shared: Seq<Seq<char>>,
}

/// The key entries at `i` and `j` have the same value in every dimension
/// named in `shared`. A name that is no dimension of the keys is ignored: it
/// puts no condition on the two entries. So with no name, or with only such
/// names, every two entries are tied.
pub open spec fn tied(keys: LabelsView, shared: Seq<Seq<char>>, i: int, j: int) -> bool {
    forall|d: int|
        0 <= d < shared.len() ==> keys.value(i, #[trigger] shared[d]) == keys.value(j, shared[d])
}

/// If the keys tie the blocks at `i` and `j`, the two have the same
/// properties.
pub open spec fn pair_ok<E>(
    keys: LabelsView,
    blocks: Seq<BlockView<E>>,
    shared: Seq<Seq<char>>,
    i: int,
    j: int,
) -> bool {
    tied(keys, shared, i, j) ==> blocks[i].properties == blocks[j].properties
}

/// The block at `j` has the properties of every earlier block that the keys
/// tie it to.
pub open spec fn block_ok<E>(
    keys: LabelsView,
    blocks: Seq<BlockView<E>>,
    shared: Seq<Seq<char>>,
    j: int,
) -> bool {
    forall|i: int| 0 <= i < j ==> pair_ok(keys, blocks, shared, i, j)
}

/// Any two blocks that the keys tie together have the same properties.
pub open spec fn consistent<E>(
    keys: LabelsView,
    blocks: Seq<BlockView<E>>,
    shared: Seq<Seq<char>>,
) -> bool {
    forall|j: int| 0 <= j < blocks.len() ==> block_ok(keys, blocks, shared, j)
}

/// The first block that differs in its properties from an earlier block
/// that the keys tie it to.
pub open spec fn first_bad_block<E>(
    keys: LabelsView,
    blocks: Seq<BlockView<E>>,
    shared: Seq<Seq<char>>,
) -> int {
    choose|j: int|
        0 <= j < blocks.len() && !block_ok(keys, blocks, shared, j) && forall|k: int|
            0 <= k < j ==> block_ok(keys, blocks, shared, k)
}

/// The first block before `j` that the keys tie to `j` and that differs
/// from it in its properties.
pub open spec fn first_bad_partner<E>(
    keys: LabelsView,
    blocks: Seq<BlockView<E>>,
    shared: Seq<Seq<char>>,
    j: int,
) -> int {
    choose|i: int|
        0 <= i < j && !pair_ok(keys, blocks, shared, i, j) && forall|k: int|
            0 <= k < i ==> pair_ok(keys, blocks, shared, k, j)
}

/// The key entry at `position` meets every constraint of the selection: in
/// the dimension that the constraint names it has the value that the
/// constraint gives. A constraint on a name that is no dimension of the keys
/// is met by no entry.
pub open spec fn selects(
    keys: LabelsView,
    selection: Seq<(Seq<char>, LabelValue)>,
    position: int,
) -> bool {
    forall|c: int|
        0 <= c < selection.len() ==> keys.value(position, (#[trigger] selection[c]).0) == Some(
            selection[c].1,
        )
}

/// The constraints of a selection as values.
pub open spec fn selection_view(selection: Seq<(String, LabelValue)>) -> Seq<
    (Seq<char>, LabelValue),
> {
    Seq::new(selection.len(), |c: int| (selection[c].0@, selection[c].1))
}

/// The views of a list of blocks.
pub open spec fn block_views<A: Array>(blocks: Seq<TensorBlock<A>>) -> Seq<BlockView<A::Element>> {
    Seq::new(blocks.len(), |i: int| blocks[i]@)
}

impl<E> TensorMapView<E> {
    /// What building a tensor map from keys, blocks and the names of the
    /// dimensions that tie blocks together gives.
    ///
    /// Fails if there is not one block for each key entry; else on the first
    /// block that differs in its properties from an earlier block that the
    /// keys tie it to, naming the first such earlier block.
    pub open spec fn new_result(
        keys: LabelsView,
        blocks: Seq<BlockView<E>>,
        shared: Seq<Seq<char>>,
    ) -> Result<TensorMapView<E>, Error> {
        if keys.count() != blocks.len() {
            Err(
                Error::KeyCountMismatch {
                    keys: keys.count() as usize,
                    blocks: blocks.len() as usize,
                },
            )
        } else if !consistent(keys, blocks, shared) {
            let second = first_bad_block(keys, blocks, shared);
            Err(
                Error::PropertiesInconsistent {
                    first: first_bad_partner(keys, blocks, shared, second) as usize,
                    second: second as usize,
                },
            )
        } else {
            Ok(TensorMapView { keys, blocks, shared })
        }
    }

    /// The invariant of a tensor map: the keys are valid, there is one valid
    /// block for each key entry, and any two blocks that the keys tie
    /// together have the same properties.
    pub open spec fn valid(self) -> bool {
        &&& self.keys.valid()
        &&& self.keys.count() == self.blocks.len()
        &&& forall|i: int| 0 <= i < self.blocks.len() ==> (#[trigger] self.blocks[i]).valid()
        &&& consistent(self.keys, self.blocks, self.shared)
    }

    /// The map with other elements in the array of the block at `position`.
    pub open spec fn with_contents(self, position: int, contents: Seq<E>) -> TensorMapView<E> {
        TensorMapView {
            keys: self.keys,
            blocks: self.blocks.update(position, self.blocks[position].with_contents(contents)),
            shared: self.shared,
        }
    }
}

/// The block at `j` is the first that differs from an earlier block tied to
/// it, and the block at `i` is the first such earlier block.
proof fn lemma_first_bad<E>(
    keys: LabelsView,
    blocks: Seq<BlockView<E>>,
    shared: Seq<Seq<char>>,
    i: int,
    j: int,
)
    requires
        0 <= i < j < blocks.len(),
        !pair_ok(keys, blocks, shared, i, j),
        forall|k: int| 0 <= k < i ==> pair_ok(keys, blocks, shared, k, j),
        forall|k: int| 0 <= k < j ==> block_ok(keys, blocks, shared, k),
    ensures
        !consistent(keys, blocks, shared),
        first_bad_block(keys, blocks, shared) == j,
        first_bad_partner(keys, blocks, shared, j) == i,
{
    assert(!block_ok(keys, blocks, shared, j));
    let c = first_bad_block(keys, blocks, shared);
    assert(block_ok(keys, blocks, shared, c) || c >= j);
    let p = first_bad_partner(keys, blocks, shared, j);
    assert(pair_ok(keys, blocks, shared, p, j) || p >= i);
}

/// Finds the column of each name among the dimensions of the keys.
fn resolve(keys: &Labels, names: &Vec<String>) -> (columns: Vec<Option<usize>>)
    requires
        keys.wf(),
    ensures
        columns@.len() == names@.len(),
        forall|d: int|
            0 <= d < names@.len() ==> match #[trigger] columns@[d] {
                Some(column) => keys@.dimension(names@[d]@) == Some(column as int),
                None => keys@.dimension(names@[d]@) is None,
            },
{
    let mut columns: Vec<Option<usize>> = Vec::new();
    let mut d: usize = 0;
    while d < names.len()
        invariant
            keys.wf(),
            d <= names@.len(),
            columns@.len() == d,
            forall|k: int|
                0 <= k < d ==> match #[trigger] columns@[k] {
                    Some(column) => keys@.dimension(names@[k]@) == Some(column as int),
                    None => keys@.dimension(names@[k]@) is None,
                },
        decreases names@.len() - d,
    {
        let column = keys.dimension(&names[d]);
        columns.push(column);
        d += 1;
    }
    columns
}

/// Whether the key entries `a` and `b` have the same value in every column
/// that was found.
fn entries_tied(a: &[LabelValue], b: &[LabelValue], columns: &Vec<Option<usize>>) -> (r: bool)
    requires
        a@.len() == b@.len(),
        forall|d: int|
            0 <= d < columns@.len() ==> (#[trigger] columns@[d] matches Some(column) ==> column
                < a@.len()),
    ensures
        r == forall|d: int|
            0 <= d < columns@.len() ==> (#[trigger] columns@[d] matches Some(column) ==> a@[column as int]
                == b@[column as int]),
{
    let mut d: usize = 0;
    while d < columns.len()
        invariant
            d <= columns@.len(),
            a@.len() == b@.len(),
            forall|k: int|
                0 <= k < columns@.len() ==> (#[trigger] columns@[k] matches Some(column)
                    ==> column < a@.len()),
            forall|k: int|
                0 <= k < d ==> (#[trigger] columns@[k] matches Some(column) ==> a@[column as int]
                    == b@[column as int]),
        decreases columns@.len() - d,
    {
        match columns[d] {
            Some(column) => {
                if a[column] != b[column] {
                    return false;
                }
            },
            None => {},
        }
        d += 1;
    }
    true
}

/// What the columns found for the names say of two key entries is what the
/// names say of them.
proof fn lemma_tied(
    keys: LabelsView,
    names: Seq<Seq<char>>,
    columns: Seq<Option<usize>>,
    i: int,
    j: int,
)
    requires
        keys.valid(),
        0 <= i < keys.count(),
        0 <= j < keys.count(),
        columns.len() == names.len(),
        forall|d: int|
            0 <= d < names.len() ==> match #[trigger] columns[d] {
                Some(column) => keys.dimension(names[d]) == Some(column as int),
                None => keys.dimension(names[d]) is None,
            },
    ensures
        tied(keys, names, i, j) <==> forall|d: int|
            0 <= d < columns.len() ==> (#[trigger] columns[d] matches Some(column)
                ==> keys.entries[i][column as int] == keys.entries[j][column as int]),
{
    if tied(keys, names, i, j) {
        assert forall|d: int| 0 <= d < columns.len() implies (#[trigger] columns[d] matches Some(
            column,
        ) ==> keys.entries[i][column as int] == keys.entries[j][column as int]) by {
            assert(keys.value(i, names[d]) == keys.value(j, names[d]));
        }
    }
    if forall|d: int|
        0 <= d < columns.len() ==> (#[trigger] columns[d] matches Some(column)
            ==> keys.entries[i][column as int] == keys.entries[j][column as int]) {
        assert forall|d: int| 0 <= d < names.len() implies keys.value(i, #[trigger] names[d])
            == keys.value(j, names[d]) by {
            assert(columns[d] is Some || columns[d] is None);
        }
    }
}

/// A column that was found is a column of every key entry.
proof fn lemma_columns_fit(
    keys: LabelsView,
    names: Seq<Seq<char>>,
    columns: Seq<Option<usize>>,
    i: int,
)
    requires
        keys.valid(),
        0 <= i < keys.count(),
        columns.len() == names.len(),
        forall|d: int|
            0 <= d < names.len() ==> match #[trigger] columns[d] {
                Some(column) => keys.dimension(names[d]) == Some(column as int),
                None => keys.dimension(names[d]) is None,
            },
    ensures
        keys.entries[i].len() == keys.size(),
        forall|d: int|
            0 <= d < columns.len() ==> (#[trigger] columns[d] matches Some(column) ==> column
                < keys.size()),
{
    assert(LabelsView::entry_ok(keys.size(), keys.entries, i));
}

/// Blocks collected under keys: one block for each key entry, in the order
/// of the keys.
///
/// The names of some key dimensions are set when the map is built. Two
/// blocks whose key entries have the same values in those dimensions are
/// tied together and have the same properties.
#[derive(Debug)]
pub struct TensorMap<A: Array> {
    keys: Arc<Labels>,
    blocks: Vec<TensorBlock<A>>,
    shared: Vec<String>,
}

impl<A: Array> View for TensorMap<A> {
    type V = TensorMapView<A::Element>;

    closed spec fn view(&self) -> TensorMapView<A::Element> {
        TensorMapView {
            keys: self.keys@,
            blocks: block_views(self.blocks@),
            shared: self.shared.deep_view(),
        }
    }
}

impl<A: Array> TensorMap<A> {
    /// The invariant of the stored map: the keys and the blocks are well
    /// formed, and the map is valid as a value.
    pub closed spec fn wf(&self) -> bool {
        &&& self.keys.wf()
        &&& forall|i: int| 0 <= i < self.blocks@.len() ==> (#[trigger] self.blocks@[i]).wf()
        &&& self@.valid()
    }

    /// The block at `position`, as it is stored.
    pub closed spec fn block_at(&self, position: int) -> TensorBlock<A> {
        self.blocks@[position]
    }

    /// A well-formed map is valid as a value, and so are its blocks as they
    /// are stored.
    pub proof fn lemma_valid(&self)
        requires
            self.wf(),
        ensures
            self@.valid(),
            forall|i: int|
                0 <= i < self@.blocks.len() ==> (#[trigger] self.block_at(i)).wf() && self.block_at(
                    i,
                )@ == self@.blocks[i],
    {
    }

    /// Builds a tensor map in which every two blocks are tied together, so
    /// that all blocks have the same properties. The blocks are stored as
    /// they are given.
    ///
    /// Fails if there is not one block for each key entry, else on the first
    /// block whose properties differ from those of an earlier block.
    pub fn new(keys: Arc<Labels>, blocks: Vec<TensorBlock<A>>) -> (r: Result<TensorMap<A>, Error>)
        requires
            keys.wf(),
            forall|i: int| 0 <= i < blocks@.len() ==> (#[trigger] blocks@[i]).wf(),
        ensures
            viewed(r) == TensorMapView::new_result(
                keys@,
                block_views(blocks@),
                Seq::<Seq<char>>::empty(),
            ),
            r matches Ok(map) ==> {
                &&& map.wf()
                &&& forall|i: int| 0 <= i < blocks@.len() ==> map.block_at(i) == blocks@[i]
            },
    {
        let shared: Vec<String> = Vec::new();
        assert(shared.deep_view() =~= Seq::<Seq<char>>::empty());
        TensorMap::with_shared_dimensions(keys, blocks, shared)
    }

    /// Builds a tensor map in which two blocks are tied together if their
    /// key entries have the same values in the dimensions named in
    /// `shared`. A name in `shared` that is no dimension of the keys is
    /// ignored. The blocks are stored as they are given.
    ///
    /// Fails if there is not one block for each key entry, else on the first
    /// block whose properties differ from those of an earlier block that it
    /// is tied to.
    pub fn with_shared_dimensions(
        keys: Arc<Labels>,
        blocks: Vec<TensorBlock<A>>,
        shared: Vec<String>,
    ) -> (r: Result<TensorMap<A>, Error>)
        requires
            keys.wf(),
            forall|i: int| 0 <= i < blocks@.len() ==> (#[trigger] blocks@[i]).wf(),
        ensures
            viewed(r) == TensorMapView::new_result(
                keys@,
                block_views(blocks@),
                shared.deep_view(),
            ),
            r matches Ok(map) ==> {
                &&& map.wf()
                &&& forall|i: int| 0 <= i < blocks@.len() ==> map.block_at(i) == blocks@[i]
            },
    {
        let count = keys.count();
        let n = blocks.len();
        if count != n {
            return Err(Error::KeyCountMismatch { keys: count, blocks: n });
        }
        match first_inconsistency(&keys, &blocks, &shared) {
            Some((first, second)) => {
                return Err(Error::PropertiesInconsistent { first, second });
            },
            None => {},
        }
        proof {
            keys.lemma_valid();
            assert forall|i: int| 0 <= i < blocks@.len() implies (#[trigger] block_views(
                blocks@,
            )[i]).valid() by {
                blocks@[i].lemma_valid();
            }
        }
        Ok(TensorMap { keys, blocks, shared })
    }

    /// Takes the map apart: its keys, its blocks in the order of the keys,
    /// and the names of the key dimensions that tie blocks together.
    pub fn into_parts(self) -> (parts: (Arc<Labels>, Vec<TensorBlock<A>>, Vec<String>))
        requires
            self.wf(),
        ensures
            parts.0@ == self@.keys,
            parts.0.wf(),
            block_views(parts.1@) == self@.blocks,
            parts.1@.len() == self@.blocks.len(),
            forall|i: int|
                0 <= i < parts.1@.len() ==> (#[trigger] parts.1@[i]) == self.block_at(i)
                    && parts.1@[i].wf(),
            parts.2.deep_view() == self@.shared,
    {
        (self.keys, self.blocks, self.shared)
    }

    /// The keys.
    pub fn keys(&self) -> (keys: &Arc<Labels>)
        requires
            self.wf(),
        ensures
            keys@ == self@.keys,
            keys.wf(),
    {
        &self.keys
    }

    /// The names of the key dimensions that tie blocks together.
    pub fn shared_dimensions(&self) -> (shared: &Vec<String>)
        ensures
            shared.deep_view() == self@.shared,
    {
        &self.shared
    }

    /// The number of blocks.
    pub fn len(&self) -> (len: usize)
        ensures
            len == self@.blocks.len(),
    {
        self.blocks.len()
    }

    /// The block at `position` in the order of the keys.
    pub fn block_by_id(&self, position: usize) -> (r: Result<&TensorBlock<A>, Error>)
        requires
            self.wf(),
        ensures
            match r {
                Ok(block) => {
                    &&& position < self@.blocks.len()
                    &&& block@ == self@.blocks[position as int]
                    &&& *block == self.block_at(position as int)
                    &&& block.wf()
                },
                Err(e) => {
                    &&& position >= self@.blocks.len()
                    &&& e == (Error::IndexOutOfRange {
                        index: position,
                        len: self@.blocks.len() as usize,
                    })
                },
            },
    {
        if position < self.blocks.len() {
            Ok(&self.blocks[position])
        } else {
            Err(Error::IndexOutOfRange { index: position, len: self.blocks.len() })
        }
    }

    /// The positions of the blocks whose key entries meet every constraint
    /// of the selection, in the order of the keys.
    ///
    /// A constraint names a key dimension and gives the value that an entry
    /// must have there. Dimensions without a constraint are free. No entry
    /// meets a constraint on a name that is no dimension of the keys.
    pub fn blocks_matching(&self, selection: &Vec<(String, LabelValue)>) -> (positions: Vec<usize>)
        requires
            self.wf(),
        ensures
            forall|a: int, b: int|
                0 <= a < b < positions@.len() ==> positions@[a] < positions@[b],
            forall|a: int|
                0 <= a < positions@.len() ==> (#[trigger] positions@[a]) < self@.blocks.len()
                    && selects(self@.keys, selection_view(selection@), positions@[a] as int),
            forall|p: int|
                0 <= p < self@.blocks.len() && selects(self@.keys, selection_view(selection@), p)
                    ==> exists|a: int| 0 <= a < positions@.len() && positions@[a] == p,
    {
        let ghost wanted = selection_view(selection@);
        let keys: &Labels = &self.keys;
        let columns = resolve_selection(keys, selection);
        proof {
            keys.lemma_valid();
        }
        let mut positions: Vec<usize> = Vec::new();
        let n = keys.count();
        let mut p: usize = 0;
        while p < n
            invariant
                keys.wf(),
                keys@.valid(),
                keys@ == self@.keys,
                n == keys@.count() == self@.blocks.len(),
                p <= n,
                wanted == selection_view(selection@),
                columns@.len() == wanted.len(),
                forall|c: int|
                    0 <= c < wanted.len() ==> match #[trigger] columns@[c] {
                        Some(column) => keys@.dimension(wanted[c].0) == Some(column as int),
                        None => keys@.dimension(wanted[c].0) is None,
                    },
                forall|a: int, b: int|
                    0 <= a < b < positions@.len() ==> positions@[a] < positions@[b],
                forall|a: int|
                    0 <= a < positions@.len() ==> (#[trigger] positions@[a]) < p && selects(
                        keys@,
                        wanted,
                        positions@[a] as int,
                    ),
                forall|q: int|
                    0 <= q < p && selects(keys@, wanted, q) ==> exists|a: int|
                        0 <= a < positions@.len() && positions@[a] == q,
            decreases n - p,
        {
            match keys.entry(p) {
                Ok(entry) => {
                    proof {
                        lemma_selects(keys@, wanted, columns@, p as int);
                    }
                    if entry_selected(entry, selection, &columns) {
                        let ghost before = positions@;
                        positions.push(p);
                        proof {
                            assert forall|q: int|
                                0 <= q < p + 1 && selects(keys@, wanted, q) implies exists|a: int|
                                0 <= a < positions@.len() && positions@[a] == q by {
                                if q < p {
                                    let a = choose|a: int|
                                        0 <= a < before.len() && before[a] == q;
                                    assert(positions@[a] == q);
                                } else {
                                    assert(positions@[before.len() as int] == q);
                                }
                            }
                        }
                    }
                },
                Err(_) => {},
            }
            p += 1;
        }
        positions
    }

    /// A cursor over the key entries and their blocks, in the order of the
    /// keys, that starts at the first one.
    pub fn iter(&self) -> (iter: TensorMapIter<'_, A>)
        requires
            self.wf(),
        ensures
            iter.wf(),
            iter.map() == self@,
            iter.position() == 0,
            forall|i: int| 0 <= i < self@.blocks.len() ==> iter.block_at(i) == self.block_at(i),
    {
        TensorMapIter { map: self, position: 0 }
    }

    /// Hands out a shared view on the values of the block at `position`, as
    /// the block does. Fails with `IndexOutOfRange` if there is no such
    /// block.
    pub fn block_data(&mut self, position: usize) -> (r: Result<ArrayRef, Error>)
        requires
            old(self).wf(),
        ensures
            final(self).wf(),
            final(self)@ == old(self)@,
            final(self).others_kept(*old(self), position as int),
            if position < old(self)@.blocks.len() {
                stepped(
                    old(self).block_at(position as int).access(),
                    final(self).block_at(position as int).access(),
                    r,
                    old(self).block_at(position as int).access().share(),
                ) && final(self).block_at(position as int).kept_but_access(
                    old(self).block_at(position as int),
                )
            } else {
                &&& r == Err::<ArrayRef, Error>(old(self).out_of_range(position))
                &&& final(self).block_at(position as int) == old(self).block_at(position as int)
            },
    {
        if position >= self.blocks.len() {
            return Err(Error::IndexOutOfRange { index: position, len: self.blocks.len() });
        }
        let r = self.blocks[position].data();
        proof {
            assert(block_views(self.blocks@) =~= block_views(old(self).blocks@));
        }
        r
    }

    /// Hands out the exclusive view on the values of the block at
    /// `position`, as the block does. Fails with `IndexOutOfRange` if there
    /// is no such block.
    pub fn block_data_mut(&mut self, position: usize) -> (r: Result<ArrayRefMut, Error>)
        requires
            old(self).wf(),
        ensures
            final(self).wf(),
            final(self)@ == old(self)@,
            final(self).others_kept(*old(self), position as int),
            if position < old(self)@.blocks.len() {
                stepped(
                    old(self).block_at(position as int).access(),
                    final(self).block_at(position as int).access(),
                    r,
                    old(self).block_at(position as int).access().lock(),
                ) && final(self).block_at(position as int).kept_but_access(
                    old(self).block_at(position as int),
                )
            } else {
                &&& r == Err::<ArrayRefMut, Error>(old(self).out_of_range(position))
                &&& final(self).block_at(position as int) == old(self).block_at(position as int)
            },
    {
        if position >= self.blocks.len() {
            return Err(Error::IndexOutOfRange { index: position, len: self.blocks.len() });
        }
        let r = self.blocks[position].data_mut();
        proof {
            assert(block_views(self.blocks@) =~= block_views(old(self).blocks@));
        }
        r
    }

    /// Takes back a shared view on the values of the block at `position`,
    /// as the block does. Fails with `IndexOutOfRange` if there is no such
    /// block.
    pub fn block_release(&mut self, position: usize, view: ArrayRef) -> (r: Result<(), Error>)
        requires
            old(self).wf(),
        ensures
            final(self).wf(),
            final(self)@ == old(self)@,
            final(self).others_kept(*old(self), position as int),
            if position < old(self)@.blocks.len() {
                stepped(
                    old(self).block_at(position as int).access(),
                    final(self).block_at(position as int).access(),
                    r,
                    old(self).block_at(position as int).access().unshare(),
                ) && final(self).block_at(position as int).kept_but_access(
                    old(self).block_at(position as int),
                )
            } else {
                &&& r == Err::<(), Error>(old(self).out_of_range(position))
                &&& final(self).block_at(position as int) == old(self).block_at(position as int)
            },
    {
        if position >= self.blocks.len() {
            return Err(Error::IndexOutOfRange { index: position, len: self.blocks.len() });
        }
        let r = self.blocks[position].release(view);
        proof {
            assert(block_views(self.blocks@) =~= block_views(old(self).blocks@));
        }
        r
    }

    /// Takes back the exclusive view on the values of the block at
    /// `position`, as the block does. Fails with `IndexOutOfRange` if there
    /// is no such block.
    pub fn block_release_mut(&mut self, position: usize, view: ArrayRefMut) -> (r: Result<
        (),
        Error,
    >)
        requires
            old(self).wf(),
        ensures
            final(self).wf(),
            final(self)@ == old(self)@,
            final(self).others_kept(*old(self), position as int),
            if position < old(self)@.blocks.len() {
                stepped(
                    old(self).block_at(position as int).access(),
                    final(self).block_at(position as int).access(),
                    r,
                    old(self).block_at(position as int).access().unlock(),
                ) && final(self).block_at(position as int).kept_but_access(
                    old(self).block_at(position as int),
                )
            } else {
                &&& r == Err::<(), Error>(old(self).out_of_range(position))
                &&& final(self).block_at(position as int) == old(self).block_at(position as int)
            },
    {
        if position >= self.blocks.len() {
            return Err(Error::IndexOutOfRange { index: position, len: self.blocks.len() });
        }
        let r = self.blocks[position].release_mut(view);
        proof {
            assert(block_views(self.blocks@) =~= block_views(old(self).blocks@));
        }
        r
    }

    /// Stores `value` at `offset` in the block at `position` through its
    /// exclusive view, as the block does. Fails with `IndexOutOfRange` if
    /// there is no such block. A failure leaves the map as it was.
    pub fn block_write(
        &mut self,
        position: usize,
        view: &ArrayRefMut,
        offset: usize,
        value: A::Element,
    ) -> (r: Result<(), Error>)
        requires
            old(self).wf(),
        ensures
            final(self).wf(),
            final(self).others_kept(*old(self), position as int),
            match r {
                Ok(_) => {
                    &&& position < old(self)@.blocks.len()
                    &&& write_result(
                        old(self)@.blocks[position as int].contents,
                        old(self).block_at(position as int).access(),
                        old(self).block_at(position as int).writable(),
                        offset,
                        value,
                    ) == Ok::<Seq<A::Element>, Error>(final(self)@.blocks[position as int].contents)
                    &&& final(self)@ == old(self)@.with_contents(
                        position as int,
                        final(self)@.blocks[position as int].contents,
                    )
                },
                Err(e) => {
                    &&& final(self)@ == old(self)@
                    &&& if position < old(self)@.blocks.len() {
                        write_result(
                            old(self)@.blocks[position as int].contents,
                            old(self).block_at(position as int).access(),
                            old(self).block_at(position as int).writable(),
                            offset,
                            value,
                        ) == Err::<Seq<A::Element>, Error>(e)
                    } else {
                        e == old(self).out_of_range(position)
                    }
                },
            },
            position < old(self)@.blocks.len() ==> {
                &&& final(self).block_at(position as int).access() == old(self).block_at(
                    position as int,
                ).access()
                &&& final(self).block_at(position as int).writable() == old(self).block_at(
                    position as int,
                ).writable()
                &&& final(self).block_at(position as int).gradients_kept(
                    old(self).block_at(position as int),
                )
            },
            r is Err ==> forall|i: int|
                0 <= i < old(self)@.blocks.len() ==> final(self).block_at(i).kept_but_access(
                    old(self).block_at(i),
                ),
    {
        if position >= self.blocks.len() {
            return Err(Error::IndexOutOfRange { index: position, len: self.blocks.len() });
        }
        let ghost before = block_views(self.blocks@);
        let r = self.blocks[position].write(view, offset, value);
        proof {
            let after = block_views(self.blocks@);
            match r {
                Ok(_) => {
                    assert(after =~= before.update(
                        position as int,
                        before[position as int].with_contents(after[position as int].contents),
                    ));
                    lemma_contents_keep_consistent(
                        self.keys@,
                        before,
                        self.shared.deep_view(),
                        position as int,
                        after[position as int].contents,
                    );
                },
                Err(_) => {
                    assert(after =~= before);
                },
            }
        }
        r
    }

    /// The blocks at other positions than `position` are those of `before`,
    /// stored as they were.
    pub open spec fn others_kept(&self, before: TensorMap<A>, position: int) -> bool {
        &&& self@.blocks.len() == before@.blocks.len()
        &&& forall|i: int|
            0 <= i < before@.blocks.len() && i != position ==> self.block_at(i) == before.block_at(
                i,
            )
    }

    /// The failure for a position at which the map has no block.
    pub open spec fn out_of_range(&self, position: usize) -> Error {
        Error::IndexOutOfRange { index: position, len: self@.blocks.len() as usize }
    }
}

/// A cursor over the key entries and the blocks of a tensor map.
///
/// It hands out the pairs one by one in the order of the keys. A new cursor
/// starts at the first pair again.
pub struct TensorMapIter<'a, A: Array> {
    map: &'a TensorMap<A>,
    position: usize,
}

impl<'a, A: Array> TensorMapIter<'a, A> {
    /// The map that the cursor walks.
    pub closed spec fn map(&self) -> TensorMapView<A::Element> {
        self.map@
    }

    /// The number of pairs handed out so far.
    pub closed spec fn position(&self) -> nat {
        self.position as nat
    }

    /// The block at `position` of the map that the cursor walks, as it is
    /// stored.
    pub closed spec fn block_at(&self, position: int) -> TensorBlock<A> {
        self.map.block_at(position)
    }

    /// The cursor walks a well-formed map and is not past the end.
    pub closed spec fn wf(&self) -> bool {
        &&& self.map.wf()
        &&& self.position <= self.map@.blocks.len()
    }

    /// The next key entry with its block, or `None` after the last one.
    pub fn next(&mut self) -> (r: Option<(&'a [LabelValue], &'a TensorBlock<A>)>)
        requires
            old(self).wf(),
        ensures
            final(self).wf(),
            final(self).map() == old(self).map(),
            forall|i: int| final(self).block_at(i) == old(self).block_at(i),
            match r {
                Some((key, block)) => {
                    &&& old(self).position() < old(self).map().blocks.len()
                    &&& key@ == old(self).map().keys.entries[old(self).position() as int]
                    &&& *block == old(self).block_at(old(self).position() as int)
                    &&& block@ == old(self).map().blocks[old(self).position() as int]
                    &&& block.wf()
                    &&& final(self).position() == old(self).position() + 1
                },
                None => {
                    &&& old(self).position() == old(self).map().blocks.len()
                    &&& final(self).position() == old(self).position()
                },
            },
    {
        let map: &'a TensorMap<A> = self.map;
        if self.position < map.blocks.len() {
            let keys: &'a Labels = &map.keys;
            match keys.entry(self.position) {
                Ok(key) => {
                    let block = &map.blocks[self.position];
                    self.position = self.position + 1;
                    Some((key, block))
                },
                Err(_) => None,
            }
        } else {
            None
        }
    }
}

/// Finds the column of each constraint among the dimensions of the keys.
fn resolve_selection(keys: &Labels, selection: &Vec<(String, LabelValue)>) -> (columns: Vec<
    Option<usize>,
>)
    requires
        keys.wf(),
    ensures
        columns@.len() == selection@.len(),
        forall|c: int|
            0 <= c < selection@.len() ==> match #[trigger] columns@[c] {
                Some(column) => keys@.dimension(selection@[c].0@) == Some(column as int),
                None => keys@.dimension(selection@[c].0@) is None,
            },
{
    let mut columns: Vec<Option<usize>> = Vec::new();
    let mut c: usize = 0;
    while c < selection.len()
        invariant
            keys.wf(),
            c <= selection@.len(),
            columns@.len() == c,
            forall|k: int|
                0 <= k < c ==> match #[trigger] columns@[k] {
                    Some(column) => keys@.dimension(selection@[k].0@) == Some(column as int),
                    None => keys@.dimension(selection@[k].0@) is None,
                },
        decreases selection@.len() - c,
    {
        let column = keys.dimension(&selection[c].0);
        columns.push(column);
        c += 1;
    }
    columns
}

/// A constraint is met by an entry if its column was found and the entry
/// has the value there.
spec fn constraint_met(
    entry: Seq<LabelValue>,
    wanted: Seq<(Seq<char>, LabelValue)>,
    columns: Seq<Option<usize>>,
    c: int,
) -> bool {
    columns[c] matches Some(column) && entry[column as int] == wanted[c].1
}

/// Whether a key entry meets every constraint, by the columns found.
fn entry_selected(
    entry: &[LabelValue],
    selection: &Vec<(String, LabelValue)>,
    columns: &Vec<Option<usize>>,
) -> (r: bool)
    requires
        columns@.len() == selection@.len(),
        forall|c: int|
            0 <= c < columns@.len() ==> (#[trigger] columns@[c] matches Some(column) ==> column
                < entry@.len()),
    ensures
        r == forall|c: int|
            0 <= c < columns@.len() ==> constraint_met(
                entry@,
                selection_view(selection@),
                columns@,
                c,
            ),
{
    let mut c: usize = 0;
    while c < columns.len()
        invariant
            c <= columns@.len() == selection@.len(),
            forall|k: int|
                0 <= k < columns@.len() ==> (#[trigger] columns@[k] matches Some(column)
                    ==> column < entry@.len()),
            forall|k: int|
                0 <= k < c ==> constraint_met(entry@, selection_view(selection@), columns@, k),
        decreases columns@.len() - c,
    {
        match columns[c] {
            Some(column) => {
                if entry[column] != selection[c].1 {
                    assert(!constraint_met(
                        entry@,
                        selection_view(selection@),
                        columns@,
                        c as int,
                    ));
                    return false;
                }
            },
            None => {
                assert(!constraint_met(entry@, selection_view(selection@), columns@, c as int));
                return false;
            },
        }
        c += 1;
    }
    true
}

/// What the columns found for the constraints say of a key entry is what
/// the selection says of it.
proof fn lemma_selects(
    keys: LabelsView,
    wanted: Seq<(Seq<char>, LabelValue)>,
    columns: Seq<Option<usize>>,
    p: int,
)
    requires
        keys.valid(),
        0 <= p < keys.count(),
        columns.len() == wanted.len(),
        forall|c: int|
            0 <= c < wanted.len() ==> match #[trigger] columns[c] {
                Some(column) => keys.dimension(wanted[c].0) == Some(column as int),
                None => keys.dimension(wanted[c].0) is None,
            },
    ensures
        keys.entries[p].len() == keys.size(),
        forall|c: int|
            0 <= c < columns.len() ==> (#[trigger] columns[c] matches Some(column) ==> column
                < keys.size()),
        selects(keys, wanted, p) <==> forall|c: int|
            0 <= c < columns.len() ==> constraint_met(keys.entries[p], wanted, columns, c),
{
    assert(LabelsView::entry_ok(keys.size(), keys.entries, p));
    if selects(keys, wanted, p) {
        assert forall|c: int| 0 <= c < columns.len() implies constraint_met(
            keys.entries[p],
            wanted,
            columns,
            c,
        ) by {
            assert(keys.value(p, wanted[c].0) == Some(wanted[c].1));
        }
    }
    if forall|c: int|
        0 <= c < columns.len() ==> constraint_met(keys.entries[p], wanted, columns, c) {
        assert forall|c: int| 0 <= c < wanted.len() implies keys.value(
            p,
            (#[trigger] wanted[c]).0,
        ) == Some(wanted[c].1) by {
            assert(constraint_met(keys.entries[p], wanted, columns, c));
        }
    }
}

/// Other elements in the array of one block leave the properties of all
/// blocks as they are, and so the blocks as consistent as they were.
proof fn lemma_contents_keep_consistent<E>(
    keys: LabelsView,
    blocks: Seq<BlockView<E>>,
    shared: Seq<Seq<char>>,
    position: int,
    contents: Seq<E>,
)
    requires
        0 <= position < blocks.len(),
        consistent(keys, blocks, shared),
    ensures
        consistent(
            keys,
            blocks.update(position, blocks[position].with_contents(contents)),
            shared,
        ),
{
    let after = blocks.update(position, blocks[position].with_contents(contents));
    assert forall|j: int| 0 <= j < after.len() implies block_ok(keys, after, shared, j) by {
        assert(block_ok(keys, blocks, shared, j));
        assert forall|i: int| 0 <= i < j implies pair_ok(keys, after, shared, i, j) by {
            assert(pair_ok(keys, blocks, shared, i, j));
            assert(after[i].properties == blocks[i].properties);
            assert(after[j].properties == blocks[j].properties);
        }
    }
}

/// A tensor map in which the keys tie together two blocks with different
/// properties is refused with `PropertiesInconsistent`, if there is one
/// block for each key entry. The failure names the first block that differs
/// from an earlier block tied to it, and the first such earlier block.
pub proof fn lemma_new_reports_inconsistent_properties<E>(
    keys: LabelsView,
    blocks: Seq<BlockView<E>>,
    shared: Seq<Seq<char>>,
    i: int,
    j: int,
)
    requires
        keys.count() == blocks.len(),
        0 <= i < j < blocks.len(),
        tied(keys, shared, i, j),
        blocks[i].properties != blocks[j].properties,
    ensures
        TensorMapView::new_result(keys, blocks, shared) == Err::<TensorMapView<E>, Error>(
            Error::PropertiesInconsistent {
                first: first_bad_partner(
                    keys,
                    blocks,
                    shared,
                    first_bad_block(keys, blocks, shared),
                ) as usize,
                second: first_bad_block(keys, blocks, shared) as usize,
            },
        ),
        0 <= first_bad_partner(keys, blocks, shared, first_bad_block(keys, blocks, shared))
            < first_bad_block(keys, blocks, shared) <= j,
        !pair_ok(
            keys,
            blocks,
            shared,
            first_bad_partner(keys, blocks, shared, first_bad_block(keys, blocks, shared)),
            first_bad_block(keys, blocks, shared),
        ),
{
    assert(!block_ok(keys, blocks, shared, j)) by {
        assert(!pair_ok(keys, blocks, shared, i, j));
    }
    lemma_least_bad_block(keys, blocks, shared, j);
    let second = first_bad_block(keys, blocks, shared);
    lemma_bad_block_has_partner(keys, blocks, shared, second);
}

/// A block that is not consistent with the earlier ones has a first
/// earlier block that is tied to it and differs from it.
proof fn lemma_bad_block_has_partner<E>(
    keys: LabelsView,
    blocks: Seq<BlockView<E>>,
    shared: Seq<Seq<char>>,
    j: int,
)
    requires
        !block_ok(keys, blocks, shared, j),
    ensures
        0 <= first_bad_partner(keys, blocks, shared, j) < j,
        !pair_ok(keys, blocks, shared, first_bad_partner(keys, blocks, shared, j), j),
{
    let witness = choose|w: int| 0 <= w < j && !pair_ok(keys, blocks, shared, w, j);
    lemma_least_bad_partner(keys, blocks, shared, j, witness);
}

/// If some block up to `bound` is not consistent with the earlier ones,
/// there is a first such block.
proof fn lemma_least_bad_block<E>(
    keys: LabelsView,
    blocks: Seq<BlockView<E>>,
    shared: Seq<Seq<char>>,
    bound: int,
)
    requires
        0 <= bound < blocks.len(),
        !block_ok(keys, blocks, shared, bound),
    ensures
        !consistent(keys, blocks, shared),
        0 <= first_bad_block(keys, blocks, shared) <= bound,
        !block_ok(keys, blocks, shared, first_bad_block(keys, blocks, shared)),
        forall|k: int|
            0 <= k < first_bad_block(keys, blocks, shared) ==> block_ok(keys, blocks, shared, k),
    decreases bound,
{
    if forall|k: int| 0 <= k < bound ==> block_ok(keys, blocks, shared, k) {
        let c = first_bad_block(keys, blocks, shared);
        assert(block_ok(keys, blocks, shared, c) || c >= bound);
    } else {
        let k = choose|k: int| 0 <= k < bound && !block_ok(keys, blocks, shared, k);
        lemma_least_bad_block(keys, blocks, shared, k);
    }
}

/// If some block before `j` up to `bound` is tied to `j` and differs from
/// it, there is a first such block.
proof fn lemma_least_bad_partner<E>(
    keys: LabelsView,
    blocks: Seq<BlockView<E>>,
    shared: Seq<Seq<char>>,
    j: int,
    bound: int,
)
    requires
        0 <= bound < j,
        !pair_ok(keys, blocks, shared, bound, j),
    ensures
        0 <= first_bad_partner(keys, blocks, shared, j) <= bound,
        !pair_ok(keys, blocks, shared, first_bad_partner(keys, blocks, shared, j), j),
    decreases bound,
{
    if forall|k: int| 0 <= k < bound ==> pair_ok(keys, blocks, shared, k, j) {
        let c = first_bad_partner(keys, blocks, shared, j);
        assert(pair_ok(keys, blocks, shared, c, j) || c >= bound);
    } else {
        let k = choose|k: int| 0 <= k < bound && !pair_ok(keys, blocks, shared, k, j);
        lemma_least_bad_partner(keys, blocks, shared, j, k);
    }
}

/// Building a tensor map again from the keys, the blocks and the tying
/// dimensions of a valid tensor map gives that tensor map.
pub proof fn lemma_rebuild_map<E>(map: TensorMapView<E>)
    requires
        map.valid(),
    ensures
        TensorMapView::new_result(map.keys, map.blocks, map.shared) == Ok::<
            TensorMapView<E>,
            Error,
        >(map),
{
}

/// Finds the first block that differs in its properties from an earlier
/// block that the keys tie it to, and the first such earlier block.
fn first_inconsistency<A: Array>(
    keys: &Labels,
    blocks: &Vec<TensorBlock<A>>,
    shared: &Vec<String>,
) -> (r: Option<(usize, usize)>)
    requires
        keys.wf(),
        keys@.count() == blocks@.len(),
        forall|i: int| 0 <= i < blocks@.len() ==> (#[trigger] blocks@[i]).wf(),
    ensures
        match r {
            Some((first, second)) => {
                &&& !consistent(keys@, block_views(blocks@), shared.deep_view())
                &&& second == first_bad_block(keys@, block_views(blocks@), shared.deep_view())
                &&& first == first_bad_partner(
                    keys@,
                    block_views(blocks@),
                    shared.deep_view(),
                    second as int,
                )
            },
            None => consistent(keys@, block_views(blocks@), shared.deep_view()),
        },
{
    let ghost views = block_views(blocks@);
    let ghost names = shared.deep_view();
    let columns = resolve(keys, shared);
    proof {
        keys.lemma_valid();
    }
    let n = blocks.len();
    let mut j: usize = 0;
    while j < n
        invariant
            keys.wf(),
            keys@.valid(),
            n == blocks@.len() == keys@.count(),
            j <= n,
            views == block_views(blocks@),
            names == shared.deep_view(),
            columns@.len() == names.len(),
            forall|i: int| 0 <= i < blocks@.len() ==> (#[trigger] blocks@[i]).wf(),
            forall|d: int|
                0 <= d < names.len() ==> match #[trigger] columns@[d] {
                    Some(column) => keys@.dimension(names[d]) == Some(column as int),
                    None => keys@.dimension(names[d]) is None,
                },
            forall|k: int| 0 <= k < j ==> block_ok(keys@, views, names, k),
        decreases n - j,
    {
        let mut i: usize = 0;
        while i < j
            invariant
                keys.wf(),
                keys@.valid(),
                n == blocks@.len() == keys@.count(),
                i <= j < n,
                views == block_views(blocks@),
                names == shared.deep_view(),
                columns@.len() == names.len(),
                forall|i: int| 0 <= i < blocks@.len() ==> (#[trigger] blocks@[i]).wf(),
                forall|d: int|
                    0 <= d < names.len() ==> match #[trigger] columns@[d] {
                        Some(column) => keys@.dimension(names[d]) == Some(column as int),
                        None => keys@.dimension(names[d]) is None,
                    },
                forall|k: int| 0 <= k < j ==> block_ok(keys@, views, names, k),
                forall|k: int| 0 <= k < i ==> pair_ok(keys@, views, names, k, j as int),
            decreases j - i,
        {
            let a = keys.entry(i);
            let b = keys.entry(j);
            match (a, b) {
                (Ok(a), Ok(b)) => {
                    proof {
                        lemma_columns_fit(keys@, names, columns@, i as int);
                        lemma_columns_fit(keys@, names, columns@, j as int);
                        lemma_tied(keys@, names, columns@, i as int, j as int);
                    }
                    if entries_tied(a, b, &columns) {
                        let same = blocks[i].properties().same_as(blocks[j].properties());
                        if !same {
                            proof {
                                lemma_first_bad(keys@, views, names, i as int, j as int);
                            }
                            return Some((i, j));
                        }
                    }
                },
                _ => {},
            }
            i += 1;
        }
        j += 1;
    }
    None
}

} // verus!
