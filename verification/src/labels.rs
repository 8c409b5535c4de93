//! Label sets: named integer columns and distinct rows, with a lookup from a
//! row to its position.

use vstd::prelude::*;
use crate::errors::Error;

verus! {

/// One value of a label: a 32-bit signed integer, compared exactly.
pub type LabelValue = i32;

/// What a label set is, apart from how it is stored: the names of its
/// dimensions and its entries, both in order.
pub ghost struct LabelsView {
    pub names: Seq<Seq<char>>,
    pub entries: Seq<Seq<LabelValue>>,
}

impl LabelsView {
    /// The number of dimensions.
    pub open spec fn size(self) -> nat {
        self.names.len()
    }

    /// The number of entries.
    pub open spec fn count(self) -> nat {
        self.entries.len()
    }

    /// The name at `i` is not empty and differs from every earlier name.
    pub open spec fn name_ok(names: Seq<Seq<char>>, i: int) -> bool {
        &&& names[i].len() > 0
        &&& forall|j: int| 0 <= j < i ==> names[j] != names[i]
    }

    /// The entry at `i` has one value per dimension and differs from every
    /// earlier entry.
    pub open spec fn entry_ok(size: nat, entries: Seq<Seq<LabelValue>>, i: int) -> bool {
        &&& entries[i].len() == size
        &&& forall|j: int| 0 <= j < i ==> entries[j] != entries[i]
    }

    /// Every name is acceptable.
    pub open spec fn names_ok(names: Seq<Seq<char>>) -> bool {
        forall|i: int| 0 <= i < names.len() ==> Self::name_ok(names, i)
    }

    /// Every entry is acceptable.
    pub open spec fn entries_ok(size: nat, entries: Seq<Seq<LabelValue>>) -> bool {
        forall|i: int| 0 <= i < entries.len() ==> Self::entry_ok(size, entries, i)
    }

    /// The invariant of a label set: names are non-empty and pairwise
    /// distinct, every entry has one value per name, and entries are
    /// pairwise distinct.
    pub open spec fn valid(self) -> bool {
        &&& Self::names_ok(self.names)
        &&& Self::entries_ok(self.names.len(), self.entries)
    }

    /// The least position whose name is not acceptable.
    pub open spec fn first_bad_name(names: Seq<Seq<char>>) -> int {
        choose|i: int|
            0 <= i < names.len() && !Self::name_ok(names, i) && forall|k: int|
                0 <= k < i ==> Self::name_ok(names, k)
    }

    /// The least position whose entry is not acceptable.
    pub open spec fn first_bad_entry(size: nat, entries: Seq<Seq<LabelValue>>) -> int {
        choose|i: int|
            0 <= i < entries.len() && !Self::entry_ok(size, entries, i) && forall|k: int|
                0 <= k < i ==> Self::entry_ok(size, entries, k)
    }

    /// A position before `i` that holds the same entry as `i`.
    pub open spec fn earlier_copy(entries: Seq<Seq<LabelValue>>, i: int) -> int {
        choose|j: int| 0 <= j < i && entries[j] == entries[i]
    }

    /// What building a label set from `names` and `entries` gives.
    ///
    /// Names are examined first, then the entries in order. The failure
    /// reported is the first one met: the first name that is empty or used
    /// before; else the first entry that has the wrong number of values or
    /// repeats an earlier entry.
    pub open spec fn build_result(
        names: Seq<Seq<char>>,
        entries: Seq<Seq<LabelValue>>,
    ) -> Result<LabelsView, Error> {
        if !Self::names_ok(names) {
            Err(Error::InvalidName { position: Self::first_bad_name(names) as usize })
        } else if !Self::entries_ok(names.len(), entries) {
            let position = Self::first_bad_entry(names.len(), entries);
            if entries[position].len() != names.len() {
                Err(
                    Error::EntrySize {
                        position: position as usize,
                        expected: names.len() as usize,
                        actual: entries[position].len() as usize,
                    },
                )
            } else {
                Err(
                    Error::DuplicateEntry {
                        position: position as usize,
                        first: Self::earlier_copy(entries, position) as usize,
                    },
                )
            }
        } else {
            Ok(LabelsView { names, entries })
        }
    }

    /// Whether `entry` is one of the entries.
    pub open spec fn contains(self, entry: Seq<LabelValue>) -> bool {
        self.entries.contains(entry)
    }

    /// The position of `entry` among the entries, if it is one of them.
    pub open spec fn position(self, entry: Seq<LabelValue>) -> Option<int> {
        if self.entries.contains(entry) {
            Some(self.entries.index_of(entry))
        } else {
            None
        }
    }

    /// The position of the dimension called `name`, if there is one.
    pub open spec fn dimension(self, name: Seq<char>) -> Option<int> {
        if self.names.contains(name) {
            Some(self.names.index_of(name))
        } else {
            None
        }
    }

    /// The value of the entry at `position` in the dimension called `name`,
    /// if there is such a dimension.
    pub open spec fn value(self, position: int, name: Seq<char>) -> Option<LabelValue> {
        match self.dimension(name) {
            Some(column) => Some(self.entries[position][column]),
            None => None,
        }
    }

    /// In a valid label set the dimension called by the name at `i` is `i`.
    pub proof fn lemma_dimension_of_name(self, i: int)
        requires
            self.valid(),
            0 <= i < self.names.len(),
        ensures
            self.dimension(self.names[i]) == Some(i),
    {
        let c = self.names.index_of(self.names[i]);
        assert(Self::name_ok(self.names, c));
        assert(Self::name_ok(self.names, i));
    }

    /// In a valid label set the entry at `i` has position `i`.
    pub proof fn lemma_position_of_entry(self, i: int)
        requires
            self.valid(),
            0 <= i < self.entries.len(),
        ensures
            self.position(self.entries[i]) == Some(i),
    {
        let c = self.entries.index_of(self.entries[i]);
        assert(Self::entry_ok(self.size(), self.entries, c));
        assert(Self::entry_ok(self.size(), self.entries, i));
    }
}

/// The view of a result: the view of the value, or the error as it is.
pub open spec fn viewed<T: View>(r: Result<T, Error>) -> Result<T::V, Error> {
    match r {
        Ok(value) => Ok(value@),
        Err(e) => Err(e),
    }
}

/// The modulus of the entry hash, the largest prime below 2^32.
const HASH_MODULUS: u64 = 4294967291;

/// One step of the entry hash.
spec fn hash_step(h: u64, value: LabelValue) -> u64 {
    ((h * 31 + (value + 0x8000_0000)) % (HASH_MODULUS as int)) as u64
}

/// The hash of an entry: a polynomial in its values, modulo a prime.
spec fn entry_hash(entry: Seq<LabelValue>) -> u64
    decreases entry.len(),
{
    if entry.len() == 0 {
        7
    } else {
        hash_step(entry_hash(entry.drop_last()), entry.last())
    }
}

/// The bucket that holds the position of `entry`, among `buckets` buckets.
spec fn bucket_of(entry: Seq<LabelValue>, buckets: int) -> int {
    entry_hash(entry) as int % buckets
}

/// The buckets hold positions below `n`, and the position of each of the
/// first `n` entries lies in the bucket of its entry.
spec fn indexed(entries: Seq<Seq<LabelValue>>, buckets: Seq<Vec<usize>>, n: int) -> bool {
    &&& buckets.len() > 0
    &&& forall|b: int, k: int|
        0 <= b < buckets.len() && 0 <= k < buckets[b]@.len() ==> (#[trigger] buckets[b]@[k]) < n
    &&& forall|i: int|
        0 <= i < n ==> listed(buckets[bucket_of(#[trigger] entries[i], buckets.len() as int)]@, i)
}

/// Position `i` is in the bucket.
spec fn listed(bucket: Seq<usize>, i: int) -> bool {
    exists|k: int| 0 <= k < bucket.len() && bucket[k] == i
}

/// The entry at `i` is the first that is not acceptable.
proof fn lemma_first_bad_entry(size: nat, entries: Seq<Seq<LabelValue>>, i: int)
    requires
        0 <= i < entries.len(),
        !LabelsView::entry_ok(size, entries, i),
        forall|k: int| 0 <= k < i ==> LabelsView::entry_ok(size, entries, k),
    ensures
        !LabelsView::entries_ok(size, entries),
        LabelsView::first_bad_entry(size, entries) == i,
{
    let c = LabelsView::first_bad_entry(size, entries);
    assert(LabelsView::entry_ok(size, entries, c) || c >= i);
}

/// Among distinct earlier entries only one can equal the entry at `i`.
proof fn lemma_earlier_copy(size: nat, entries: Seq<Seq<LabelValue>>, i: int, first: int)
    requires
        0 <= first < i <= entries.len(),
        entries[first] == entries[i],
        forall|k: int| 0 <= k < i ==> LabelsView::entry_ok(size, entries, k),
    ensures
        LabelsView::earlier_copy(entries, i) == first,
{
    let e = LabelsView::earlier_copy(entries, i);
    assert(LabelsView::entry_ok(size, entries, e));
    assert(LabelsView::entry_ok(size, entries, first));
}

/// An entry that no position in its bucket holds is none of the first `n`
/// entries.
proof fn lemma_absent(
    entries: Seq<Seq<LabelValue>>,
    buckets: Seq<Vec<usize>>,
    n: int,
    entry: Seq<LabelValue>,
)
    requires
        0 <= n <= entries.len(),
        indexed(entries, buckets, n),
        forall|k: int|
            0 <= k < buckets[bucket_of(entry, buckets.len() as int)]@.len() ==> entries[(
            #[trigger] buckets[bucket_of(entry, buckets.len() as int)]@[k]) as int] != entry,
    ensures
        forall|j: int| 0 <= j < n ==> entries[j] != entry,
{
    let b = bucket_of(entry, buckets.len() as int);
    assert forall|j: int| 0 <= j < n implies entries[j] != entry by {
        if entries[j] == entry {
            assert(listed(buckets[bucket_of(entries[j], buckets.len() as int)]@, j));
            let k = choose|k: int| 0 <= k < buckets[b]@.len() && buckets[b]@[k] == j;
            assert(entries[buckets[b]@[k] as int] != entry);
        }
    }
}

/// Adding position `n` to the bucket of entry `n` extends the index by one
/// entry.
proof fn lemma_index_grows(
    entries: Seq<Seq<LabelValue>>,
    before: Seq<Vec<usize>>,
    after: Seq<Vec<usize>>,
    n: int,
)
    requires
        0 <= n < entries.len(),
        n <= usize::MAX,
        indexed(entries, before, n),
        after.len() == before.len(),
        after[bucket_of(entries[n], before.len() as int)]@ == before[bucket_of(
            entries[n],
            before.len() as int,
        )]@.push(n as usize),
        forall|b: int|
            0 <= b < before.len() && b != bucket_of(entries[n], before.len() as int)
                ==> after[b] == before[b],
    ensures
        indexed(entries, after, n + 1),
{
    let width = before.len() as int;
    let target = bucket_of(entries[n], width);
    assert forall|b: int, k: int| 0 <= b < after.len() && 0 <= k < after[b]@.len() implies (
    #[trigger] after[b]@[k]) < n + 1 by {
        if b == target {
            if k < before[b]@.len() {
                assert(after[b]@[k] == before[b]@[k]);
            }
        } else {
            assert(after[b]@[k] == before[b]@[k]);
        }
    }
    assert forall|i: int| 0 <= i < n + 1 implies listed(
        after[bucket_of(#[trigger] entries[i], after.len() as int)]@,
        i,
    ) by {
        let b = bucket_of(entries[i], width);
        if i < n {
            assert(listed(before[b]@, i));
            let at = choose|at: int| 0 <= at < before[b]@.len() && before[b]@[at] == i;
            assert(after[b]@[at] == i);
        } else {
            assert(after[b]@[before[b]@.len() as int] == i);
        }
    }
}

/// The deep view of a list of entries holds the view of each entry.
proof fn lemma_entries_view(entries: &Vec<Vec<LabelValue>>)
    ensures
        entries.deep_view().len() == entries@.len(),
        forall|i: int|
            0 <= i < entries@.len() ==> (#[trigger] entries.deep_view()[i]) == entries@[i]@,
{
    assert forall|i: int| 0 <= i < entries@.len() implies (#[trigger] entries.deep_view()[i])
        == entries@[i]@ by {
        assert(entries@[i].deep_view() =~= entries@[i]@);
    }
}

/// Computes the hash of an entry.
fn hash_entry(entry: &[LabelValue]) -> (h: u64)
    ensures
        h == entry_hash(entry@),
        h < HASH_MODULUS,
{
    let mut h: u64 = 7;
    let mut i: usize = 0;
    while i < entry.len()
        invariant
            i <= entry@.len(),
            h == entry_hash(entry@.take(i as int)),
            h < HASH_MODULUS,
        decreases entry@.len() - i,
    {
        let shifted: u64 = (entry[i] as i64 + 0x8000_0000) as u64;
        proof {
            assert(entry@.take(i + 1).drop_last() =~= entry@.take(i as int));
            assert(entry@.take(i + 1).last() == entry@[i as int]);
        }
        h = (h * 31 + shifted) % HASH_MODULUS;
        i += 1;
    }
    proof {
        assert(entry@.take(entry@.len() as int) =~= entry@);
    }
    h
}

/// Computes the bucket of an entry.
fn bucket_index(entry: &[LabelValue], buckets: usize) -> (b: usize)
    requires
        buckets > 0,
    ensures
        b == bucket_of(entry@, buckets as int),
        b < buckets,
{
    let h = hash_entry(entry);
    (h % (buckets as u64)) as usize
}

/// Whether two entries hold the same values.
pub fn same_entry(a: &[LabelValue], b: &[LabelValue]) -> (same: bool)
    ensures
        same == (a@ == b@),
{
    if a.len() != b.len() {
        return false;
    }
    let mut i: usize = 0;
    while i < a.len()
        invariant
            i <= a@.len(),
            a@.len() == b@.len(),
            forall|k: int| 0 <= k < i ==> a@[k] == b@[k],
        decreases a@.len() - i,
    {
        if a[i] != b[i] {
            return false;
        }
        i += 1;
    }
    proof {
        assert(a@ =~= b@);
    }
    true
}

/// Looks among the positions in `bucket` for one that holds `entry`.
fn find_in_bucket(entries: &Vec<Vec<LabelValue>>, bucket: &Vec<usize>, entry: &[LabelValue]) -> (r:
    Option<usize>)
    requires
        forall|k: int| 0 <= k < bucket@.len() ==> bucket@[k] < entries@.len(),
    ensures
        match r {
            Some(p) => p < entries@.len() && entries@[p as int]@ == entry@ && bucket@.contains(p),
            None => forall|k: int|
                0 <= k < bucket@.len() ==> entries@[(#[trigger] bucket@[k]) as int]@ != entry@,
        },
{
    let mut k: usize = 0;
    while k < bucket.len()
        invariant
            k <= bucket@.len(),
            forall|j: int| 0 <= j < bucket@.len() ==> bucket@[j] < entries@.len(),
            forall|j: int| 0 <= j < k ==> entries@[(#[trigger] bucket@[j]) as int]@ != entry@,
        decreases bucket@.len() - k,
    {
        let p = bucket[k];
        if same_entry(entries[p].as_slice(), entry) {
            return Some(p);
        }
        k += 1;
    }
    None
}

/// Finds the first name that is empty or repeats an earlier one.
fn first_invalid_name(names: &Vec<String>) -> (r: Option<usize>)
    ensures
        match r {
            None => LabelsView::names_ok(names.deep_view()),
            Some(i) => !LabelsView::names_ok(names.deep_view()) && i
                == LabelsView::first_bad_name(names.deep_view()),
        },
{
    let ghost view = names.deep_view();
    let mut i: usize = 0;
    while i < names.len()
        invariant
            i <= names@.len(),
            view == names.deep_view(),
            forall|k: int| 0 <= k < i ==> LabelsView::name_ok(view, k),
        decreases names@.len() - i,
    {
        let mut bad = names[i].as_str().is_empty();
        let mut j: usize = 0;
        while !bad && j < i
            invariant
                j <= i < names@.len(),
                view == names.deep_view(),
                bad ==> !LabelsView::name_ok(view, i as int),
                !bad ==> view[i as int].len() > 0,
                !bad ==> forall|k: int| 0 <= k < j ==> view[k] != view[i as int],
            decreases i - j + if bad { 0int } else { 1int },
        {
            if names[j] == names[i] {
                proof {
                    assert(view[j as int] == names@[j as int]@);
                    assert(view[i as int] == names@[i as int]@);
                }
                bad = true;
            } else {
                j += 1;
            }
        }
        if bad {
            proof {
                let c = LabelsView::first_bad_name(view);
                assert(!LabelsView::name_ok(view, i as int));
                assert(LabelsView::name_ok(view, c) || c >= i);
            }
            return Some(i);
        }
        i += 1;
    }
    None
}

/// An ordered set of named integer columns with distinct rows.
///
/// A label set is immutable once built. Beside its names and entries it
/// holds a hash index from each entry to its position.
#[derive(Debug)]
pub struct Labels {
    names: Vec<String>,
    entries: Vec<Vec<LabelValue>>,
    buckets: Vec<Vec<usize>>,
}

impl View for Labels {
    type V = LabelsView;

    closed spec fn view(&self) -> LabelsView {
        LabelsView { names: self.names.deep_view(), entries: self.entries.deep_view() }
    }
}

impl Labels {
    /// The invariant of the stored label set: its view is valid and the
    /// index covers every entry.
    pub closed spec fn wf(&self) -> bool {
        &&& self@.valid()
        &&& indexed(self.entries.deep_view(), self.buckets@, self.entries@.len() as int)
    }

    /// A well-formed label set has a valid view.
    pub proof fn lemma_valid(&self)
        requires
            self.wf(),
        ensures
            self@.valid(),
    {
    }

    /// Builds a label set from the names of its dimensions and its entries.
    ///
    /// Fails on the first name that is empty or used before, else on the
    /// first entry that has the wrong number of values or repeats an earlier
    /// entry.
    pub fn build(names: Vec<String>, entries: Vec<Vec<LabelValue>>) -> (r: Result<Labels, Error>)
        ensures
            viewed(r) == LabelsView::build_result(names.deep_view(), entries.deep_view()),
            r matches Ok(labels) ==> labels.wf(),
    {
        let ghost nv = names.deep_view();
        let ghost ev = entries.deep_view();
        match first_invalid_name(&names) {
            Some(position) => {
                return Err(Error::InvalidName { position });
            },
            None => {},
        }
        let size = names.len();
        let count = entries.len();
        let width: usize = if count == 0 {
            1
        } else {
            count
        };
        let mut buckets: Vec<Vec<usize>> = Vec::new();
        let mut b: usize = 0;
        while b < width
            invariant
                b <= width,
                buckets@.len() == b,
                forall|k: int| 0 <= k < b ==> (#[trigger] buckets@[k])@.len() == 0,
            decreases width - b,
        {
            buckets.push(Vec::new());
            b += 1;
        }
        let mut i: usize = 0;
        while i < count
            invariant
                i <= count == entries@.len(),
                size == names@.len(),
                width > 0,
                buckets@.len() == width,
                nv == names.deep_view(),
                ev == entries.deep_view(),
                LabelsView::names_ok(nv),
                forall|k: int| 0 <= k < i ==> LabelsView::entry_ok(size as nat, ev, k),
                indexed(ev, buckets@, i as int),
            decreases count - i,
        {
            let entry = &entries[i];
            assert(ev[i as int] == entry@);
            if entry.len() != size {
                proof {
                    lemma_first_bad_entry(size as nat, ev, i as int);
                }
                return Err(Error::EntrySize { position: i, expected: size, actual: entry.len() });
            }
            let b = bucket_index(entry.as_slice(), width);
            let found = find_in_bucket(&entries, &buckets[b], entry.as_slice());
            match found {
                Some(first) => {
                    proof {
                        assert(ev[first as int] == entries@[first as int]@);
                        lemma_first_bad_entry(size as nat, ev, i as int);
                        lemma_earlier_copy(size as nat, ev, i as int, first as int);
                    }
                    return Err(Error::DuplicateEntry { position: i, first });
                },
                None => {},
            }
            proof {
                assert forall|k: int| 0 <= k < buckets@[b as int]@.len() implies ev[(
                #[trigger] buckets@[b as int]@[k]) as int] != entry@ by {
                    assert(ev[buckets@[b as int]@[k] as int] == entries@[buckets@[b as int]@[k] as int]@);
                }
                lemma_absent(ev, buckets@, i as int, entry@);
            }
            let ghost before = buckets@;
            buckets[b].push(i);
            proof {
                lemma_index_grows(ev, before, buckets@, i as int);
            }
            i += 1;
        }
        Ok(Labels { names, entries, buckets })
    }

    /// The position of `entry` among the entries, or `None` if it is not one
    /// of them.
    pub fn position(&self, entry: &[LabelValue]) -> (r: Option<usize>)
        requires
            self.wf(),
        ensures
            match r {
                Some(p) => self@.position(entry@) == Some(p as int),
                None => self@.position(entry@) is None,
            },
    {
        let ghost ev = self.entries.deep_view();
        let b = bucket_index(entry, self.buckets.len());
        let r = find_in_bucket(&self.entries, &self.buckets[b], entry);
        proof {
            match r {
                Some(p) => {
                    assert(ev[p as int] == self.entries@[p as int]@);
                    let c = ev.index_of(entry@);
                    assert(LabelsView::entry_ok(self@.size(), ev, c));
                    assert(LabelsView::entry_ok(self@.size(), ev, p as int));
                },
                None => {
                    assert forall|k: int| 0 <= k < self.buckets@[b as int]@.len() implies ev[(
                    #[trigger] self.buckets@[b as int]@[k]) as int] != entry@ by {
                        assert(ev[self.buckets@[b as int]@[k] as int]
                            == self.entries@[self.buckets@[b as int]@[k] as int]@);
                    }
                    lemma_absent(ev, self.buckets@, ev.len() as int, entry@);
                },
            }
        }
        r
    }

    /// Whether `entry` is one of the entries.
    pub fn contains(&self, entry: &[LabelValue]) -> (r: bool)
        requires
            self.wf(),
        ensures
            r == self@.contains(entry@),
    {
        self.position(entry).is_some()
    }

    /// The names of the dimensions, in order.
    pub fn names(&self) -> (names: &Vec<String>)
        ensures
            names.deep_view() == self@.names,
    {
        &self.names
    }

    /// The number of dimensions.
    pub fn size(&self) -> (size: usize)
        ensures
            size == self@.size(),
    {
        self.names.len()
    }

    /// The number of entries.
    pub fn count(&self) -> (count: usize)
        ensures
            count == self@.count(),
    {
        self.entries.len()
    }

    /// Whether there is no entry.
    pub fn is_empty(&self) -> (empty: bool)
        ensures
            empty == (self@.count() == 0),
    {
        self.entries.len() == 0
    }

    /// The entry at `position`.
    pub fn entry(&self, position: usize) -> (r: Result<&[LabelValue], Error>)
        ensures
            match r {
                Ok(entry) => position < self@.count() && entry@ == self@.entries[position as int],
                Err(e) => position >= self@.count() && e == (Error::IndexOutOfRange {
                    index: position,
                    len: self@.count() as usize,
                }),
            },
    {
        if position < self.entries.len() {
            Ok(self.entries[position].as_slice())
        } else {
            Err(Error::IndexOutOfRange { index: position, len: self.entries.len() })
        }
    }

    /// The position of the dimension called `name`, if there is one.
    pub fn dimension(&self, name: &String) -> (r: Option<usize>)
        requires
            self.wf(),
        ensures
            match r {
                Some(column) => self@.dimension(name@) == Some(column as int),
                None => self@.dimension(name@) is None,
            },
    {
        let mut i: usize = 0;
        while i < self.names.len()
            invariant
                self.wf(),
                i <= self.names@.len(),
                forall|k: int| 0 <= k < i ==> self@.names[k] != name@,
            decreases self.names@.len() - i,
        {
            if self.names[i] == *name {
                proof {
                    assert(self@.names[i as int] == name@);
                    self@.lemma_dimension_of_name(i as int);
                }
                return Some(i);
            }
            i += 1;
        }
        None
    }

    /// Whether two label sets have the same names in the same order and the
    /// same entries in the same order.
    pub fn same_as(&self, other: &Labels) -> (same: bool)
        ensures
            same == (self@ == other@),
    {
        proof {
            lemma_entries_view(&self.entries);
            lemma_entries_view(&other.entries);
        }
        if self.names.len() != other.names.len() || self.entries.len() != other.entries.len() {
            return false;
        }
        let mut i: usize = 0;
        while i < self.names.len()
            invariant
                i <= self.names@.len() == other.names@.len(),
                forall|k: int| 0 <= k < i ==> self@.names[k] == other@.names[k],
            decreases self.names@.len() - i,
        {
            if self.names[i] != other.names[i] {
                assert(self@.names[i as int] != other@.names[i as int]);
                return false;
            }
            i += 1;
        }
        let mut i: usize = 0;
        while i < self.entries.len()
            invariant
                i <= self.entries@.len() == other.entries@.len(),
                self@.names =~= other@.names,
                forall|k: int| 0 <= k < i ==> self@.entries[k] == other@.entries[k],
            decreases self.entries@.len() - i,
        {
            proof {
                lemma_entries_view(&self.entries);
                lemma_entries_view(&other.entries);
            }
            if !same_entry(self.entries[i].as_slice(), other.entries[i].as_slice()) {
                assert(self@.entries[i as int] != other@.entries[i as int]);
                return false;
            }
            i += 1;
        }
        proof {
            assert(self@.entries =~= other@.entries);
        }
        true
    }

    /// A cursor over the entries, in order, that starts at the first one.
    pub fn iter(&self) -> (iter: LabelsIter<'_>)
        ensures
            iter.wf(),
            iter.labels() == self@,
            iter.position() == 0,
    {
        LabelsIter { labels: self, position: 0 }
    }
}

impl PartialEq for Labels {
    /// Label sets are equal when names and entries are, both in order.
    fn eq(&self, other: &Labels) -> (same: bool) {
        self.same_as(other)
    }
}

impl vstd::std_specs::cmp::PartialEqSpecImpl for Labels {
    open spec fn obeys_eq_spec() -> bool {
        true
    }

    open spec fn eq_spec(&self, other: &Labels) -> bool {
        self@ == other@
    }
}

/// A cursor over the entries of a label set.
///
/// It hands out the entries one by one in order. A new cursor starts at the
/// first entry again.
pub struct LabelsIter<'a> {
    labels: &'a Labels,
    position: usize,
}

impl<'a> LabelsIter<'a> {
    /// The label set that the cursor walks.
    pub closed spec fn labels(&self) -> LabelsView {
        self.labels@
    }

    /// The number of entries handed out so far.
    pub closed spec fn position(&self) -> nat {
        self.position as nat
    }

    /// The cursor is not past the end.
    pub closed spec fn wf(&self) -> bool {
        self.position <= self.labels@.count()
    }

    /// The next entry, or `None` after the last one.
    pub fn next(&mut self) -> (r: Option<&'a [LabelValue]>)
        requires
            old(self).wf(),
        ensures
            final(self).wf(),
            final(self).labels() == old(self).labels(),
            match r {
                Some(entry) => {
                    &&& old(self).position() < old(self).labels().count()
                    &&& entry@ == old(self).labels().entries[old(self).position() as int]
                    &&& final(self).position() == old(self).position() + 1
                },
                None => {
                    &&& old(self).position() == old(self).labels().count()
                    &&& final(self).position() == old(self).position()
                },
            },
    {
        let labels: &'a Labels = self.labels;
        if self.position < labels.entries.len() {
            let entry = labels.entries[self.position].as_slice();
            self.position = self.position + 1;
            Some(entry)
        } else {
            None
        }
    }
}

/// Collects the entries of a label set before it is built.
#[derive(Debug)]
pub struct LabelsBuilder {
    names: Vec<String>,
    entries: Vec<Vec<LabelValue>>,
}

impl View for LabelsBuilder {
    type V = LabelsView;

    /// The names given and the entries added so far, valid or not.
    closed spec fn view(&self) -> LabelsView {
        LabelsView { names: self.names.deep_view(), entries: self.entries.deep_view() }
    }
}

impl LabelsBuilder {
    /// A builder for a label set with these dimensions and no entry yet.
    pub fn new(names: Vec<String>) -> (builder: LabelsBuilder)
        ensures
            builder@.names == names.deep_view(),
            builder@.entries == Seq::<Seq<LabelValue>>::empty(),
    {
        let builder = LabelsBuilder { names, entries: Vec::new() };
        proof {
            assert(builder@.entries =~= Seq::<Seq<LabelValue>>::empty());
        }
        builder
    }

    /// The number of dimensions.
    pub fn size(&self) -> (size: usize)
        ensures
            size == self@.size(),
    {
        self.names.len()
    }

    /// The number of entries added so far.
    pub fn count(&self) -> (count: usize)
        ensures
            count == self@.count(),
    {
        self.entries.len()
    }

    /// Adds one entry after those added before. Nothing is checked yet.
    pub fn add(&mut self, entry: &[LabelValue])
        ensures
            final(self)@.names == old(self)@.names,
            final(self)@.entries == old(self)@.entries.push(entry@),
    {
        let mut copy: Vec<LabelValue> = Vec::new();
        let mut i: usize = 0;
        while i < entry.len()
            invariant
                i <= entry@.len(),
                copy@ == entry@.take(i as int),
            decreases entry@.len() - i,
        {
            copy.push(entry[i]);
            proof {
                assert(entry@.take(i as int).push(entry@[i as int]) =~= entry@.take(i + 1));
            }
            i += 1;
        }
        proof {
            assert(entry@.take(entry@.len() as int) =~= entry@);
        }
        self.entries.push(copy);
        proof {
            lemma_entries_view(&old(self).entries);
            lemma_entries_view(&self.entries);
            assert(self@.entries =~= old(self)@.entries.push(entry@));
        }
    }

    /// Builds the label set, as `Labels::build` does from the names and the
    /// entries added.
    pub fn finish(self) -> (r: Result<Labels, Error>)
        ensures
            viewed(r) == LabelsView::build_result(self@.names, self@.entries),
            r matches Ok(labels) ==> labels.wf(),
    {
        Labels::build(self.names, self.entries)
    }
}

/// Building from names that are non-empty and distinct and from entries that
/// are distinct and have one value per name succeeds, and in the label set
/// built each entry is found at the position where it was given, while
/// anything else is not found.
pub proof fn lemma_build_then_position(names: Seq<Seq<char>>, entries: Seq<Seq<LabelValue>>)
    requires
        LabelsView::names_ok(names),
        LabelsView::entries_ok(names.len(), entries),
    ensures
        LabelsView::build_result(names, entries) == Ok::<LabelsView, Error>(
            LabelsView { names, entries },
        ),
        forall|i: int|
            0 <= i < entries.len() ==> (LabelsView { names, entries }).position(
                #[trigger] entries[i],
            ) == Some(i),
        forall|entry: Seq<LabelValue>|
            !entries.contains(entry) ==> (#[trigger] (LabelsView { names, entries }).position(
                entry,
            )) is None,
{
    let labels = LabelsView { names, entries };
    assert forall|i: int| 0 <= i < entries.len() implies labels.position(#[trigger] entries[i])
        == Some(i) by {
        labels.lemma_position_of_entry(i);
    }
}

/// Building from acceptable names and from entries that all have one value
/// per name, of which the one at `position` is the first to repeat an earlier
/// one, the one at `first`, fails with `DuplicateEntry` for exactly these
/// two positions.
pub proof fn lemma_build_reports_first_duplicate(
    names: Seq<Seq<char>>,
    entries: Seq<Seq<LabelValue>>,
    first: int,
    position: int,
)
    requires
        LabelsView::names_ok(names),
        forall|i: int| 0 <= i < entries.len() ==> (#[trigger] entries[i]).len() == names.len(),
        0 <= first < position < entries.len(),
        entries[first] == entries[position],
        entries.take(position).no_duplicates(),
    ensures
        LabelsView::build_result(names, entries) == Err::<LabelsView, Error>(
            Error::DuplicateEntry { position: position as usize, first: first as usize },
        ),
{
    let size = names.len();
    assert forall|k: int| 0 <= k < position implies LabelsView::entry_ok(size, entries, k) by {
        assert forall|j: int| 0 <= j < k implies entries[j] != entries[k] by {
            assert(entries.take(position)[j] == entries[j]);
            assert(entries.take(position)[k] == entries[k]);
        }
    }
    lemma_first_bad_entry(size, entries, position);
    lemma_earlier_copy(size, entries, position, first);
}

/// Building again from the names and the entries of a valid label set gives
/// that label set.
pub proof fn lemma_rebuild(labels: LabelsView)
    requires
        labels.valid(),
    ensures
        LabelsView::build_result(labels.names, labels.entries) == Ok::<LabelsView, Error>(labels),
{
}

} // verus!
