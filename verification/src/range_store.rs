//! The interval store: values kept under half-open intervals, in buckets.
//!
//! A bucket is named by a path of names. Within a bucket the intervals do
//! not overlap, and the entries stand in the order of their starts.

use crate::error::Error;
use crate::primitives::{bytes_eq, copy_bytes};
use vstd::prelude::*;
use vstd::slice::slice_subrange;

verus! {

/// A value kept under the interval `[start, end)`.
#[derive(Debug)]
pub struct RangeEntry<V> {
    pub start: u64,
    pub end: u64,
    pub value: V,
}

impl<V> RangeEntry<V> {
    /// Whether the entry shares a coordinate with `[start, end)`.
    pub open spec fn hits(&self, start: u64, end: u64) -> bool {
        self.start < end && start < self.end && start < end && self.start < self.end
    }

    pub fn get_start(&self) -> (start: u64)
        ensures
            start == self.start,
    {
        self.start
    }

    pub fn get_end(&self) -> (end: u64)
        ensures
            end == self.end,
    {
        self.end
    }

    pub fn get_value(&self) -> (value: &V)
        ensures
            *value == self.value,
    {
        &self.value
    }
}

/// Whether every entry holds a coordinate and each ends before the next
/// starts.
pub open spec fn disjoint_ascending<V>(entries: Seq<RangeEntry<V>>) -> bool {
    &&& forall|i: int| 0 <= i < entries.len() ==> (#[trigger] entries[i]).start < entries[i].end
    &&& forall|i: int, j: int|
        0 <= i < j < entries.len() ==> (#[trigger] entries[i]).end <= (#[trigger] entries[j]).start
}

/// The entries that share a coordinate with `[start, end)`, in their order.
pub open spec fn intersecting<V>(entries: Seq<RangeEntry<V>>, start: u64, end: u64) -> Seq<
    RangeEntry<V>,
>
    decreases entries.len(),
{
    if entries.len() == 0 {
        Seq::empty()
    } else if entries.last().hits(start, end) {
        intersecting(entries.drop_last(), start, end).push(entries.last())
    } else {
        intersecting(entries.drop_last(), start, end)
    }
}

/// The entries that intersect an interval are exactly those of the store
/// that share a coordinate with it, and they stand in the store's order.
pub proof fn lemma_intersecting_exact<V>(entries: Seq<RangeEntry<V>>, start: u64, end: u64)
    requires
        disjoint_ascending(entries),
    ensures
        forall|x: RangeEntry<V>|
            intersecting(entries, start, end).contains(x) <==> entries.contains(x) && x.hits(
                start,
                end,
            ),
        disjoint_ascending(intersecting(entries, start, end)),
    decreases entries.len(),
{
    let found = intersecting(entries, start, end);
    if entries.len() > 0 {
        let n = entries.len() as int;
        let front = entries.drop_last();
        let last = entries[n - 1];
        let below = intersecting(front, start, end);
        assert(disjoint_ascending(front)) by {
            assert forall|i: int, j: int| 0 <= i < j < front.len() implies (#[trigger] front[i]).end
                <= (#[trigger] front[j]).start by {
                assert(entries[i].end <= entries[j].start);
            }
            assert forall|i: int| 0 <= i < front.len() implies (#[trigger] front[i]).start
                < front[i].end by {
                assert(entries[i].start < entries[i].end);
            }
        }
        lemma_intersecting_exact(front, start, end);
        assert(entries.last() == last);
        assert forall|x: RangeEntry<V>| found.contains(x) <==> entries.contains(x) && x.hits(
            start,
            end,
        ) by {
            if found.contains(x) {
                let i = choose|i: int| 0 <= i < found.len() && found[i] == x;
                if i < below.len() {
                    assert(below[i] == x);
                    assert(below.contains(x));
                    assert(front.contains(x));
                    let j = choose|j: int| 0 <= j < front.len() && front[j] == x;
                    assert(entries[j] == x);
                } else {
                    assert(entries[n - 1] == x);
                }
            }
            if entries.contains(x) && x.hits(start, end) {
                let j = choose|j: int| 0 <= j < entries.len() && entries[j] == x;
                if j < front.len() {
                    assert(front[j] == x);
                    assert(front.contains(x));
                    assert(below.contains(x));
                    let i = choose|i: int| 0 <= i < below.len() && below[i] == x;
                    assert(found[i] == x);
                } else {
                    assert(found[found.len() - 1] == x);
                }
            }
        }
        assert(disjoint_ascending(found)) by {
            assert forall|i: int| 0 <= i < found.len() implies (#[trigger] found[i]).start
                < found[i].end by {
                if i < below.len() {
                    assert(below[i].start < below[i].end);
                } else {
                    assert(found[i] == last);
                }
            }
            assert forall|i: int, j: int| 0 <= i < j < found.len() implies (#[trigger] found[i]).end
                <= (#[trigger] found[j]).start by {
                if j < below.len() {
                    assert(below[i].end <= below[j].start);
                } else {
                    assert(found[j] == last);
                    assert(below[i] == found[i]);
                    assert(below.contains(below[i]));
                    assert(front.contains(below[i]));
                    let k = choose|k: int| 0 <= k < front.len() && front[k] == below[i];
                    assert(entries[k].end <= entries[n - 1].start);
                }
            }
        }
    }
}

/// Once an entry is put into a store, the entries that intersect an
/// interval are those that did before, and the new one if it shares a
/// coordinate with the interval.
pub proof fn lemma_get_after_put<V>(
    entries: Seq<RangeEntry<V>>,
    k: int,
    entry: RangeEntry<V>,
    start: u64,
    end: u64,
)
    requires
        0 <= k <= entries.len(),
        disjoint_ascending(entries),
        disjoint_ascending(entries.insert(k, entry)),
    ensures
        forall|x: RangeEntry<V>|
            intersecting(entries.insert(k, entry), start, end).contains(x) <==> intersecting(
                entries,
                start,
                end,
            ).contains(x) || (x == entry && entry.hits(start, end)),
{
    let grown = entries.insert(k, entry);
    lemma_intersecting_exact(entries, start, end);
    lemma_intersecting_exact(grown, start, end);
    assert forall|x: RangeEntry<V>| grown.contains(x) <==> entries.contains(x) || x == entry by {
        if grown.contains(x) {
            let i = choose|i: int| 0 <= i < grown.len() && grown[i] == x;
            if i < k {
                assert(entries[i] == x);
            } else if i > k {
                assert(entries[i - 1] == x);
            }
        }
        if entries.contains(x) {
            let i = choose|i: int| 0 <= i < entries.len() && entries[i] == x;
            if i < k {
                assert(grown[i] == x);
            } else {
                assert(grown[i + 1] == x);
            }
        }
        if x == entry {
            assert(grown[k] == x);
        }
    }
    assert forall|x: RangeEntry<V>|
        intersecting(grown, start, end).contains(x) <==> intersecting(entries, start, end).contains(
            x,
        ) || (x == entry && entry.hits(start, end)) by {
        assert(intersecting(grown, start, end).contains(x) <==> grown.contains(x) && x.hits(
            start,
            end,
        ));
        assert(intersecting(entries, start, end).contains(x) <==> entries.contains(x) && x.hits(
            start,
            end,
        ));
        assert(grown.contains(x) <==> entries.contains(x) || x == entry);
    }
}

/// If the entries from `lo` up to `hi` share a coordinate with an interval
/// and no other entry does, they are the entries that intersect it.
pub proof fn lemma_intersecting_is_subrange<V>(
    entries: Seq<RangeEntry<V>>,
    start: u64,
    end: u64,
    lo: int,
    hi: int,
)
    requires
        0 <= lo <= hi <= entries.len(),
        forall|k: int| lo <= k < hi ==> (#[trigger] entries[k]).hits(start, end),
        forall|k: int|
            0 <= k < entries.len() && !(lo <= k < hi) ==> !(#[trigger] entries[k]).hits(start, end),
    ensures
        intersecting(entries, start, end) == entries.subrange(lo, hi),
    decreases entries.len(),
{
    if entries.len() == 0 {
        assert(entries.subrange(lo, hi) =~= Seq::empty());
    } else {
        let front = entries.drop_last();
        let n = entries.len() as int;
        assert(entries.last() == entries[n - 1]);
        if hi == n && lo < hi {
            lemma_intersecting_is_subrange(front, start, end, lo, hi - 1);
            assert(front.subrange(lo, hi - 1).push(entries.last()) =~= entries.subrange(lo, hi));
        } else if hi == n {
            lemma_intersecting_is_subrange(front, start, end, n - 1, n - 1);
            assert(front.subrange(n - 1, n - 1) =~= entries.subrange(lo, hi));
        } else {
            lemma_intersecting_is_subrange(front, start, end, lo, hi);
            assert(front.subrange(lo, hi) =~= entries.subrange(lo, hi));
        }
    }
}

/// The items without the one whose range starts at `start`, if there is
/// one.
pub open spec fn without_start<T>(items: Seq<T>, start_of: spec_fn(T) -> u64, start: u64) -> Seq<T> {
    if exists|k: int| 0 <= k < items.len() && start_of(#[trigger] items[k]) == start {
        items.remove(choose|k: int| 0 <= k < items.len() && start_of(#[trigger] items[k]) == start)
    } else {
        items
    }
}

/// The items without those whose ranges start where one of `starts` is.
pub open spec fn drained<T>(items: Seq<T>, start_of: spec_fn(T) -> u64, starts: Seq<u64>) -> Seq<T>
    decreases starts.len(),
{
    if starts.len() == 0 {
        items
    } else {
        without_start(drained(items, start_of, starts.drop_last()), start_of, starts.last())
    }
}

/// Where the starts of the items ascend strictly, taking out the first `k`
/// of them by their starts leaves the rest.
pub proof fn lemma_drained_all<T>(items: Seq<T>, start_of: spec_fn(T) -> u64, k: int)
    requires
        0 <= k <= items.len(),
        forall|i: int, j: int| 0 <= i < j < items.len() ==> start_of(items[i]) < start_of(items[j]),
    ensures
        drained(items, start_of, items.map_values(start_of).take(k)) == items.skip(k),
    decreases k,
{
    let starts = items.map_values(start_of).take(k);
    if k == 0 {
        assert(items.skip(0) =~= items);
    } else {
        lemma_drained_all(items, start_of, k - 1);
        assert(starts.drop_last() =~= items.map_values(start_of).take(k - 1));
        let rest = items.skip(k - 1);
        assert(start_of(rest[0]) == starts.last());
        let c = choose|c: int| 0 <= c < rest.len() && start_of(#[trigger] rest[c]) == starts.last();
        if c > 0 {
            assert(rest[c] == items[k - 1 + c]);
            assert(start_of(items[k - 1]) < start_of(items[k - 1 + c]));
        }
        assert(rest.remove(0) =~= items.skip(k));
    }
}

/// Where an entry starts.
pub open spec fn entry_start<V>() -> spec_fn(RangeEntry<V>) -> u64 {
    |e: RangeEntry<V>| e.start
}

/// The name of a bucket: the names on the way to it, outermost first.
#[derive(Debug)]
pub struct ScopedStore {
    pub path: Vec<Vec<u8>>,
}

/// The names of a path, each as its bytes.
pub open spec fn path_view(path: Seq<Vec<u8>>) -> Seq<Seq<u8>> {
    path.map_values(|name: Vec<u8>| name@)
}

impl View for ScopedStore {
    type V = Seq<Seq<u8>>;

    open spec fn view(&self) -> Seq<Seq<u8>> {
        path_view(self.path@)
    }
}

/// A fresh copy of a path.
fn copy_path(path: &Vec<Vec<u8>>) -> (copy: Vec<Vec<u8>>)
    ensures
        path_view(copy@) == path_view(path@),
{
    let mut copy: Vec<Vec<u8>> = Vec::new();
    let mut i: usize = 0;
    while i < path.len()
        invariant
            i <= path.len(),
            copy.len() == i,
            forall|k: int| 0 <= k < i ==> (#[trigger] copy[k])@ == path[k]@,
        decreases path.len() - i,
    {
        copy.push(copy_bytes(path[i].as_slice()));
        i += 1;
    }
    assert(path_view(copy@) =~= path_view(path@));
    copy
}

/// Whether two paths hold the same names.
fn same_path(a: &Vec<Vec<u8>>, b: &Vec<Vec<u8>>) -> (same: bool)
    ensures
        same == (path_view(a@) == path_view(b@)),
{
    if a.len() != b.len() {
        assert(path_view(a@).len() != path_view(b@).len());
        return false;
    }
    let mut i: usize = 0;
    while i < a.len()
        invariant
            i <= a.len(),
            a.len() == b.len(),
            forall|k: int| 0 <= k < i ==> (#[trigger] a[k])@ == b[k]@,
        decreases a.len() - i,
    {
        if !bytes_eq(a[i].as_slice(), b[i].as_slice()) {
            assert(path_view(a@)[i as int] != path_view(b@)[i as int]);
            return false;
        }
        i += 1;
    }
    assert(path_view(a@) =~= path_view(b@));
    true
}

impl ScopedStore {
    /// The outermost bucket.
    pub fn root() -> (scope: ScopedStore)
        ensures
            scope@ == Seq::<Seq<u8>>::empty(),
    {
        let scope = ScopedStore { path: Vec::new() };
        assert(scope@ =~= Seq::<Seq<u8>>::empty());
        scope
    }

    /// The bucket `name` inside this one.
    pub fn bucket(&self, name: &[u8]) -> (scope: ScopedStore)
        ensures
            scope@ == self@.push(name@),
    {
        let mut path = copy_path(&self.path);
        path.push(copy_bytes(name));
        let scope = ScopedStore { path };
        assert(scope@ =~= self@.push(name@));
        scope
    }
}

/// The entries of one bucket.
#[derive(Debug)]
struct Bucket<V> {
    path: Vec<Vec<u8>>,
    entries: Vec<RangeEntry<V>>,
}

/// The interval store.
#[derive(Debug)]
pub struct IntervalStore<V> {
    buckets: Vec<Bucket<V>>,
    nothing: Vec<RangeEntry<V>>,
}

impl<V> IntervalStore<V> {
    spec fn bucket_at(&self, b: int, path: Seq<Seq<u8>>) -> bool {
        0 <= b < self.buckets.len() && path_view(self.buckets[b].path@) == path
    }

    #[verifier::type_invariant]
    spec fn inv(&self) -> bool {
        &&& self.nothing@.len() == 0
        &&& forall|b: int|
            0 <= b < self.buckets.len() ==> disjoint_ascending((#[trigger] self.buckets[b]).entries@)
        &&& forall|a: int, b: int|
            0 <= a < b < self.buckets.len() ==> path_view((#[trigger] self.buckets[a]).path@)
                != path_view((#[trigger] self.buckets[b]).path@)
    }

    /// The entries of the bucket at `path`, in the order of their starts. A
    /// bucket that was never written holds no entry.
    pub closed spec fn contents(&self, path: Seq<Seq<u8>>) -> Seq<RangeEntry<V>> {
        if exists|b: int| self.bucket_at(b, path) {
            self.buckets[choose|b: int| self.bucket_at(b, path)].entries@
        } else {
            Seq::empty()
        }
    }

    /// The store without an entry.
    pub fn new() -> (store: IntervalStore<V>)
        ensures
            forall|path: Seq<Seq<u8>>| store.contents(path) == Seq::<RangeEntry<V>>::empty(),
    {
        IntervalStore { buckets: Vec::new(), nothing: Vec::new() }
    }

    /// The bucket `name` of the store.
    pub fn bucket(&self, name: &[u8]) -> (scope: ScopedStore)
        ensures
            scope@ == seq![name@],
    {
        let scope = ScopedStore::root().bucket(name);
        assert(scope@ =~= seq![name@]);
        scope
    }

    /// The place of the bucket at `path`, if it was written.
    fn find_bucket(&self, path: &Vec<Vec<u8>>) -> (found: Option<usize>)
        ensures
            found matches Some(b) ==> self.bucket_at(b as int, path_view(path@)) && self.contents(
                path_view(path@),
            ) == self.buckets[b as int].entries@,
            found is None ==> (forall|b: int| !self.bucket_at(b, path_view(path@)))
                && self.contents(path_view(path@)) == Seq::<RangeEntry<V>>::empty(),
    {
        proof {
            use_type_invariant(self);
        }
        let mut b: usize = 0;
        while b < self.buckets.len()
            invariant
                b <= self.buckets.len(),
                forall|k: int| 0 <= k < b ==> !self.bucket_at(k, path_view(path@)),
            decreases self.buckets.len() - b,
        {
            if same_path(&self.buckets[b].path, path) {
                proof {
                    use_type_invariant(self);
                    let p = path_view(path@);
                    assert(self.bucket_at(b as int, p));
                    let c = choose|c: int| self.bucket_at(c, p);
                    assert(c == b) by {
                        if c < b {
                            assert(path_view(self.buckets[c].path@) != path_view(
                                self.buckets[b as int].path@,
                            ));
                        } else if c > b {
                            assert(path_view(self.buckets[b as int].path@) != path_view(
                                self.buckets[c].path@,
                            ));
                        }
                    }
                }
                return Some(b);
            }
            b += 1;
        }
        None
    }

    /// The entries of the bucket `scope` that share a coordinate with
    /// `[start, end)`, in the order of their starts.
    pub fn get(&self, scope: &ScopedStore, start: u64, end: u64) -> (found: &[RangeEntry<V>])
        ensures
            found@ == intersecting(self.contents(scope@), start, end),
            disjoint_ascending(self.contents(scope@)),
    {
        proof {
            use_type_invariant(self);
        }
        if start >= end {
            proof {
                let entries = self.contents(scope@);
                lemma_intersecting_is_subrange(entries, start, end, 0, 0);
                assert(entries.subrange(0, 0) =~= self.nothing@);
            }
            return self.nothing.as_slice();
        }
        match self.find_bucket(&scope.path) {
            None => {
                assert(self.nothing@ =~= intersecting(self.contents(scope@), start, end));
                self.nothing.as_slice()
            },
            Some(b) => {
                let entries = &self.buckets[b].entries;
                let mut lo: usize = 0;
                while lo < entries.len() && entries[lo].end <= start
                    invariant
                        lo <= entries.len(),
                        forall|k: int| 0 <= k < lo ==> (#[trigger] entries[k]).end <= start,
                    decreases entries.len() - lo,
                {
                    lo += 1;
                }
                let mut hi: usize = lo;
                while hi < entries.len() && entries[hi].start < end
                    invariant
                        start < end,
                        lo <= hi <= entries.len(),
                        disjoint_ascending(entries@),
                        forall|k: int| 0 <= k < lo ==> (#[trigger] entries[k]).end <= start,
                        lo < entries.len() ==> start < entries[lo as int].end,
                        forall|k: int| lo <= k < hi ==> (#[trigger] entries[k]).hits(start, end),
                    decreases entries.len() - hi,
                {
                    proof {
                        if hi > lo {
                            assert(entries[lo as int].end <= entries[hi as int].start);
                        }
                    }
                    hi += 1;
                }
                proof {
                    assert forall|k: int| 0 <= k < entries.len() && !(lo <= k < hi) implies !(
                    #[trigger] entries[k]).hits(start, end) by {
                        if k >= hi {
                            if k > hi {
                                assert(entries[hi as int].end <= entries[k].start);
                            }
                        }
                    }
                    lemma_intersecting_is_subrange(entries@, start, end, lo as int, hi as int);
                }
                slice_subrange(entries.as_slice(), lo, hi)
            },
        }
    }

    /// Takes the buckets out of the store, which is left without any.
    fn take_buckets(&mut self) -> (buckets: Vec<Bucket<V>>)
        ensures
            buckets == old(self).buckets,
            final(self).buckets@.len() == 0,
            final(self).nothing == old(self).nothing,
    {
        proof {
            use_type_invariant(&*self);
        }
        let mut buckets: Vec<Bucket<V>> = Vec::new();
        core::mem::swap(&mut self.buckets, &mut buckets);
        buckets
    }

    /// All the entries of the bucket `scope`, in the order of their starts.
    pub fn all(&self, scope: &ScopedStore) -> (found: &[RangeEntry<V>])
        ensures
            found@ == self.contents(scope@),
            disjoint_ascending(self.contents(scope@)),
    {
        proof {
            use_type_invariant(self);
        }
        match self.find_bucket(&scope.path) {
            None => {
                assert(self.nothing@ =~= self.contents(scope@));
                self.nothing.as_slice()
            },
            Some(b) => self.buckets[b].entries.as_slice(),
        }
    }

    proof fn lemma_contents_ascend(&self, path: Seq<Seq<u8>>)
        requires
            self.inv(),
        ensures
            disjoint_ascending(self.contents(path)),
    {
        if exists|b: int| self.bucket_at(b, path) {
            let b = choose|b: int| self.bucket_at(b, path);
            assert(disjoint_ascending(self.buckets[b].entries@));
        }
    }

    proof fn lemma_bucket_contents(&self, b: int)
        requires
            self.inv(),
            0 <= b < self.buckets.len(),
        ensures
            self.contents(path_view(self.buckets[b].path@)) == self.buckets[b].entries@,
    {
        let p = path_view(self.buckets[b].path@);
        assert(self.bucket_at(b, p));
        let c = choose|c: int| self.bucket_at(c, p);
        if c < b {
            assert(path_view(self.buckets[c].path@) != path_view(self.buckets[b].path@));
        } else if c > b {
            assert(path_view(self.buckets[b].path@) != path_view(self.buckets[c].path@));
        }
    }

    /// Two stores whose buckets other than the one at place `b` are the same
    /// hold the same entries at every path but that of `b`.
    proof fn lemma_other_buckets(&self, after: &IntervalStore<V>, b: int)
        requires
            self.inv(),
            after.inv(),
            0 <= b < after.buckets.len(),
            self.buckets.len() == after.buckets.len() || (self.buckets.len() + 1
                == after.buckets.len() && b == self.buckets.len()),
            forall|c: int|
                0 <= c < self.buckets.len() && c != b ==> (#[trigger] after.buckets[c])
                    == self.buckets[c],
            b < self.buckets.len() ==> path_view(after.buckets[b].path@) == path_view(
                self.buckets[b].path@,
            ),
        ensures
            forall|path: Seq<Seq<u8>>|
                path != path_view(after.buckets[b].path@) ==> after.contents(path)
                    == self.contents(path),
    {
        assert forall|path: Seq<Seq<u8>>| path != path_view(after.buckets[b].path@) implies
            after.contents(path) == self.contents(path) by {
            if exists|c: int| self.bucket_at(c, path) {
                let c = choose|c: int| self.bucket_at(c, path);
                assert(after.buckets[c] == self.buckets[c]);
                self.lemma_bucket_contents(c);
                after.lemma_bucket_contents(c);
            } else if exists|c: int| after.bucket_at(c, path) {
                let c = choose|c: int| after.bucket_at(c, path);
                assert(after.buckets[c] == self.buckets[c]);
                assert(self.bucket_at(c, path));
            }
        }
    }

    /// Puts `value` under `[start, end)` in the bucket `scope`. Fails, and
    /// leaves the store as it is, when the interval holds no coordinate or
    /// shares one with an entry of the bucket.
    pub fn put(&mut self, scope: &ScopedStore, start: u64, end: u64, value: V) -> (done: Result<
        (),
        Error,
    >)
        ensures
            disjoint_ascending(final(self).contents(scope@)),
            forall|path: Seq<Seq<u8>>|
                path != scope@ ==> final(self).contents(path) == old(self).contents(path),
            done is Ok <==> start < end && forall|k: int|
                0 <= k < old(self).contents(scope@).len() ==> !(#[trigger] old(self).contents(
                    scope@,
                )[k]).hits(start, end),
            done is Ok ==> exists|k: int|
                0 <= k <= old(self).contents(scope@).len() && final(self).contents(scope@) == old(self).contents(scope@).insert(k, RangeEntry { start, end, value }),
            done matches Err(e) ==> e == Error::StorageError && final(self).contents(scope@) == old(self).contents(scope@),
    {
        proof {
            use_type_invariant(&*self);
        }
        let ghost before = *self;
        let found = self.find_bucket(&scope.path);
        if start >= end {
            return Err(Error::StorageError);
        }
        match found {
            None => {
                let mut entries: Vec<RangeEntry<V>> = Vec::new();
                entries.push(RangeEntry { start, end, value });
                let bucket = Bucket { path: copy_path(&scope.path), entries };
                let mut buckets = self.take_buckets();
                buckets.push(bucket);
                proof {
                    let b = before.buckets.len() as int;
                    assert forall|c: int| 0 <= c < buckets.len() implies disjoint_ascending(
                        (#[trigger] buckets[c]).entries@,
                    ) by {
                        if c != b {
                            assert(buckets[c] == before.buckets[c]);
                        }
                    }
                    assert forall|a: int, c: int| 0 <= a < c < buckets.len() implies path_view(
                        (#[trigger] buckets[a]).path@,
                    ) != path_view((#[trigger] buckets[c]).path@) by {
                        if c == b {
                            assert(!before.bucket_at(a, scope@));
                        } else {
                            assert(path_view(before.buckets[a].path@) != path_view(
                                before.buckets[c].path@,
                            ));
                        }
                    }
                }
                self.buckets = buckets;
                proof {
                    let b = before.buckets.len() as int;
                    assert(self.inv());
                    self.lemma_bucket_contents(b);
                    before.lemma_other_buckets(&*self, b);
                    assert(self.contents(scope@) =~= before.contents(scope@).insert(
                        0,
                        RangeEntry { start, end, value },
                    ));
                }
                Ok(())
            },
            Some(b) => {
                let ghost old_entries = before.buckets[b as int].entries@;
                assert(before.contents(scope@) == old_entries);
                let mut k: usize = 0;
                while k < self.buckets[b].entries.len() && self.buckets[b].entries[k].end <= start
                    invariant
                        *self == before,
                        b < self.buckets.len(),
                        k <= old_entries.len(),
                        old_entries == self.buckets[b as int].entries@,
                        forall|j: int| 0 <= j < k ==> (#[trigger] old_entries[j]).end <= start,
                    decreases old_entries.len() - k,
                {
                    k += 1;
                }
                if k < self.buckets[b].entries.len() && self.buckets[b].entries[k].start < end {
                    assert(old_entries[k as int].hits(start, end));
                    return Err(Error::StorageError);
                }
                proof {
                    assert forall|j: int| 0 <= j < old_entries.len() implies !(
                    #[trigger] old_entries[j]).hits(start, end) by {
                        if j > k {
                            assert(old_entries[k as int].end <= old_entries[j].start);
                        }
                    }
                }
                let mut buckets = self.take_buckets();
                let mut bucket = buckets.remove(b);
                bucket.entries.insert(k, RangeEntry { start, end, value });
                buckets.insert(b, bucket);
                proof {
                    let new_entries = buckets[b as int].entries@;
                    assert(new_entries == old_entries.insert(
                        k as int,
                        RangeEntry { start, end, value },
                    ));
                    assert(disjoint_ascending(new_entries)) by {
                        assert forall|i: int| 0 <= i < new_entries.len() implies (
                        #[trigger] new_entries[i]).start < new_entries[i].end by {
                            if i < k {
                                assert(old_entries[i].start < old_entries[i].end);
                            } else if i > k {
                                assert(old_entries[i - 1].start < old_entries[i - 1].end);
                            }
                        }
                        assert forall|i: int, j: int| 0 <= i < j < new_entries.len() implies (
                        #[trigger] new_entries[i]).end <= (#[trigger] new_entries[j]).start by {
                            let i0 = if i < k { i } else { i - 1 };
                            let j0 = if j < k { j } else { j - 1 };
                            if i != k && j != k {
                                assert(old_entries[i0].end <= old_entries[j0].start);
                            } else if i == k {
                                assert(!old_entries[j0].hits(start, end));
                                if j0 > k {
                                    assert(old_entries[k as int].end <= old_entries[j0].start);
                                }
                            } else {
                                assert(old_entries[i].end <= start);
                            }
                        }
                    }
                    assert forall|c: int| 0 <= c < buckets.len() implies disjoint_ascending(
                        (#[trigger] buckets[c]).entries@,
                    ) by {
                        if c != b {
                            assert(buckets[c] == before.buckets[c]);
                        }
                    }
                    assert forall|a: int, c: int| 0 <= a < c < buckets.len() implies path_view(
                        (#[trigger] buckets[a]).path@,
                    ) != path_view((#[trigger] buckets[c]).path@) by {
                        assert(path_view(before.buckets[a].path@) != path_view(
                            before.buckets[c].path@,
                        ));
                    }
                }
                self.buckets = buckets;
                proof {
                    assert(self.inv());
                    self.lemma_bucket_contents(b as int);
                    before.lemma_other_buckets(&*self, b as int);
                    assert(self.contents(scope@) == before.contents(scope@).insert(
                        k as int,
                        RangeEntry { start, end, value },
                    ));
                }
                Ok(())
            },
        }
    }

    /// Takes the entry that starts at `start` out of the bucket `scope`, if
    /// there is one, and returns its value.
    pub fn remove(&mut self, scope: &ScopedStore, start: u64) -> (taken: Option<V>)
        ensures
            disjoint_ascending(final(self).contents(scope@)),
            forall|path: Seq<Seq<u8>>|
                path != scope@ ==> final(self).contents(path) == old(self).contents(path),
            taken is Some <==> exists|k: int|
                0 <= k < old(self).contents(scope@).len() && (#[trigger] old(self).contents(
                    scope@,
                )[k]).start == start,
            taken matches Some(value) ==> exists|k: int|
                0 <= k < old(self).contents(scope@).len() && (#[trigger] old(self).contents(
                    scope@,
                )[k]).start == start && old(self).contents(scope@)[k].value == value && final(self).contents(scope@) == old(self).contents(scope@).remove(k),
            taken is None ==> final(self).contents(scope@) == old(self).contents(scope@),
    {
        proof {
            use_type_invariant(&*self);
        }
        let ghost before = *self;
        match self.find_bucket(&scope.path) {
            None => None,
            Some(b) => {
                let ghost old_entries = before.buckets[b as int].entries@;
                assert(before.contents(scope@) == old_entries);
                let mut k: usize = 0;
                while k < self.buckets[b].entries.len() && self.buckets[b].entries[k].start != start
                    invariant
                        *self == before,
                        b < self.buckets.len(),
                        k <= old_entries.len(),
                        old_entries == self.buckets[b as int].entries@,
                        forall|j: int| 0 <= j < k ==> (#[trigger] old_entries[j]).start != start,
                    decreases old_entries.len() - k,
                {
                    k += 1;
                }
                if k >= self.buckets[b].entries.len() {
                    assert(forall|j: int|
                        0 <= j < before.contents(scope@).len() ==> (#[trigger] before.contents(
                            scope@,
                        )[j]).start != start);
                    return None;
                }
                let mut buckets = self.take_buckets();
                let mut bucket = buckets.remove(b);
                let entry = bucket.entries.remove(k);
                buckets.insert(b, bucket);
                proof {
                    let new_entries = buckets[b as int].entries@;
                    assert(new_entries == old_entries.remove(k as int));
                    assert(disjoint_ascending(new_entries)) by {
                        assert forall|i: int| 0 <= i < new_entries.len() implies (
                        #[trigger] new_entries[i]).start < new_entries[i].end by {
                            let i0 = if i < k { i } else { i + 1 };
                            assert(old_entries[i0].start < old_entries[i0].end);
                        }
                        assert forall|i: int, j: int| 0 <= i < j < new_entries.len() implies (
                        #[trigger] new_entries[i]).end <= (#[trigger] new_entries[j]).start by {
                            let i0 = if i < k { i } else { i + 1 };
                            let j0 = if j < k { j } else { j + 1 };
                            assert(old_entries[i0].end <= old_entries[j0].start);
                        }
                    }
                    assert forall|c: int| 0 <= c < buckets.len() implies disjoint_ascending(
                        (#[trigger] buckets[c]).entries@,
                    ) by {
                        if c != b {
                            assert(buckets[c] == before.buckets[c]);
                        }
                    }
                    assert forall|a: int, c: int| 0 <= a < c < buckets.len() implies path_view(
                        (#[trigger] buckets[a]).path@,
                    ) != path_view((#[trigger] buckets[c]).path@) by {
                        assert(path_view(before.buckets[a].path@) != path_view(
                            before.buckets[c].path@,
                        ));
                    }
                }
                self.buckets = buckets;
                proof {
                    assert(self.inv());
                    self.lemma_bucket_contents(b as int);
                    before.lemma_other_buckets(&*self, b as int);
                    assert(before.contents(scope@)[k as int].start == start);
                    assert(before.contents(scope@)[k as int].value == entry.value);
                    assert(self.contents(scope@) == before.contents(scope@).remove(k as int));
                }
                Some(entry.value)
            },
        }
    }

    /// Empties the bucket `scope`.
    pub fn delete_all(&mut self, scope: &ScopedStore)
        ensures
            final(self).contents(scope@) == Seq::<RangeEntry<V>>::empty(),
            forall|path: Seq<Seq<u8>>|
                path != scope@ ==> final(self).contents(path) == old(self).contents(path),
    {
        proof {
            use_type_invariant(&*self);
        }
        let ghost before = *self;
        match self.find_bucket(&scope.path) {
            None => {},
            Some(b) => {
                let mut buckets = self.take_buckets();
                let mut bucket = buckets.remove(b);
                bucket.entries = Vec::new();
                buckets.insert(b, bucket);
                proof {
                    assert forall|c: int| 0 <= c < buckets.len() implies disjoint_ascending(
                        (#[trigger] buckets[c]).entries@,
                    ) by {
                        if c != b {
                            assert(buckets[c] == before.buckets[c]);
                        }
                    }
                    assert forall|a: int, c: int| 0 <= a < c < buckets.len() implies path_view(
                        (#[trigger] buckets[a]).path@,
                    ) != path_view((#[trigger] buckets[c]).path@) by {
                        assert(path_view(before.buckets[a].path@) != path_view(
                            before.buckets[c].path@,
                        ));
                    }
                }
                self.buckets = buckets;
                proof {
                    assert(self.inv());
                    self.lemma_bucket_contents(b as int);
                    before.lemma_other_buckets(&*self, b as int);
                    assert(self.contents(scope@) =~= Seq::<RangeEntry<V>>::empty());
                }
            },
        }
    }

    /// Takes out of the bucket `scope` the entries that start where one of
    /// `starts` is.
    pub fn remove_starts(&mut self, scope: &ScopedStore, starts: &Vec<u64>)
        ensures
            disjoint_ascending(old(self).contents(scope@)),
            disjoint_ascending(final(self).contents(scope@)),
            forall|path: Seq<Seq<u8>>|
                path != scope@ ==> final(self).contents(path) == old(self).contents(path),
            final(self).contents(scope@) == drained(
                old(self).contents(scope@),
                entry_start(),
                starts@,
            ),
    {
        let ghost before = *self;
        proof {
            use_type_invariant(&*self);
            before.lemma_contents_ascend(scope@);
        }
        let mut i: usize = 0;
        while i < starts.len()
            invariant
                i <= starts.len(),
                disjoint_ascending(self.contents(scope@)),
                forall|path: Seq<Seq<u8>>|
                    path != scope@ ==> self.contents(path) == before.contents(path),
                self.contents(scope@) == drained(
                    before.contents(scope@),
                    entry_start(),
                    starts@.take(i as int),
                ),
            decreases starts.len() - i,
        {
            let ghost current = self.contents(scope@);
            let start = starts[i];
            let taken = self.remove(scope, start);
            proof {
                assert(starts@.take(i + 1).drop_last() =~= starts@.take(i as int));
                assert(starts@.take(i + 1).last() == start);
                if taken is Some {
                    let k = choose|k: int|
                        0 <= k < current.len() && (#[trigger] current[k]).start == start
                            && self.contents(scope@) == current.remove(k);
                    assert(entry_start::<V>()(current[k]) == start);
                    let c = choose|c: int|
                        0 <= c < current.len() && entry_start::<V>()(#[trigger] current[c]) == start;
                    if c < k {
                        assert(current[c].end <= current[k].start);
                    } else if c > k {
                        assert(current[k].end <= current[c].start);
                    }
                } else {
                    assert forall|c: int| 0 <= c < current.len() implies entry_start::<V>()(
                        #[trigger] current[c],
                    ) != start by {
                        assert(current[c].start != start);
                    }
                }
                assert(self.contents(scope@) == without_start(current, entry_start(), start));
            }
            i += 1;
        }
        assert(starts@.take(starts@.len() as int) =~= starts@);
    }
}

} // verus!
