//! The snap store: a keyed collection of items, each item a contiguous run of
//! signed 32-bit words in one shared backing buffer, plus the append-only
//! `Builder` facade and the `Items` cursor.
//!
//! The entry table keeps `(key, start, end)` ranges that tile the buffer in
//! order: entry `i + 1` starts where entry `i` ends, and the last entry ends
//! at the buffer's length.  Keys are unique.  This is `wf`, the invariant all
//! operations preserve.

use vstd::prelude::*;

use crate::format::spec_key;
use crate::format::wadd;
use crate::format::wsum;
use crate::format::MAX_SNAPSHOT_WORDS;

verus! {

/// Fatal decode/encode errors; decoding aborts on each of these.
#[derive(Clone, Copy, Debug, PartialEq, Eq, Structural)]
pub enum Error {
    UnexpectedEnd,
    IntOutOfRange,
    DeletedItemsUnpacking,
    ItemDiffsUnpacking,
    TypeIdRange,
    IdRange,
    NegativeSize,
    TooLongDiff,
    TooLongSnap,
    DeltaDifferingSizes,
    OffsetsUnpacking,
    InvalidOffset,
    ItemsUnpacking,
    DuplicateKey,
}

/// Errors of the append-only `Builder`.
#[derive(Clone, Copy, Debug, PartialEq, Eq, Structural)]
pub enum BuilderError {
    DuplicateKey,
    TooLongSnap,
}

pub open spec fn spec_builder_error(err: BuilderError) -> Error {
    match err {
        BuilderError::DuplicateKey => Error::DuplicateKey,
        BuilderError::TooLongSnap => Error::TooLongSnap,
    }
}

impl From<BuilderError> for Error {
    fn from(err: BuilderError) -> (r: Error)
        ensures
            r == spec_builder_error(err),
    {
        match err {
            BuilderError::DuplicateKey => Error::DuplicateKey,
            BuilderError::TooLongSnap => Error::TooLongSnap,
        }
    }
}

impl vstd::std_specs::convert::FromSpecImpl<BuilderError> for Error {
    open spec fn obeys_from_spec() -> bool {
        true
    }

    open spec fn from_spec(err: BuilderError) -> Error {
        spec_builder_error(err)
    }
}

/// Index of the entry holding `k`, or `-1` when no entry does.
pub open spec fn find_index(s: Seq<(i32, usize, usize)>, k: i32) -> int
    decreases s.len(),
{
    if s.len() == 0 {
        -1
    } else if s[0].0 == k {
        0
    } else {
        let r = find_index(s.drop_first(), k);
        if r < 0 {
            -1
        } else {
            r + 1
        }
    }
}

pub proof fn lemma_find_index(s: Seq<(i32, usize, usize)>, k: i32)
    ensures
        find_index(s, k) >= 0 ==> find_index(s, k) < s.len() && s[find_index(s, k)].0 == k,
        find_index(s, k) < 0 ==> find_index(s, k) == -1 && forall|j: int|
            0 <= j < s.len() ==> s[j].0 != k,
        find_index(s, k) >= 0 ==> forall|j: int| 0 <= j < find_index(s, k) ==> s[j].0 != k,
    decreases s.len(),
{
    if s.len() > 0 && s[0].0 != k {
        let t = s.drop_first();
        lemma_find_index(t, k);
        if find_index(s, k) < 0 {
            assert forall|j: int| 0 <= j < s.len() implies s[j].0 != k by {
                if j > 0 {
                    assert(t[j - 1] == s[j]);
                }
            }
        } else {
            assert forall|j: int| 0 <= j < find_index(s, k) implies s[j].0 != k by {
                if j > 0 {
                    assert(t[j - 1] == s[j]);
                }
            }
        }
    }
}

/// The first index whose key is `k` is what `find_index` returns.
pub proof fn lemma_find_index_first(s: Seq<(i32, usize, usize)>, k: i32, i: int)
    requires
        0 <= i < s.len(),
        s[i].0 == k,
        forall|j: int| 0 <= j < i ==> s[j].0 != k,
    ensures
        find_index(s, k) == i,
    decreases s.len(),
{
    if i > 0 {
        lemma_find_index_first(s.drop_first(), k, i - 1);
    }
}

pub proof fn lemma_find_index_push(s: Seq<(i32, usize, usize)>, e: (i32, usize, usize), k: i32)
    ensures
        find_index(s.push(e), k) == (if find_index(s, k) >= 0 {
            find_index(s, k)
        } else if e.0 == k {
            s.len() as int
        } else {
            -1
        }),
    decreases s.len(),
{
    lemma_find_index(s, k);
    if find_index(s, k) >= 0 {
        lemma_find_index_first(s.push(e), k, find_index(s, k));
    } else if e.0 == k {
        lemma_find_index_first(s.push(e), k, s.len() as int);
    } else {
        lemma_find_index(s.push(e), k);
        if find_index(s.push(e), k) >= 0 {
            assert(s.push(e)[find_index(s.push(e), k)].0 == k);
        }
    }
}

/// Index of the first record keyed `k`, or `-1` when none is.
pub open spec fn find_index_keyed<T>(s: Seq<(i32, T)>, k: i32) -> int
    decreases s.len(),
{
    if s.len() == 0 {
        -1
    } else if s[0].0 == k {
        0
    } else {
        let r = find_index_keyed(s.drop_first(), k);
        if r < 0 {
            -1
        } else {
            r + 1
        }
    }
}

pub proof fn lemma_find_index_keyed<T>(s: Seq<(i32, T)>, k: i32)
    ensures
        find_index_keyed(s, k) >= 0 ==> find_index_keyed(s, k) < s.len() && s[find_index_keyed(
            s,
            k,
        )].0 == k,
        find_index_keyed(s, k) < 0 ==> find_index_keyed(s, k) == -1 && forall|j: int|
            0 <= j < s.len() ==> s[j].0 != k,
    decreases s.len(),
{
    if s.len() > 0 && s[0].0 != k {
        let t = s.drop_first();
        lemma_find_index_keyed(t, k);
        if find_index_keyed(s, k) < 0 {
            assert forall|j: int| 0 <= j < s.len() implies s[j].0 != k by {
                if j > 0 {
                    assert(t[j - 1] == s[j]);
                }
            }
        }
    }
}

pub proof fn lemma_find_index_keyed_first<T>(s: Seq<(i32, T)>, k: i32, i: int)
    requires
        0 <= i < s.len(),
        s[i].0 == k,
        forall|j: int| 0 <= j < i ==> s[j].0 != k,
    ensures
        find_index_keyed(s, k) == i,
    decreases s.len(),
{
    if i > 0 {
        lemma_find_index_keyed_first(s.drop_first(), k, i - 1);
    }
}

/// A keyed collection of items over one shared word buffer.
#[derive(Clone, Debug)]
pub struct Snap {
    /// `(key, start, end)` ranges into `buf`, tiling it in order.
    pub entries: Vec<(i32, usize, usize)>,
    /// The shared backing buffer of item words.
    pub buf: Vec<i32>,
}

impl Snap {
    pub open spec fn num_items(self) -> int {
        self.entries@.len() as int
    }

    pub open spec fn entry_key(self, i: int) -> i32 {
        self.entries@[i].0
    }

    pub open spec fn entry_data(self, i: int) -> Seq<i32> {
        self.buf@.subrange(self.entries@[i].1 as int, self.entries@[i].2 as int)
    }

    pub open spec fn entry_len(self, i: int) -> int {
        self.entries@[i].2 - self.entries@[i].1
    }

    /// Well-formedness: unique keys; ranges tile the buffer in entry order;
    /// the buffer respects the snapshot size cap.
    pub open spec fn wf(self) -> bool {
        &&& (forall|i: int, j: int|
            0 <= i < j < self.entries@.len() ==> self.entries@[i].0 != self.entries@[j].0)
        &&& (forall|i: int|
            0 <= i < self.entries@.len() ==> {
                &&& #[trigger] self.entries@[i].1 == (if i == 0 {
                    0int
                } else {
                    self.entries@[i - 1].2 as int
                })
                &&& self.entries@[i].1 <= self.entries@[i].2 <= self.buf@.len()
            })
        &&& (if self.entries@.len() == 0 {
            self.buf@.len() == 0
        } else {
            self.entries@[self.entries@.len() - 1].2 == self.buf@.len()
        })
        &&& self.buf@.len() <= MAX_SNAPSHOT_WORDS
    }

    pub open spec fn find_key(self, k: i32) -> int {
        find_index(self.entries@, k)
    }

    pub open spec fn has_key(self, k: i32) -> bool {
        self.find_key(k) >= 0
    }

    pub open spec fn data_for(self, k: i32) -> Seq<i32> {
        self.entry_data(self.find_key(k))
    }

    /// The snap as a mapping from key to item data.
    pub open spec fn as_map(self) -> Map<i32, Seq<i32>> {
        Map::new(|k: i32| self.has_key(k), |k: i32| self.data_for(k))
    }

    pub open spec fn key_seq(self) -> Seq<i32> {
        Seq::new(self.entries@.len(), |i: int| self.entries@[i].0)
    }

    /// A new snap with no items.
    pub fn empty() -> (s: Snap)
        ensures
            s.wf(),
            s.entries@ =~= Seq::<(i32, usize, usize)>::empty(),
            s.buf@ =~= Seq::<i32>::empty(),
    {
        Snap { entries: Vec::new(), buf: Vec::new() }
    }

    pub(crate) fn clear(&mut self)
        ensures
            final (self).wf(),
            final (self).entries@ =~= Seq::<(i32, usize, usize)>::empty(),
            final (self).buf@ =~= Seq::<i32>::empty(),
    {
        self.entries.clear();
        self.buf.clear();
    }

    /// Index of the entry holding `k`, scanning in entry order.
    pub(crate) fn find_entry(&self, k: i32) -> (r: Option<usize>)
        ensures
            match r {
                Some(i) => i == self.find_key(k) && i < self.entries@.len()
                    && self.entries@[i as int].0 == k,
                None => self.find_key(k) == -1,
            },
    {
        let n = self.entries.len();
        let mut i: usize = 0;
        while i < n
            invariant
                i <= n,
                n == self.entries@.len(),
                forall|j: int| 0 <= j < i ==> self.entries@[j].0 != k,
            decreases n - i,
        {
            if self.entries[i].0 == k {
                proof {
                    lemma_find_index_first(self.entries@, k, i as int);
                }
                return Some(i);
            }
            i += 1;
        }
        proof {
            lemma_find_index(self.entries@, k);
        }
        None
    }

    /// Borrowed view of the item stored under `(type_id, id)`, or `None`.
    pub fn item(&self, type_id: u16, id: u16) -> (r: Option<&[i32]>)
        requires
            self.wf(),
        ensures
            match r {
                Some(d) => self.has_key(spec_key(type_id, id)) && d@ == self.data_for(
                    spec_key(type_id, id),
                ),
                None => !self.has_key(spec_key(type_id, id)),
            },
    {
        let k = crate::format::key(type_id, id);
        match self.find_entry(k) {
            Some(i) => {
                let (_, start, end) = self.entries[i];
                Some(vstd::slice::slice_subrange(self.buf.as_slice(), start, end))
            },
            None => None,
        }
    }

    /// A cursor over the items in entry order.
    pub fn items(&self) -> (r: Items<'_>)
        ensures
            r.snap == self,
            r.pos == 0,
    {
        Items { snap: self, pos: 0 }
    }

    /// The legacy checksum: the wrapping i32 sum of all buffer words, in
    /// buffer order.
    pub fn crc(&self) -> (r: i32)
        ensures
            r == wsum(self.buf@),
    {
        let n = self.buf.len();
        let mut acc: i32 = 0;
        let mut i: usize = 0;
        while i < n
            invariant
                i <= n,
                n == self.buf@.len(),
                acc == wsum(self.buf@.take(i as int)),
            decreases n - i,
        {
            proof {
                assert(self.buf@.take(i + 1).drop_last() =~= self.buf@.take(i as int));
                assert(self.buf@.take(i + 1).last() == self.buf@[i as int]);
            }
            acc = acc.wrapping_add(self.buf[i]);
            i += 1;
        }
        proof {
            assert(self.buf@.take(n as int) =~= self.buf@);
        }
        acc
    }

    /// Converts into a cleared `Builder`, keeping the allocations.
    pub fn recycle(self) -> (b: Builder)
        ensures
            b.snap.wf(),
            b.snap.entries@ =~= Seq::<(i32, usize, usize)>::empty(),
            b.snap.buf@ =~= Seq::<i32>::empty(),
    {
        let mut snap = self;
        snap.clear();
        Builder { snap }
    }

    /// Appends a fresh item at the buffer tail; the key must be vacant.
    pub(crate) fn insert_new(&mut self, k: i32, data: &[i32]) -> (r: Result<(), BuilderError>)
        requires
            old(self).wf(),
        ensures
            final (self).wf(),
            match r {
                Ok(()) => {
                    &&& old(self).find_key(k) == -1
                    &&& old(self).buf@.len() + data@.len() <= MAX_SNAPSHOT_WORDS
                    &&& final (self).entries@ =~= old(self).entries@.push(
                        (k, old(self).buf@.len() as usize, (old(self).buf@.len() + data@.len()) as usize),
                    )
                    &&& final (self).buf@ =~= old(self).buf@ + data@
                },
                Err(BuilderError::DuplicateKey) => {
                    &&& old(self).find_key(k) >= 0
                    &&& *final (self) == *old(self)
                },
                Err(BuilderError::TooLongSnap) => {
                    &&& old(self).find_key(k) == -1
                    &&& old(self).buf@.len() + data@.len() > MAX_SNAPSHOT_WORDS
                    &&& *final (self) == *old(self)
                },
            },
    {
        match self.find_entry(k) {
            Some(_) => Err(BuilderError::DuplicateKey),
            None => {
                let offset = self.buf.len();
                if data.len() > MAX_SNAPSHOT_WORDS - offset {
                    return Err(BuilderError::TooLongSnap);
                }
                let start = offset;
                let end = offset + data.len();
                self.buf.extend_from_slice(data);
                self.entries.push((k, start, end));
                proof {
                    let oe = old(self).entries@;
                    let ne = self.entries@;
                    assert forall|i: int, j: int| 0 <= i < j < ne.len() implies ne[i].0 != ne[j].0 by {
                        if j < oe.len() {
                        } else {
                            lemma_find_index(oe, k);
                        }
                    }
                    assert forall|i: int| 0 <= i < ne.len() implies {
                        &&& #[trigger] ne[i].1 == (if i == 0 { 0int } else { ne[i - 1].2 as int })
                        &&& ne[i].1 <= ne[i].2 <= self.buf@.len()
                    } by {}
                }
                Ok(())
            },
        }
    }

    /// Overwrites the words of entry `idx` in place.
    pub(crate) fn write_entry(&mut self, idx: usize, data: &[i32])
        requires
            old(self).wf(),
            idx < old(self).entries@.len(),
            data@.len() == old(self).entry_len(idx as int),
        ensures
            final (self).wf(),
            final (self).entries@ == old(self).entries@,
            final (self).buf@.len() == old(self).buf@.len(),
            final (self).entry_data(idx as int) == data@,
            forall|j: int|
                0 <= j < old(self).buf@.len() && !(old(self).entries@[idx as int].1 <= j
                    < old(self).entries@[idx as int].2) ==> final (self).buf@[j] == old(
                self,
            ).buf@[j],
    {
        let (_, start, end) = self.entries[idx];
        let mut i: usize = 0;
        let n = data.len();
        while i < n
            invariant
                i <= n,
                n == data@.len(),
                n == end - start,
                start == old(self).entries@[idx as int].1,
                end == old(self).entries@[idx as int].2,
                idx < old(self).entries@.len(),
                old(self).wf(),
                self.entries@ == old(self).entries@,
                self.buf@.len() == old(self).buf@.len(),
                forall|j: int| start <= j < start + i ==> self.buf@[j] == data@[j - start],
                forall|j: int|
                    0 <= j < self.buf@.len() && !(start <= j < start + i) ==> self.buf@[j] == old(
                        self,
                    ).buf@[j],
            decreases n - i,
        {
            let v = *vstd::slice::slice_index_get(data, i);
            self.buf[start + i] = v;
            i += 1;
        }
        proof {
            assert(self.entry_data(idx as int) =~= data@);
        }
    }
}

/// For a well-formed snap, the entry holding entry `i`'s key is entry `i`.
pub proof fn lemma_key_at(s: Snap, i: int)
    requires
        s.wf(),
        0 <= i < s.entries@.len(),
    ensures
        s.find_key(s.entry_key(i)) == i,
        s.has_key(s.entry_key(i)),
        s.data_for(s.entry_key(i)) == s.entry_data(i),
{
    lemma_find_index_first(s.entries@, s.entry_key(i), i);
}

/// Entry ranges are ordered: an earlier entry ends before a later one starts.
pub proof fn lemma_range_order(s: Snap, i: int, j: int)
    requires
        s.wf(),
        0 <= i < j < s.entries@.len(),
    ensures
        s.entries@[i].2 <= s.entries@[j].1,
    decreases j - i,
{
    if i + 1 < j {
        lemma_range_order(s, i, j - 1);
    }
}

/// Appending a fresh item extends the snap's mapping by exactly that key.
pub proof fn lemma_as_map_push(pre: Snap, post: Snap, k: i32, data: Seq<i32>)
    requires
        pre.wf(),
        pre.find_key(k) == -1,
        pre.buf@.len() + data.len() <= usize::MAX,
        post.entries@ == pre.entries@.push(
            (k, pre.buf@.len() as usize, (pre.buf@.len() + data.len()) as usize),
        ),
        post.buf@ == pre.buf@ + data,
    ensures
        post.as_map() =~= pre.as_map().insert(k, data),
{
    assert forall|k2: i32| true implies {
        &&& post.has_key(k2) <==> (pre.has_key(k2) || k2 == k)
        &&& (post.has_key(k2) ==> post.data_for(k2) == (if k2 == k {
            data
        } else {
            pre.data_for(k2)
        }))
    } by {
        lemma_find_index_push(pre.entries@, post.entries@[pre.entries@.len() as int], k2);
        lemma_find_index(pre.entries@, k2);
        if pre.has_key(k2) {
            let i = pre.find_key(k2);
            assert(post.entries@[i] == pre.entries@[i]);
            assert(post.entry_data(i) =~= pre.entry_data(i));
        } else if k2 == k {
            assert(post.find_key(k) == pre.entries@.len());
            assert(post.entry_data(pre.entries@.len() as int) =~= data);
        }
    }
    assert(post.as_map() =~= pre.as_map().insert(k, data));
}

/// Overwriting one entry's words in place updates the snap's mapping at
/// exactly that entry's key.
pub proof fn lemma_as_map_write(pre: Snap, post: Snap, idx: int, data: Seq<i32>)
    requires
        pre.wf(),
        0 <= idx < pre.entries@.len(),
        data.len() == pre.entry_len(idx),
        post.entries@ == pre.entries@,
        post.buf@.len() == pre.buf@.len(),
        post.entry_data(idx) == data,
        forall|j: int|
            0 <= j < pre.buf@.len() && !(pre.entries@[idx].1 <= j < pre.entries@[idx].2)
                ==> post.buf@[j] == pre.buf@[j],
    ensures
        post.as_map() =~= pre.as_map().insert(pre.entry_key(idx), data),
{
    assert forall|k2: i32| true implies {
        &&& post.has_key(k2) <==> pre.has_key(k2)
        &&& (post.has_key(k2) ==> post.data_for(k2) == (if k2 == pre.entry_key(idx) {
            data
        } else {
            pre.data_for(k2)
        }))
    } by {
        if pre.has_key(k2) {
            let i = pre.find_key(k2);
            lemma_find_index(pre.entries@, k2);
            if k2 == pre.entry_key(idx) {
                lemma_key_at(pre, idx);
                assert(i == idx);
            } else {
                assert(i != idx);
                if i < idx {
                    lemma_range_order(pre, i, idx);
                } else {
                    lemma_range_order(pre, idx, i);
                }
                assert(post.entry_data(i) =~= pre.entry_data(i));
            }
        }
    }
    lemma_key_at(pre, idx);
    assert(post.as_map() =~= pre.as_map().insert(pre.entry_key(idx), data));
}

/// The data of the first `n` items, concatenated in entry order.
pub open spec fn concat_item_data(s: Snap, n: int) -> Seq<i32>
    decreases n,
{
    if n <= 0 {
        Seq::empty()
    } else {
        concat_item_data(s, n - 1) + s.entry_data(n - 1)
    }
}

/// The buffer is the concatenation of all item data in buffer order, so the
/// checksum `crc` is the wrapping sum of exactly those words.
pub proof fn lemma_crc_concat(s: Snap)
    requires
        s.wf(),
    ensures
        concat_item_data(s, s.num_items()) == s.buf@,
        wsum(concat_item_data(s, s.num_items())) == wsum(s.buf@),
{
    lemma_concat_prefix(s, s.num_items());
    assert(concat_item_data(s, s.num_items()) =~= s.buf@);
}

proof fn lemma_concat_prefix(s: Snap, n: int)
    requires
        s.wf(),
        0 <= n <= s.entries@.len(),
    ensures
        concat_item_data(s, n) == s.buf@.take(if n == 0 {
            0int
        } else {
            s.entries@[n - 1].2 as int
        }),
    decreases n,
{
    if n == 0 {
        assert(concat_item_data(s, 0) =~= s.buf@.take(0));
    } else {
        lemma_concat_prefix(s, n - 1);
        assert(concat_item_data(s, n) =~= s.buf@.take(s.entries@[n - 1].2 as int));
    }
}

/// Applies `delta` to `in_` (absent means a zero-filled item) with wrapping
/// addition, producing the output item.
pub open spec fn apply_diff(a: Seq<i32>, d: Seq<i32>) -> Seq<i32> {
    Seq::new(d.len(), |i: int| wadd(a[i], d[i]))
}

/// Element-wise wrapping difference `t - f`.
pub open spec fn diff_words(f: Seq<i32>, t: Seq<i32>) -> Seq<i32> {
    Seq::new(t.len(), |i: int| crate::format::wsub(t[i], f[i]))
}

/// Applying a diff to the item it was computed from restores the target item.
pub proof fn lemma_apply_diff_roundtrip(f: Seq<i32>, t: Seq<i32>)
    requires
        f.len() == t.len(),
    ensures
        apply_diff(f, diff_words(f, t)) =~= t,
{
    assert forall|i: int| 0 <= i < t.len() implies apply_diff(f, diff_words(f, t))[i] == t[i] by {
        crate::format::lemma_wrap_inverse(f[i], t[i]);
    }
}

/// A diff of an item against itself is all zeroes, and applying it is the
/// identity.
pub proof fn lemma_diff_self_zero(t: Seq<i32>)
    ensures
        diff_words(t, t) =~= Seq::new(t.len(), |i: int| 0i32),
        apply_diff(t, diff_words(t, t)) =~= t,
{
    assert forall|i: int| 0 <= i < t.len() implies diff_words(t, t)[i] == 0i32 by {
        crate::format::lemma_wrap_zero(t[i]);
    }
    lemma_apply_diff_roundtrip(t, t);
}

/// Computes the output words of one delta application: `out[i] = (in[i] if
/// present else 0) + delta[i]`, wrapping.  Fails when the existing item's
/// size differs from the diff's.
pub fn apply_delta(in_: Option<&[i32]>, delta: &[i32]) -> (r: Result<Vec<i32>, Error>)
    ensures
        match r {
            Ok(v) => match in_ {
                Some(inp) => inp@.len() == delta@.len() && v@ == apply_diff(inp@, delta@),
                None => v@ == delta@,
            },
            Err(e) => e == Error::DeltaDifferingSizes && (in_ matches Some(inp)
                && inp@.len() != delta@.len()),
        },
{
    let mut out: Vec<i32> = Vec::new();
    match in_ {
        Some(inp) => {
            if inp.len() != delta.len() {
                return Err(Error::DeltaDifferingSizes);
            }
            let n = delta.len();
            let mut i: usize = 0;
            while i < n
                invariant
                    i <= n,
                    n == delta@.len(),
                    n == inp@.len(),
                    out@.len() == i,
                    forall|j: int| 0 <= j < i ==> out@[j] == wadd(inp@[j], delta@[j]),
                decreases n - i,
            {
                let a = *vstd::slice::slice_index_get(inp, i);
                let d = *vstd::slice::slice_index_get(delta, i);
                out.push(a.wrapping_add(d));
                i += 1;
            }
            proof {
                assert(out@ =~= apply_diff(inp@, delta@));
            }
            Ok(out)
        },
        None => {
            out.extend_from_slice(delta);
            Ok(out)
        },
    }
}

/// Computes the diff words of one item: `to - from` element-wise wrapping, or
/// `to` itself when there is no from-item.
pub fn create_delta(from: Option<&[i32]>, to: &[i32]) -> (r: Vec<i32>)
    requires
        from matches Some(f) ==> f@.len() == to@.len(),
    ensures
        r@ == (match from {
            Some(f) => diff_words(f@, to@),
            None => to@,
        }),
{
    let mut out: Vec<i32> = Vec::new();
    match from {
        Some(f) => {
            let n = to.len();
            let mut i: usize = 0;
            while i < n
                invariant
                    i <= n,
                    n == to@.len(),
                    n == f@.len(),
                    out@.len() == i,
                    forall|j: int| 0 <= j < i ==> out@[j] == crate::format::wsub(to@[j], f@[j]),
                decreases n - i,
            {
                let t = *vstd::slice::slice_index_get(to, i);
                let fw = *vstd::slice::slice_index_get(f, i);
                out.push(t.wrapping_sub(fw));
                i += 1;
            }
            proof {
                assert(out@ =~= diff_words(f@, to@));
            }
        },
        None => {
            out.extend_from_slice(to);
        },
    }
    out
}

/// A restartable cursor over a snap's items, in entry order.
pub struct Items<'a> {
    pub snap: &'a Snap,
    pub pos: usize,
}

impl<'a> Items<'a> {
    /// The next item as `(type_id, id, data)`, or `None` at the end.
    pub fn next(&mut self) -> (r: Option<(u16, u16, &'a [i32])>)
        requires
            old(self).snap.wf(),
        ensures
            final (self).snap == old(self).snap,
            match r {
                Some((type_id, id, data)) => {
                    &&& old(self).pos < old(self).snap.entries@.len()
                    &&& final (self).pos == old(self).pos + 1
                    &&& spec_key(type_id, id) == old(self).snap.entry_key(old(self).pos as int)
                    &&& data@ == old(self).snap.entry_data(old(self).pos as int)
                },
                None => {
                    &&& old(self).pos >= old(self).snap.entries@.len()
                    &&& final (self).pos == old(self).pos
                },
            },
    {
        if self.pos < self.snap.entries.len() {
            let (k, start, end) = self.snap.entries[self.pos];
            let data = vstd::slice::slice_subrange(self.snap.buf.as_slice(), start, end);
            let type_id = crate::format::key_to_type_id(k);
            let id = crate::format::key_to_id(k);
            self.pos += 1;
            proof {
                crate::format::lemma_key_unsigned_roundtrip(k);
            }
            Some((type_id, id, data))
        } else {
            None
        }
    }

    /// How many items remain.
    pub fn len(&self) -> (r: usize)
        ensures
            r == (if self.pos <= self.snap.entries@.len() {
                self.snap.entries@.len() - self.pos
            } else {
                0int
            }),
    {
        if self.pos <= self.snap.entries.len() {
            self.snap.entries.len() - self.pos
        } else {
            0
        }
    }
}

/// Append-only facade over a `Snap`.
#[derive(Debug)]
pub struct Builder {
    pub snap: Snap,
}

impl Builder {
    /// A builder over an empty snap.
    pub fn new() -> (b: Builder)
        ensures
            b.snap.wf(),
            b.snap.entries@ =~= Seq::<(i32, usize, usize)>::empty(),
            b.snap.buf@ =~= Seq::<i32>::empty(),
    {
        Builder { snap: Snap::empty() }
    }

    /// Copies `data` into the store under `(type_id, id)`.  Rejects duplicate
    /// keys, and rejects growth past the snapshot size cap; in both failure
    /// cases the snap is left unchanged.
    pub fn add_item(&mut self, type_id: u16, id: u16, data: &[i32]) -> (r: Result<
        (),
        BuilderError,
    >)
        requires
            old(self).snap.wf(),
        ensures
            final (self).snap.wf(),
            match r {
                Ok(()) => {
                    &&& !old(self).snap.has_key(spec_key(type_id, id))
                    &&& old(self).snap.buf@.len() + data@.len() <= MAX_SNAPSHOT_WORDS
                    &&& final (self).snap.entries@ =~= old(self).snap.entries@.push(
                        (
                            spec_key(type_id, id),
                            old(self).snap.buf@.len() as usize,
                            (old(self).snap.buf@.len() + data@.len()) as usize,
                        ),
                    )
                    &&& final (self).snap.buf@ =~= old(self).snap.buf@ + data@
                },
                Err(BuilderError::DuplicateKey) => {
                    &&& old(self).snap.has_key(spec_key(type_id, id))
                    &&& *final (self) == *old(self)
                },
                Err(BuilderError::TooLongSnap) => {
                    &&& !old(self).snap.has_key(spec_key(type_id, id))
                    &&& old(self).snap.buf@.len() + data@.len() > MAX_SNAPSHOT_WORDS
                    &&& *final (self) == *old(self)
                },
            },
    {
        let k = crate::format::key(type_id, id);
        self.snap.insert_new(k, data)
    }

    /// Returns the underlying snap.
    pub fn finish(self) -> (s: Snap)
        ensures
            s == self.snap,
    {
        self.snap
    }
}

} // verus!
