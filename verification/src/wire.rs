//! The wire codec: a snap or delta as a sequence of packed signed 32-bit
//! integers, in the defined order.  Snap items are emitted sorted by key,
//! compared as unsigned 32-bit; the decoder tolerates the specified set of
//! malformed inputs by warning instead of failing.
//!
//! The byte-level variable-length integer packing sits outside this crate:
//! the codec produces and consumes the integer sequence itself.

use vstd::prelude::*;

use crate::format::key_unsigned;
use crate::snap::lemma_find_index;
use crate::snap::Error;
use crate::snap::Snap;

verus! {

/// Keys in unsigned-ascending order.
pub open spec fn sorted_by_key_unsigned(s: Seq<i32>) -> bool {
    forall|i: int, j: int| 0 <= i < j < s.len() ==> key_unsigned(s[i]) <= key_unsigned(s[j])
}

pub open spec fn distinct_keys(s: Seq<i32>) -> bool {
    forall|i: int, j: int| 0 <= i < j < s.len() ==> s[i] != s[j]
}

/// `x` inserted into `s` before the first element not unsigned-below it.
pub open spec fn insert_sorted_u(x: i32, s: Seq<i32>) -> Seq<i32>
    decreases s.len(),
{
    if s.len() == 0 {
        seq![x]
    } else if key_unsigned(x) <= key_unsigned(s[0]) {
        seq![x] + s
    } else {
        seq![s[0]] + insert_sorted_u(x, s.drop_first())
    }
}

/// Insertion sort of a key list by unsigned value.
pub open spec fn sort_keys_u(s: Seq<i32>) -> Seq<i32>
    decreases s.len(),
{
    if s.len() == 0 {
        s
    } else {
        insert_sorted_u(s.last(), sort_keys_u(s.drop_last()))
    }
}

pub proof fn lemma_insert_sorted_facts(x: i32, s: Seq<i32>)
    ensures
        insert_sorted_u(x, s).len() == s.len() + 1,
        forall|y: i32|
            #![trigger insert_sorted_u(x, s).contains(y)]
            insert_sorted_u(x, s).contains(y) <==> (s.contains(y) || y == x),
        distinct_keys(s) && !s.contains(x) ==> distinct_keys(insert_sorted_u(x, s)),
        sorted_by_key_unsigned(s) ==> sorted_by_key_unsigned(insert_sorted_u(x, s)),
    decreases s.len(),
{
    let r = insert_sorted_u(x, s);
    if s.len() == 0 {
        assert forall|y: i32| r.contains(y) <==> (s.contains(y) || y == x) by {
            assert(r[0] == x);
        }
    } else if key_unsigned(x) <= key_unsigned(s[0]) {
        assert forall|y: i32| r.contains(y) <==> (s.contains(y) || y == x) by {
            if s.contains(y) {
                let i = choose|i: int| 0 <= i < s.len() && s[i] == y;
                assert(r[i + 1] == y);
            }
            if r.contains(y) {
                let i = choose|i: int| 0 <= i < r.len() && r[i] == y;
                if i > 0 {
                    assert(s[i - 1] == y);
                }
            }
            assert(r[0] == x);
        }
    } else {
        let t = s.drop_first();
        lemma_insert_sorted_facts(x, t);
        let rt = insert_sorted_u(x, t);
        assert(r =~= seq![s[0]] + rt);
        assert forall|y: i32| r.contains(y) <==> (s.contains(y) || y == x) by {
            if s.contains(y) {
                let i = choose|i: int| 0 <= i < s.len() && s[i] == y;
                if i == 0 {
                    assert(r[0] == y);
                } else {
                    assert(t[i - 1] == y);
                    assert(t.contains(y));
                    assert(rt.contains(y));
                    let u = choose|u: int| 0 <= u < rt.len() && rt[u] == y;
                    assert(r[u + 1] == y);
                }
            }
            if y == x {
                assert(rt.contains(y));
                let u = choose|u: int| 0 <= u < rt.len() && rt[u] == y;
                assert(r[u + 1] == y);
            }
            if r.contains(y) {
                let i = choose|i: int| 0 <= i < r.len() && r[i] == y;
                if i == 0 {
                    assert(s[0] == y);
                    assert(s.contains(y));
                } else {
                    assert(rt[i - 1] == y);
                    assert(rt.contains(y));
                    if t.contains(y) {
                        let u = choose|u: int| 0 <= u < t.len() && t[u] == y;
                        assert(s[u + 1] == y);
                        assert(s.contains(y));
                    }
                }
            }
        }
        if distinct_keys(s) && !s.contains(x) {
            assert(distinct_keys(t)) by {
                assert forall|i: int, j: int| 0 <= i < j < t.len() implies t[i] != t[j] by {
                    assert(t[i] == s[i + 1] && t[j] == s[j + 1]);
                }
            }
            assert(!t.contains(x)) by {
                if t.contains(x) {
                    let i = choose|i: int| 0 <= i < t.len() && t[i] == x;
                    assert(s[i + 1] == x);
                }
            }
            assert forall|i: int, j: int| 0 <= i < j < r.len() implies r[i] != r[j] by {
                if i == 0 {
                    assert(rt[j - 1] == r[j]);
                    assert(rt.contains(rt[j - 1]));
                    if r[j] == s[0] {
                        assert(t.contains(s[0]) || s[0] == x);
                        if t.contains(s[0]) {
                            let u = choose|u: int| 0 <= u < t.len() && t[u] == s[0];
                            assert(s[u + 1] == s[0]);
                        }
                    }
                }
            }
        }
        if sorted_by_key_unsigned(s) {
            assert(sorted_by_key_unsigned(t)) by {
                assert forall|i: int, j: int|
                    0 <= i < j < t.len() implies key_unsigned(t[i]) <= key_unsigned(t[j]) by {
                    assert(t[i] == s[i + 1] && t[j] == s[j + 1]);
                }
            }
            assert forall|i: int, j: int|
                0 <= i < j < r.len() implies key_unsigned(r[i]) <= key_unsigned(r[j]) by {
                if i == 0 {
                    assert(r[j] == rt[j - 1]);
                    assert(rt.contains(rt[j - 1]));
                    if rt[j - 1] == x {
                    } else {
                        assert(t.contains(rt[j - 1]));
                        let u = choose|u: int| 0 <= u < t.len() && t[u] == rt[j - 1];
                        assert(s[u + 1] == rt[j - 1]);
                    }
                } else {
                    assert(r[i] == rt[i - 1] && r[j] == rt[j - 1]);
                }
            }
        }
    }
}

pub proof fn lemma_sort_facts(s: Seq<i32>)
    ensures
        sort_keys_u(s).len() == s.len(),
        forall|y: i32|
            #![trigger sort_keys_u(s).contains(y)]
            sort_keys_u(s).contains(y) <==> s.contains(y),
        distinct_keys(s) ==> distinct_keys(sort_keys_u(s)),
        sorted_by_key_unsigned(sort_keys_u(s)),
    decreases s.len(),
{
    if s.len() > 0 {
        let t = s.drop_last();
        lemma_sort_facts(t);
        lemma_insert_sorted_facts(s.last(), sort_keys_u(t));
        assert forall|y: i32| sort_keys_u(s).contains(y) <==> s.contains(y) by {
            if s.contains(y) {
                let i = choose|i: int| 0 <= i < s.len() && s[i] == y;
                if i < s.len() - 1 {
                    assert(t[i] == y);
                    assert(t.contains(y));
                }
            }
            if t.contains(y) {
                let i = choose|i: int| 0 <= i < t.len() && t[i] == y;
                assert(s[i] == y);
            }
        }
        if distinct_keys(s) {
            assert(distinct_keys(t)) by {
                assert forall|i: int, j: int| 0 <= i < j < t.len() implies t[i] != t[j] by {
                    assert(t[i] == s[i] && t[j] == s[j]);
                }
            }
            assert(!t.contains(s.last())) by {
                if t.contains(s.last()) {
                    let i = choose|i: int| 0 <= i < t.len() && t[i] == s.last();
                    assert(s[i] == s[s.len() - 1]);
                }
            }
            assert(!sort_keys_u(t).contains(s.last()));
        }
    }
}

/// Inserts `x` into a key vector kept sorted by unsigned value.
fn insert_key(keys: &mut Vec<i32>, x: i32)
    ensures
        final (keys)@ == insert_sorted_u(x, old(keys)@),
{
    let ux = crate::format::key_to_unsigned(x);
    let n = keys.len();
    let mut p: usize = 0;
    while p < n && crate::format::key_to_unsigned(keys[p]) < ux
        invariant
            p <= n,
            n == keys@.len(),
            forall|q: int| 0 <= q < p ==> key_unsigned(keys@[q]) < key_unsigned(x),
            ux == key_unsigned(x),
        decreases n - p,
    {
        p += 1;
    }
    let ghost s = keys@;
    keys.insert(p, x);
    proof {
        lemma_insert_sorted_at(x, s, p as int);
        assert(keys@ =~= s.take(p as int) + seq![x] + s.skip(p as int));
    }
}

proof fn lemma_insert_sorted_at(x: i32, s: Seq<i32>, p: int)
    requires
        0 <= p <= s.len(),
        forall|q: int| 0 <= q < p ==> key_unsigned(s[q]) < key_unsigned(x),
        p < s.len() ==> key_unsigned(x) <= key_unsigned(s[p]),
    ensures
        insert_sorted_u(x, s) == s.take(p) + seq![x] + s.skip(p),
    decreases s.len(),
{
    if p == 0 {
        if s.len() == 0 {
            assert(insert_sorted_u(x, s) =~= s.take(0) + seq![x] + s.skip(0));
        } else {
            assert(insert_sorted_u(x, s) =~= s.take(0) + seq![x] + s.skip(0));
        }
    } else {
        let t = s.drop_first();
        assert forall|q: int| 0 <= q < p - 1 implies key_unsigned(t[q]) < key_unsigned(x) by {
            assert(t[q] == s[q + 1]);
        }
        if p - 1 < t.len() {
            assert(t[p - 1] == s[p]);
        }
        lemma_insert_sorted_at(x, t, p - 1);
        assert(insert_sorted_u(x, s) =~= s.take(p) + seq![x] + s.skip(p));
    }
}

/// The serialized `data_size` header field: one word per buffer word plus
/// one key word per item, times four bytes.
pub open spec fn snap_data_size(s: Snap) -> int {
    (s.buf@.len() + s.entries@.len()) * 4int
}

/// The byte offset of the `i`-th item of the key order `ks` in the item-data
/// region: each earlier item contributes its word count plus one key word,
/// times four.
pub open spec fn offset_at(s: Snap, ks: Seq<i32>, i: int) -> int
    decreases i,
{
    if i <= 0 {
        0
    } else {
        offset_at(s, ks, i - 1) + (s.data_for(ks[i - 1]).len() + 1) * 4
    }
}

pub open spec fn encode_offsets(s: Snap, ks: Seq<i32>) -> Seq<i32> {
    Seq::new(ks.len(), |i: int| offset_at(s, ks, i) as i32)
}

/// The items region: for each key in order, the key itself then its words.
pub open spec fn encode_items(s: Snap, ks: Seq<i32>) -> Seq<i32>
    decreases ks.len(),
{
    if ks.len() == 0 {
        Seq::empty()
    } else {
        encode_items(s, ks.drop_last()) + seq![ks.last()] + s.data_for(ks.last())
    }
}

/// The full int sequence a snap serializes to: header, offsets table in
/// unsigned-ascending key order, then the items region in the same order.
pub open spec fn snap_encoding(s: Snap) -> Seq<i32> {
    let ks = sort_keys_u(s.key_seq());
    seq![snap_data_size(s) as i32, s.entries@.len() as i32] + encode_offsets(s, ks)
        + encode_items(s, ks)
}

/// The items of a snap as `(key, data)` records in entry order.
pub open spec fn snap_recs(s: Snap) -> Seq<(i32, Seq<i32>)> {
    Seq::new(s.entries@.len(), |t: int| (s.entry_key(t), s.entry_data(t)))
}

/// Total words held by a record list.
pub open spec fn rec_total(acc: Seq<(i32, Seq<i32>)>) -> int
    decreases acc.len(),
{
    if acc.len() == 0 {
        0
    } else {
        rec_total(acc.drop_last()) + acc.last().1.len()
    }
}

pub open spec fn recs_have_key(acc: Seq<(i32, Seq<i32>)>, k: i32) -> bool {
    exists|t: int| 0 <= t < acc.len() && #[trigger] acc[t].0 == k
}

/// Phase one of snap decoding: reads `count` offsets from `pos` on, checks
/// the first is zero and the rest never decrease, and derives the per-item
/// byte sizes, the last against `data_size`.
pub open spec fn read_sizes(
    ints: Seq<i32>,
    pos: int,
    count: int,
    prev: Option<i32>,
    data_size: i32,
    acc: Seq<i32>,
) -> Result<(Seq<i32>, int), Error>
    decreases count,
{
    if count <= 0 {
        match prev {
            Some(last) => if last > data_size {
                Err(Error::InvalidOffset)
            } else {
                Ok((acc.push((data_size - last) as i32), pos))
            },
            None => Ok((acc, pos)),
        }
    } else if pos < 0 || pos >= ints.len() {
        Err(Error::OffsetsUnpacking)
    } else {
        let off = ints[pos];
        match prev {
            None => if off != 0 {
                Err(Error::InvalidOffset)
            } else {
                read_sizes(ints, pos + 1, count - 1, Some(off), data_size, acc)
            },
            Some(p) => if p > off {
                Err(Error::InvalidOffset)
            } else {
                read_sizes(ints, pos + 1, count - 1, Some(off), data_size, acc.push((off - p) as i32))
            },
        }
    }
}

/// Phase two of snap decoding: for each derived byte size, a positive
/// multiple of four, reads one key and `size/4 - 1` data words and registers
/// the record; rejects duplicate keys and growth past the size cap.
pub open spec fn read_items(
    ints: Seq<i32>,
    pos: int,
    sizes: Seq<i32>,
    i: int,
    acc: Seq<(i32, Seq<i32>)>,
) -> Result<(Seq<(i32, Seq<i32>)>, int), Error>
    decreases sizes.len() - i,
{
    if i < 0 || i >= sizes.len() {
        Ok((acc, pos))
    } else {
        let size = sizes[i];
        if size % 4 != 0 {
            Err(Error::InvalidOffset)
        } else if size == 0 {
            Err(Error::InvalidOffset)
        } else {
            let words = size / 4;
            if pos < 0 || pos >= ints.len() {
                Err(Error::ItemsUnpacking)
            } else {
                let key = ints[pos];
                if recs_have_key(acc, key) {
                    Err(Error::DuplicateKey)
                } else if rec_total(acc) + (words - 1) > crate::format::MAX_SNAPSHOT_WORDS {
                    Err(Error::TooLongSnap)
                } else if pos + words > ints.len() {
                    Err(Error::ItemsUnpacking)
                } else {
                    read_items(
                        ints,
                        pos + words,
                        sizes,
                        i + 1,
                        acc.push((key, ints.subrange(pos + 1, pos + words))),
                    )
                }
            }
        }
    }
}

/// What a snap int sequence decodes to: the `(key, data)` records in wire
/// order, or the error decoding fails with.  The input must be consumed
/// exactly.
pub open spec fn snap_decoding(ints: Seq<i32>) -> Result<Seq<(i32, Seq<i32>)>, Error> {
    if ints.len() < 2 {
        Err(Error::UnexpectedEnd)
    } else {
        let data_size = ints[0];
        let num_items = ints[1];
        match read_sizes(ints, 2, num_items as int, None::<i32>, data_size, Seq::empty()) {
            Err(e) => Err(e),
            Ok(p1) => match read_items(ints, p1.1, p1.0, 0, Seq::empty()) {
                Err(e) => Err(e),
                Ok(p2) => if p2.1 == ints.len() {
                    Ok(p2.0)
                } else {
                    Err(Error::ItemsUnpacking)
                },
            },
        }
    }
}

/// Appending an item to a snap appends its record.
pub proof fn lemma_recs_push(pre: Snap, post: Snap, k: i32, data: Seq<i32>)
    requires
        pre.wf(),
        pre.buf@.len() + data.len() <= usize::MAX,
        post.entries@ == pre.entries@.push(
            (k, pre.buf@.len() as usize, (pre.buf@.len() + data.len()) as usize),
        ),
        post.buf@ == pre.buf@ + data,
    ensures
        snap_recs(post) =~= snap_recs(pre).push((k, data)),
        rec_total(snap_recs(post)) == rec_total(snap_recs(pre)) + data.len(),
{
    assert forall|t: int| 0 <= t < pre.entries@.len() implies snap_recs(post)[t] == snap_recs(
        pre,
    )[t] by {
        assert(post.entries@[t] == pre.entries@[t]);
        assert(post.entry_data(t) =~= pre.entry_data(t));
    }
    assert(post.entry_data(pre.entries@.len() as int) =~= data);
    assert(snap_recs(post) =~= snap_recs(pre).push((k, data)));
    assert(snap_recs(post).drop_last() =~= snap_recs(pre));
}

/// Bytes of `s`'s entries from `j` on whose keys `ks` holds, counting one
/// extra key word each.
pub open spec fn wire_sum(s: Snap, ks: Seq<i32>, j: int) -> int
    decreases s.entries@.len() - j,
{
    if j < 0 || j >= s.entries@.len() {
        0
    } else {
        (if ks.contains(s.entry_key(j)) {
            (s.entry_len(j) + 1) * 4
        } else {
            0int
        }) + wire_sum(s, ks, j + 1)
    }
}

proof fn lemma_wire_sum_push(s: Snap, ks: Seq<i32>, k: i32, j: int)
    requires
        s.wf(),
        !ks.contains(k),
        0 <= j <= s.entries@.len(),
    ensures
        wire_sum(s, ks.push(k), j) == wire_sum(s, ks, j) + (if s.has_key(k) && s.find_key(k) >= j {
            (s.entry_len(s.find_key(k)) + 1) * 4
        } else {
            0int
        }),
    decreases s.entries@.len() - j,
{
    lemma_find_index(s.entries@, k);
    if j < s.entries@.len() {
        lemma_wire_sum_push(s, ks, k, j + 1);
        let kj = s.entry_key(j);
        assert(ks.push(k).contains(kj) <==> (ks.contains(kj) || kj == k)) by {
            if ks.contains(kj) {
                let a = choose|a: int| 0 <= a < ks.len() && ks[a] == kj;
                assert(ks.push(k)[a] == kj);
            }
            if kj == k {
                assert(ks.push(k)[ks.len() as int] == kj);
            }
            if ks.push(k).contains(kj) {
                let a = choose|a: int| 0 <= a < ks.push(k).len() && ks.push(k)[a] == kj;
                if a < ks.len() {
                    assert(ks[a] == kj);
                }
            }
        }
        if kj == k {
            crate::snap::lemma_key_at(s, j);
        } else {
            if s.has_key(k) {
                assert(s.find_key(k) >= j + 1 <==> s.find_key(k) >= j);
            }
        }
    }
}

/// The offsets accumulate exactly the wire bytes of the keys seen so far.
proof fn lemma_offset_eq(s: Snap, ks: Seq<i32>, i: int)
    requires
        s.wf(),
        distinct_keys(ks),
        0 <= i <= ks.len(),
        forall|t: int| 0 <= t < ks.len() ==> s.has_key(#[trigger] ks[t]),
    ensures
        offset_at(s, ks, i) == wire_sum(s, ks.take(i), 0),
    decreases i,
{
    if i == 0 {
        lemma_wire_sum_none(s, ks.take(0), 0);
    } else {
        lemma_offset_eq(s, ks, i - 1);
        let ki = ks[i - 1];
        assert(!ks.take(i - 1).contains(ki)) by {
            if ks.take(i - 1).contains(ki) {
                let a = choose|a: int| 0 <= a < i - 1 && #[trigger] ks.take(i - 1)[a] == ki;
                assert(ks[a] == ks[i - 1]);
            }
        }
        assert(ks.take(i) =~= ks.take(i - 1).push(ki));
        lemma_wire_sum_push(s, ks.take(i - 1), ki, 0);
        lemma_find_index(s.entries@, ki);
        assert(s.has_key(ki));
        assert(s.entry_len(s.find_key(ki)) == s.data_for(ki).len());
    }
}

proof fn lemma_wire_sum_none(s: Snap, ks: Seq<i32>, j: int)
    requires
        ks.len() == 0,
        0 <= j <= s.entries@.len(),
    ensures
        wire_sum(s, ks, j) == 0,
    decreases s.entries@.len() - j,
{
    if j < s.entries@.len() {
        lemma_wire_sum_none(s, ks, j + 1);
    }
}

/// A key list holding every key of `s` collects all of `s`'s bytes.
proof fn lemma_wire_sum_total(s: Snap, ks: Seq<i32>, j: int)
    requires
        s.wf(),
        0 <= j <= s.entries@.len(),
        forall|i: int| 0 <= i < s.entries@.len() ==> ks.contains(#[trigger] s.entry_key(i)),
    ensures
        wire_sum(s, ks, j) == (s.buf@.len() - crate::delta::prefix_end(s, j)) * 4 + (
        s.entries@.len() - j) * 4,
    decreases s.entries@.len() - j,
{
    if j < s.entries@.len() {
        lemma_wire_sum_total(s, ks, j + 1);
    }
}

proof fn lemma_offset_nonneg(s: Snap, ks: Seq<i32>, i: int)
    ensures
        0 <= offset_at(s, ks, i),
    decreases i,
{
    if i > 0 {
        lemma_offset_nonneg(s, ks, i - 1);
    }
}

/// Offsets only grow along the key list.
proof fn lemma_offset_mono(s: Snap, ks: Seq<i32>, i: int, j: int)
    requires
        0 <= i <= j,
    ensures
        offset_at(s, ks, i) <= offset_at(s, ks, j),
    decreases j - i,
{
    if i < j {
        lemma_offset_mono(s, ks, i, j - 1);
    }
}

impl Snap {
    /// The snap's keys sorted by unsigned 32-bit value.
    pub(crate) fn sorted_keys(&self) -> (r: Vec<i32>)
        ensures
            r@ == sort_keys_u(self.key_seq()),
    {
        let mut keys: Vec<i32> = Vec::new();
        let n = self.entries.len();
        let mut i: usize = 0;
        while i < n
            invariant
                i <= n,
                n == self.entries@.len(),
                keys@ == sort_keys_u(self.key_seq().take(i as int)),
            decreases n - i,
        {
            insert_key(&mut keys, self.entries[i].0);
            proof {
                assert(self.key_seq().take(i + 1).drop_last() =~= self.key_seq().take(i as int));
                assert(self.key_seq().take(i + 1).last() == self.entries@[i as int].0);
            }
            i += 1;
        }
        proof {
            assert(self.key_seq().take(n as int) =~= self.key_seq());
        }
        keys
    }

    /// Serializes the snap as its wire int sequence: `data_size`,
    /// `num_items`, the offsets table in unsigned-ascending key order, then
    /// each key followed by its words in the same order.
    #[verifier::rlimit(50)]
    pub fn write(&self) -> (r: Vec<i32>)
        requires
            self.wf(),
            4 * (self.buf@.len() + self.entries@.len()) <= 0x7FFF_FFFF,
        ensures
            r@ == snap_encoding(*self),
    {
        let keys = self.sorted_keys();
        let ghost ks = keys@;
        let n = self.entries.len();
        proof {
            lemma_sort_facts(self.key_seq());
            assert(distinct_keys(self.key_seq()));
            assert forall|t: int| 0 <= t < ks.len() implies self.has_key(#[trigger] ks[t]) by {
                assert(ks.contains(ks[t]));
                assert(self.key_seq().contains(ks[t]));
                crate::delta::lemma_key_seq_contains(*self, ks[t]);
            }
            assert forall|i: int|
                0 <= i < self.entries@.len() implies ks.contains(#[trigger] self.entry_key(i)) by {
                assert(self.key_seq()[i] == self.entry_key(i));
                assert(self.key_seq().contains(self.entry_key(i)));
            }
            lemma_offset_eq(*self, ks, ks.len() as int);
            assert(ks.take(ks.len() as int) =~= ks);
            lemma_wire_sum_total(*self, ks, 0);
            assert(offset_at(*self, ks, ks.len() as int) == snap_data_size(*self));
        }
        let mut out: Vec<i32> = Vec::new();
        let data_size = ((self.buf.len() + n) * 4) as i32;
        out.push(data_size);
        out.push(n as i32);
        let mut cur: usize = 0;
        let mut i: usize = 0;
        while i < n
            invariant
                i <= n,
                n == self.entries@.len(),
                n == ks.len(),
                self.wf(),
                ks == keys@,
                4 * (self.buf@.len() + self.entries@.len()) <= 0x7FFF_FFFF,
                offset_at(*self, ks, n as int) == snap_data_size(*self),
                forall|t: int| 0 <= t < ks.len() ==> self.has_key(#[trigger] ks[t]),
                out@.len() == 2 + i,
                out@[0] == snap_data_size(*self) as i32,
                out@[1] == self.entries@.len() as i32,
                forall|t: int| 0 <= t < i ==> out@[2 + t] == offset_at(*self, ks, t) as i32,
                cur == offset_at(*self, ks, i as int),
            decreases n - i,
        {
            proof {
                lemma_offset_mono(*self, ks, i as int, n as int);
                lemma_offset_mono(*self, ks, i + 1, n as int);
            }
            out.push(cur as i32);
            let k = keys[i];
            match self.find_entry(k) {
                Some(e) => {
                    let (_, st, en) = self.entries[e];
                    let sz = en - st;
                    proof {
                        assert(self.data_for(k).len() == en - st);
                    }
                    cur += (sz + 1) * 4;
                },
                None => {
                    proof {
                        assert(false);
                    }
                },
            }
            i += 1;
        }
        proof {
            assert(out@ =~= seq![snap_data_size(*self) as i32, self.entries@.len() as i32]
                + encode_offsets(*self, ks));
        }
        let ghost header_offsets = out@;
        let mut j: usize = 0;
        while j < n
            invariant
                j <= n,
                n == self.entries@.len(),
                n == ks.len(),
                self.wf(),
                ks == keys@,
                forall|t: int| 0 <= t < ks.len() ==> self.has_key(#[trigger] ks[t]),
                out@ == header_offsets + encode_items(*self, ks.take(j as int)),
            decreases n - j,
        {
            let k = keys[j];
            out.push(k);
            match self.find_entry(k) {
                Some(e) => {
                    let (_, st, en) = self.entries[e];
                    let ghost data = self.data_for(k);
                    let mut w: usize = st;
                    while w < en
                        invariant
                            st <= w <= en,
                            en <= self.buf@.len(),
                            data == self.data_for(k),
                            data.len() == en - st,
                            forall|t: int| st <= t < en ==> data[t - st] == self.buf@[t],
                            out@ == header_offsets + encode_items(*self, ks.take(j as int))
                                + seq![k] + data.take(w - st),
                        decreases en - w,
                    {
                        out.push(self.buf[w]);
                        proof {
                            assert(data.take(w + 1 - st) =~= data.take(w - st).push(
                                self.buf@[w as int],
                            ));
                        }
                        w += 1;
                    }
                    proof {
                        assert(data.take(en - st) =~= data);
                        assert(ks.take(j + 1).drop_last() =~= ks.take(j as int));
                        assert(ks.take(j + 1).last() == k);
                        assert(out@ =~= header_offsets + encode_items(*self, ks.take(j + 1)));
                    }
                },
                None => {
                    proof {
                        assert(false);
                    }
                },
            }
            j += 1;
        }
        proof {
            assert(ks.take(n as int) =~= ks);
            assert(out@ =~= snap_encoding(*self));
        }
        out
    }
}

/// The per-item byte sizes the decoder derives from an encoded snap: one
/// key word plus the item's words, times four.
pub open spec fn enc_sizes(s: Snap, ks: Seq<i32>, t: int) -> Seq<i32> {
    Seq::new(t as nat, |u: int| ((s.data_for(ks[u]).len() + 1) * 4) as i32)
}

/// The records an encoded snap decodes back to: its items in sorted key
/// order.
pub open spec fn enc_recs(s: Snap, ks: Seq<i32>, t: int) -> Seq<(i32, Seq<i32>)> {
    Seq::new(t as nat, |u: int| (ks[u], s.data_for(ks[u])))
}

proof fn lemma_items_len(s: Snap, ks: Seq<i32>, i: int)
    requires
        0 <= i <= ks.len(),
    ensures
        4 * encode_items(s, ks.take(i)).len() == offset_at(s, ks, i),
    decreases i,
{
    if i > 0 {
        lemma_items_len(s, ks, i - 1);
        assert(ks.take(i).drop_last() =~= ks.take(i - 1));
        assert(ks.take(i).last() == ks[i - 1]);
    }
}

/// Each offset step is at least one word of four bytes.
proof fn lemma_offset_step_ge(s: Snap, ks: Seq<i32>, i: int, j: int)
    requires
        0 <= i <= j,
    ensures
        offset_at(s, ks, j) - offset_at(s, ks, i) >= 4 * (j - i),
    decreases j - i,
{
    if i < j {
        lemma_offset_step_ge(s, ks, i, j - 1);
    }
}

/// The items region, cut at item `t`, starts with that item's key and words.
proof fn lemma_items_at(s: Snap, ks: Seq<i32>, n: int, t: int)
    requires
        0 <= t < n <= ks.len(),
    ensures
        ({
            let items = encode_items(s, ks.take(n));
            let p = encode_items(s, ks.take(t)).len() as int;
            let q = encode_items(s, ks.take(t + 1)).len() as int;
            &&& p + 1 + s.data_for(ks[t]).len() == q <= items.len()
            &&& items.subrange(p, q) == seq![ks[t]] + s.data_for(ks[t])
        }),
    decreases n,
{
    assert(ks.take(n).drop_last() =~= ks.take(n - 1));
    assert(ks.take(n).last() == ks[n - 1]);
    assert(ks.take(t + 1).drop_last() =~= ks.take(t));
    assert(ks.take(t + 1).last() == ks[t]);
    if t == n - 1 {
        assert(encode_items(s, ks.take(n)).subrange(
            encode_items(s, ks.take(t)).len() as int,
            encode_items(s, ks.take(t + 1)).len() as int,
        ) =~= seq![ks[t]] + s.data_for(ks[t]));
    } else {
        lemma_items_at(s, ks, n - 1, t);
        let items1 = encode_items(s, ks.take(n - 1));
        let p = encode_items(s, ks.take(t)).len() as int;
        let q = encode_items(s, ks.take(t + 1)).len() as int;
        assert(encode_items(s, ks.take(n)).subrange(p, q) =~= items1.subrange(p, q));
    }
}

proof fn lemma_rec_total_enc(s: Snap, ks: Seq<i32>, t: int)
    requires
        0 <= t <= ks.len(),
    ensures
        4 * rec_total(enc_recs(s, ks, t)) == offset_at(s, ks, t) - 4 * t,
    decreases t,
{
    if t > 0 {
        lemma_rec_total_enc(s, ks, t - 1);
        assert(enc_recs(s, ks, t).drop_last() =~= enc_recs(s, ks, t - 1));
    }
}

/// Phase one of decoding an encoded snap recovers exactly the per-item
/// sizes, consuming the offsets table.
proof fn lemma_decode_sizes(s: Snap, ks: Seq<i32>, e: Seq<i32>, t: int)
    requires
        s.wf(),
        4 * (s.buf@.len() + s.entries@.len()) <= 0x7FFF_FFFF,
        ks == sort_keys_u(s.key_seq()),
        e == snap_encoding(s),
        offset_at(s, ks, ks.len() as int) == snap_data_size(s),
        ks.len() == s.entries@.len(),
        1 <= t <= ks.len(),
    ensures
        read_sizes(
            e,
            2 + t,
            ks.len() - t,
            Some(offset_at(s, ks, t - 1) as i32),
            snap_data_size(s) as i32,
            enc_sizes(s, ks, t - 1),
        ) == Ok::<(Seq<i32>, int), Error>((enc_sizes(s, ks, ks.len() as int), 2 + ks.len() as int)),
    decreases ks.len() - t,
{
    let n = ks.len() as int;
    lemma_offset_mono(s, ks, t - 1, t);
    lemma_offset_mono(s, ks, t, n);
    lemma_offset_nonneg(s, ks, t - 1);
    lemma_items_len(s, ks, n);
    if t == n {
        assert(enc_sizes(s, ks, n - 1).push(
            (snap_data_size(s) as i32 - offset_at(s, ks, n - 1) as i32) as i32,
        ) =~= enc_sizes(s, ks, n));
    } else {
        lemma_decode_sizes(s, ks, e, t + 1);
        assert(e[2 + t] == offset_at(s, ks, t) as i32);
        lemma_offset_mono(s, ks, t, t + 1);
        assert(enc_sizes(s, ks, t - 1).push(
            (offset_at(s, ks, t) as i32 - offset_at(s, ks, t - 1) as i32) as i32,
        ) =~= enc_sizes(s, ks, t));
    }
}

/// Phase two of decoding an encoded snap recovers the items in order.
proof fn lemma_decode_items(s: Snap, ks: Seq<i32>, e: Seq<i32>, t: int)
    requires
        s.wf(),
        4 * (s.buf@.len() + s.entries@.len()) <= 0x7FFF_FFFF,
        ks == sort_keys_u(s.key_seq()),
        distinct_keys(ks),
        e == snap_encoding(s),
        offset_at(s, ks, ks.len() as int) == snap_data_size(s),
        ks.len() == s.entries@.len(),
        0 <= t <= ks.len(),
    ensures
        read_items(
            e,
            2 + ks.len() + encode_items(s, ks.take(t)).len() as int,
            enc_sizes(s, ks, ks.len() as int),
            t,
            enc_recs(s, ks, t),
        ) == Ok::<(Seq<(i32, Seq<i32>)>, int), Error>(
            (enc_recs(s, ks, ks.len() as int), e.len() as int),
        ),
    decreases ks.len() - t,
{
    let n = ks.len() as int;
    lemma_items_len(s, ks, t);
    lemma_items_len(s, ks, n);
    assert(ks.take(n) =~= ks);
    lemma_offset_nonneg(s, ks, t);
    lemma_offset_mono(s, ks, t, n);
    if t == n {
        assert(e.len() == 2 + n + encode_items(s, ks.take(n)).len());
    } else {
        let sizes = enc_sizes(s, ks, n);
        let len_t = s.data_for(ks[t]).len() as int;
        let size = sizes[t];
        lemma_offset_step_ge(s, ks, t + 1, n);
        lemma_items_at(s, ks, n, t);
        lemma_items_len(s, ks, t + 1);
        let p = 2 + n + encode_items(s, ks.take(t)).len() as int;
        let items = encode_items(s, ks);
        let p2 = encode_items(s, ks.take(t)).len() as int;
        let q2 = p2 + 1 + len_t;
        assert(items == encode_items(s, ks.take(n)));
        assert(items.subrange(p2, q2) == seq![ks[t]] + s.data_for(ks[t]));
        assert(encode_offsets(s, ks).len() == n);
        assert(e == seq![snap_data_size(s) as i32, s.entries@.len() as i32] + encode_offsets(
            s,
            ks,
        ) + items);
        assert(e[p] == items[p2]);
        assert(items[p2] == items.subrange(p2, q2)[0]);
        assert(e[p] == ks[t]);
        assert(!recs_have_key(enc_recs(s, ks, t), ks[t])) by {
            if recs_have_key(enc_recs(s, ks, t), ks[t]) {
                let q = choose|q: int|
                    0 <= q < t && #[trigger] enc_recs(s, ks, t)[q].0 == ks[t];
                assert(ks[q] == ks[t]);
            }
        }
        lemma_rec_total_enc(s, ks, t);
        assert forall|u: int| 0 <= u < len_t implies e[p + 1 + u] == s.data_for(ks[t])[u] by {
            assert(e[p + 1 + u] == items[p2 + 1 + u]);
            assert(items[p2 + 1 + u] == items.subrange(p2, q2)[1 + u]);
        }
        assert(e.subrange(p + 1, p + 1 + len_t) =~= s.data_for(ks[t]));
        assert(enc_recs(s, ks, t).push((ks[t], s.data_for(ks[t]))) =~= enc_recs(s, ks, t + 1));
        lemma_decode_items(s, ks, e, t + 1);
    }
}

/// Round trip: decoding an encoded snap yields exactly its items, keyed and
/// ordered by unsigned-ascending key.
pub proof fn lemma_snap_roundtrip(s: Snap)
    requires
        s.wf(),
        4 * (s.buf@.len() + s.entries@.len()) <= 0x7FFF_FFFF,
    ensures
        snap_decoding(snap_encoding(s)) matches Ok(recs) && {
            &&& recs.len() == s.entries@.len()
            &&& forall|t: int|
                0 <= t < recs.len() ==> s.has_key(#[trigger] recs[t].0) && recs[t].1
                    == s.data_for(recs[t].0)
            &&& forall|k: i32| s.has_key(k) ==> recs_have_key(recs, k)
            &&& sorted_by_key_unsigned(Seq::new(recs.len(), |t: int| recs[t].0))
        },
{
    let ks = sort_keys_u(s.key_seq());
    let e = snap_encoding(s);
    let n = ks.len() as int;
    lemma_sort_facts(s.key_seq());
    assert(distinct_keys(s.key_seq()));
    assert forall|t: int| 0 <= t < n implies s.has_key(#[trigger] ks[t]) by {
        assert(ks.contains(ks[t]));
        assert(s.key_seq().contains(ks[t]));
        crate::delta::lemma_key_seq_contains(s, ks[t]);
    }
    assert forall|i: int|
        0 <= i < s.entries@.len() implies ks.contains(#[trigger] s.entry_key(i)) by {
        assert(s.key_seq()[i] == s.entry_key(i));
        assert(s.key_seq().contains(s.entry_key(i)));
    }
    lemma_offset_eq(s, ks, n);
    assert(ks.take(n) =~= ks);
    lemma_wire_sum_total(s, ks, 0);
    assert(offset_at(s, ks, n) == snap_data_size(s));
    lemma_items_len(s, ks, n);
    let recs = enc_recs(s, ks, n);
    if n == 0 {
        assert(read_sizes(e, 2, 0, None::<i32>, snap_data_size(s) as i32, Seq::empty())
            == Ok::<(Seq<i32>, int), Error>((Seq::empty(), 2)));
        assert(enc_sizes(s, ks, 0) =~= Seq::<i32>::empty());
        assert(enc_recs(s, ks, 0) =~= Seq::<(i32, Seq<i32>)>::empty());
        lemma_decode_items(s, ks, e, 0);
        assert(encode_items(s, ks.take(0)).len() == 0);
        assert(snap_decoding(e) == Ok::<Seq<(i32, Seq<i32>)>, Error>(recs));
    } else {
        lemma_offset_mono(s, ks, 0, n);
        assert(e[2] == offset_at(s, ks, 0) as i32);
        lemma_decode_sizes(s, ks, e, 1);
        assert(enc_sizes(s, ks, 0) =~= Seq::<i32>::empty());
        assert(read_sizes(e, 2, n, None::<i32>, snap_data_size(s) as i32, Seq::empty())
            == Ok::<(Seq<i32>, int), Error>((enc_sizes(s, ks, n), 2 + n)));
        assert(enc_recs(s, ks, 0) =~= Seq::<(i32, Seq<i32>)>::empty());
        assert(encode_items(s, ks.take(0)).len() == 0);
        lemma_decode_items(s, ks, e, 0);
        assert(snap_decoding(e) == Ok::<Seq<(i32, Seq<i32>)>, Error>(recs));
    }
    assert forall|k: i32| s.has_key(k) implies recs_have_key(recs, k) by {
        lemma_find_index(s.entries@, k);
        assert(s.key_seq()[s.find_key(k)] == k);
        assert(s.key_seq().contains(k));
        assert(ks.contains(k));
        let t = choose|t: int| 0 <= t < ks.len() && ks[t] == k;
        assert(recs[t].0 == k);
    }
    let keyseq = Seq::new(recs.len(), |t: int| recs[t].0);
    assert forall|i: int, j: int|
        0 <= i < j < keyseq.len() implies key_unsigned(#[trigger] keyseq[i]) <= key_unsigned(
        #[trigger] keyseq[j],
    ) by {
        assert(recs[i].0 == ks[i] && recs[j].0 == ks[j]);
    }
}

/// Round trip at the mapping level: a snap rebuilt from the decoded records
/// of `s`'s encoding equals `s` as a mapping from key to item data.
pub proof fn lemma_snap_roundtrip_map(s: Snap, s2: Snap)
    requires
        s.wf(),
        4 * (s.buf@.len() + s.entries@.len()) <= 0x7FFF_FFFF,
        s2.wf(),
        snap_decoding(snap_encoding(s)) matches Ok(recs) && s2.entries@.len() == recs.len() && (
        forall|t: int|
            0 <= t < recs.len() ==> s2.entry_key(t) == recs[t].0 && s2.entry_data(t)
                == recs[t].1),
    ensures
        s2.as_map() == s.as_map(),
{
    lemma_snap_roundtrip(s);
    let recs = snap_decoding(snap_encoding(s))->Ok_0;
    assert forall|k: i32| true implies {
        &&& (s2.has_key(k) <==> s.has_key(k))
        &&& (s2.has_key(k) ==> s2.data_for(k) == s.data_for(k))
    } by {
        lemma_find_index(s2.entries@, k);
        if s2.has_key(k) {
            let t = s2.find_key(k);
            assert(s2.entry_key(t) == k && s2.entry_data(t) == s2.data_for(k));
            assert(recs[t].0 == k && recs[t].1 == s2.entry_data(t));
        }
        if s.has_key(k) {
            assert(recs_have_key(recs, k));
            let t = choose|t: int| 0 <= t < recs.len() && #[trigger] recs[t].0 == k;
            assert(s2.entry_key(t) == recs[t].0);
            assert(s2.entry_key(t) == k);
        }
    }
    assert(s2.as_map() =~= s.as_map());
}

/// Decodes snap int sequences, keeping a reusable scratch table of item
/// sizes between calls.
pub struct SnapReader {
    pub sizes: Vec<i32>,
}

impl SnapReader {
    pub fn new() -> (r: SnapReader)
        ensures
            r.sizes@.len() == 0,
    {
        SnapReader { sizes: Vec::new() }
    }

    /// Decodes one snap from `ints`, which must hold exactly one snap
    /// encoding.  The passed snap is recycled: its allocations back the
    /// result.  On success the result holds the decoded records in wire
    /// order; on failure the error is exactly what `snap_decoding` gives.
    #[verifier::rlimit(50)]
    pub fn read(&mut self, snap: Snap, ints: &[i32]) -> (r: Result<Snap, Error>)
        ensures
            match r {
                Ok(s) => {
                    &&& snap_decoding(ints@) matches Ok(recs) && s.entries@.len() == recs.len()
                        && (forall|t: int|
                        0 <= t < recs.len() ==> s.entry_key(t) == recs[t].0 && s.entry_data(t)
                            == recs[t].1)
                    &&& s.wf()
                },
                Err(e) => snap_decoding(ints@) == Err::<Seq<(i32, Seq<i32>)>, Error>(e),
            },
    {
        self.sizes.clear();
        if ints.len() < 2 {
            return Err(Error::UnexpectedEnd);
        }
        let data_size = *vstd::slice::slice_index_get(ints, 0);
        let num_items = *vstd::slice::slice_index_get(ints, 1);
        let mut pos: usize = 2;
        let mut prev: Option<i32> = None;
        let mut t: i32 = 0;
        if num_items > 0 {
            while t < num_items
                invariant
                    0 <= t <= num_items,
                    2 <= pos <= ints@.len(),
                    ints@.len() >= 2,
                    data_size == ints@[0],
                    num_items == ints@[1],
                    read_sizes(ints@, 2, num_items as int, None::<i32>, data_size, Seq::empty())
                        == read_sizes(
                        ints@,
                        pos as int,
                        num_items - t,
                        prev,
                        data_size,
                        self.sizes@,
                    ),
                    prev matches Some(p) ==> p >= 0,
                    t == 0 <==> prev is None,
                    forall|q: int| 0 <= q < self.sizes@.len() ==> self.sizes@[q] >= 0,
                decreases num_items - t,
            {
                if pos >= ints.len() {
                    return Err(Error::OffsetsUnpacking);
                }
                let off = *vstd::slice::slice_index_get(ints, pos);
                match prev {
                    None => {
                        if off != 0 {
                            return Err(Error::InvalidOffset);
                        }
                    },
                    Some(p) => {
                        if p > off {
                            return Err(Error::InvalidOffset);
                        }
                        self.sizes.push(off - p);
                    },
                }
                prev = Some(off);
                pos += 1;
                t += 1;
            }
        }
        match prev {
            Some(last) => {
                if last > data_size {
                    return Err(Error::InvalidOffset);
                }
                self.sizes.push(data_size - last);
            },
            None => {},
        }
        let ghost sizes_seq = self.sizes@;
        let ghost pos0 = pos as int;
        proof {
            assert(read_sizes(ints@, 2, num_items as int, None::<i32>, data_size, Seq::empty())
                == Ok::<(Seq<i32>, int), Error>((sizes_seq, pos0)));
        }
        let mut b = snap.recycle();
        proof {
            assert(snap_recs(b.snap) =~= Seq::<(i32, Seq<i32>)>::empty());
        }
        let n = self.sizes.len();
        let mut i: usize = 0;
        while i < n
            invariant
                i <= n,
                n == sizes_seq.len(),
                sizes_seq == self.sizes@,
                pos as int <= ints@.len(),
                ints@.len() >= 2,
                data_size == ints@[0],
                num_items == ints@[1],
                read_sizes(ints@, 2, num_items as int, None::<i32>, data_size, Seq::empty())
                    == Ok::<(Seq<i32>, int), Error>((sizes_seq, pos0)),
                b.snap.wf(),
                forall|q: int| 0 <= q < sizes_seq.len() ==> sizes_seq[q] >= 0,
                rec_total(snap_recs(b.snap)) == b.snap.buf@.len(),
                read_items(ints@, pos0, sizes_seq, 0, Seq::empty()) == read_items(
                    ints@,
                    pos as int,
                    sizes_seq,
                    i as int,
                    snap_recs(b.snap),
                ),
            decreases n - i,
        {
            let ghost recs = snap_recs(b.snap);
            let size = self.sizes[i];
            if size % 4 != 0 {
                return Err(Error::InvalidOffset);
            }
            if size == 0 {
                return Err(Error::InvalidOffset);
            }
            let words = (size / 4) as usize;
            if pos >= ints.len() {
                return Err(Error::ItemsUnpacking);
            }
            let key = *vstd::slice::slice_index_get(ints, pos);
            match b.snap.find_entry(key) {
                Some(_) => {
                    proof {
                        assert(recs[b.snap.find_key(key)].0 == key);
                        assert(recs_have_key(recs, key));
                    }
                    return Err(Error::DuplicateKey);
                },
                None => {
                    proof {
                        if recs_have_key(recs, key) {
                            let q = choose|q: int|
                                0 <= q < recs.len() && #[trigger] recs[q].0 == key;
                            crate::snap::lemma_find_index(b.snap.entries@, key);
                        }
                        assert(!recs_have_key(recs, key));
                    }
                },
            }
            if words - 1 > crate::format::MAX_SNAPSHOT_WORDS - b.snap.buf.len() {
                return Err(Error::TooLongSnap);
            }
            if words > ints.len() - pos {
                return Err(Error::ItemsUnpacking);
            }
            let data = vstd::slice::slice_subrange(ints, pos + 1, pos + words);
            let ghost pre = b.snap;
            match b.snap.insert_new(key, data) {
                Ok(()) => {
                    proof {
                        lemma_recs_push(pre, b.snap, key, data@);
                    }
                },
                Err(_) => {
                    proof {
                        assert(false);
                    }
                    return Err(Error::TooLongSnap);
                },
            }
            pos += words;
            i += 1;
        }
        if pos != ints.len() {
            return Err(Error::ItemsUnpacking);
        }
        proof {
            let recs = snap_recs(b.snap);
            assert(snap_decoding(ints@) == Ok::<Seq<(i32, Seq<i32>)>, Error>(recs));
        }
        Ok(b.finish())
    }
}

} // verus!
