//! The delta engine: a `Delta` holds the set of deleted keys and the map of
//! updated keys to diff words against an implicit from-snap; `create` diffs
//! two snaps, `Snap::read_with_delta` applies a delta to a reference snap.

use vstd::prelude::*;

use crate::format::Warning;
use crate::format::MAX_SNAPSHOT_WORDS;
use crate::snap::apply_delta;
use crate::snap::apply_diff;
use crate::snap::create_delta;
use crate::snap::diff_words;
use crate::snap::lemma_apply_diff_roundtrip;
use crate::snap::lemma_diff_self_zero;
use crate::snap::lemma_find_index;
use crate::snap::Error;
use crate::snap::Snap;

verus! {

/// The difference between two snaps: keys to delete and per-key diff words,
/// the latter stored as ranges into a shared backing buffer.
#[derive(Clone, Debug)]
pub struct Delta {
    /// Keys present in the from-snap but not in the to-snap.
    pub deleted: Vec<i32>,
    /// `(key, start, end)` ranges of diff words into `buf`.
    pub updated: Vec<(i32, usize, usize)>,
    /// The shared backing buffer of diff words.
    pub buf: Vec<i32>,
}

impl Delta {
    pub open spec fn num_updated(self) -> int {
        self.updated@.len() as int
    }

    pub open spec fn upd_key(self, j: int) -> i32 {
        self.updated@[j].0
    }

    pub open spec fn upd_data(self, j: int) -> Seq<i32> {
        self.buf@.subrange(self.updated@[j].1 as int, self.updated@[j].2 as int)
    }

    pub open spec fn upd_keys(self) -> Seq<i32> {
        Seq::new(self.updated@.len(), |j: int| self.updated@[j].0)
    }

    /// Well-formedness: unique deleted keys, unique updated keys, and every
    /// updated range lies inside the buffer.
    pub open spec fn wf(self) -> bool {
        &&& (forall|i: int, j: int|
            0 <= i < j < self.deleted@.len() ==> self.deleted@[i] != self.deleted@[j])
        &&& (forall|i: int, j: int|
            0 <= i < j < self.updated@.len() ==> self.updated@[i].0 != self.updated@[j].0)
        &&& (forall|j: int|
            0 <= j < self.updated@.len() ==> #[trigger] self.updated@[j].1 <= self.updated@[j].2
                <= self.buf@.len())
    }

    /// A new empty delta.
    pub fn new() -> (d: Delta)
        ensures
            d.wf(),
            d.deleted@ =~= Seq::<i32>::empty(),
            d.updated@ =~= Seq::<(i32, usize, usize)>::empty(),
            d.buf@ =~= Seq::<i32>::empty(),
    {
        Delta { deleted: Vec::new(), updated: Vec::new(), buf: Vec::new() }
    }

    /// Clears all three collections in place, keeping the allocations.
    pub fn clear(&mut self)
        ensures
            final (self).wf(),
            final (self).deleted@ =~= Seq::<i32>::empty(),
            final (self).updated@ =~= Seq::<(i32, usize, usize)>::empty(),
            final (self).buf@ =~= Seq::<i32>::empty(),
    {
        self.deleted.clear();
        self.updated.clear();
        self.buf.clear();
    }

    /// Whether `k` is among the deleted keys.
    pub(crate) fn contains_deleted(&self, k: i32) -> (r: bool)
        ensures
            r == self.deleted@.contains(k),
    {
        let n = self.deleted.len();
        let mut i: usize = 0;
        while i < n
            invariant
                i <= n,
                n == self.deleted@.len(),
                forall|j: int| 0 <= j < i ==> self.deleted@[j] != k,
            decreases n - i,
        {
            if self.deleted[i] == k {
                return true;
            }
            i += 1;
        }
        false
    }
}

/// The deleted-keys list `create` builds from the first `n` entries of
/// `from`: each key absent from `to`, in `from`'s entry order.
pub open spec fn create_deleted(from: Snap, to: Snap, n: int) -> Seq<i32>
    decreases n,
{
    if n <= 0 {
        Seq::empty()
    } else {
        let rest = create_deleted(from, to, n - 1);
        if to.has_key(from.entry_key(n - 1)) {
            rest
        } else {
            rest.push(from.entry_key(n - 1))
        }
    }
}

/// The diff words `create` stores for entry `j` of `to`: the element-wise
/// wrapping difference against the from-item, or the to-item itself when the
/// from-snap lacks the key.
pub open spec fn create_diff_at(from: Snap, to: Snap, j: int) -> Seq<i32> {
    if from.has_key(to.entry_key(j)) {
        diff_words(from.data_for(to.entry_key(j)), to.entry_data(j))
    } else {
        to.entry_data(j)
    }
}

/// The delta buffer `create` builds from the first `n` entries of `to`.
pub open spec fn create_buf(from: Snap, to: Snap, n: int) -> Seq<i32>
    decreases n,
{
    if n <= 0 {
        Seq::empty()
    } else {
        create_buf(from, to, n - 1) + create_diff_at(from, to, n - 1)
    }
}

/// Membership in the created deleted-keys list: exactly the keys of `from`'s
/// first `n` entries that `to` lacks.
pub proof fn lemma_create_deleted_contains(from: Snap, to: Snap, n: int, k: i32)
    requires
        0 <= n <= from.entries@.len(),
    ensures
        create_deleted(from, to, n).contains(k) <==> (exists|i: int|
            0 <= i < n && from.entry_key(i) == k && !to.has_key(k)),
    decreases n,
{
    if n > 0 {
        lemma_create_deleted_contains(from, to, n - 1, k);
        let rest = create_deleted(from, to, n - 1);
        if !to.has_key(from.entry_key(n - 1)) {
            assert forall|j: int| 0 <= j < rest.push(from.entry_key(n - 1)).len() implies
                rest.push(from.entry_key(n - 1))[j] == (if j < rest.len() {
                    rest[j]
                } else {
                    from.entry_key(n - 1)
                }) by {}
            if rest.contains(k) {
                assert(rest.push(from.entry_key(n - 1)).contains(k)) by {
                    let i = choose|i: int| 0 <= i < rest.len() && rest[i] == k;
                    assert(rest.push(from.entry_key(n - 1))[i] == k);
                }
            }
            if k == from.entry_key(n - 1) {
                assert(rest.push(k)[rest.len() as int] == k);
            }
        }
    }
}

/// Carry-forward of delta application: the mapping after copying the first
/// `n` entries of `from` whose keys are not listed in `del`.
pub open spec fn carry_map(from: Snap, del: Seq<i32>, n: int) -> Map<i32, Seq<i32>>
    decreases n,
{
    if n <= 0 {
        Map::empty()
    } else {
        let m = carry_map(from, del, n - 1);
        if del.contains(from.entry_key(n - 1)) {
            m
        } else {
            m.insert(from.entry_key(n - 1), from.entry_data(n - 1))
        }
    }
}

/// Words copied by the carry-forward of the first `n` entries.
pub open spec fn carry_words(from: Snap, del: Seq<i32>, n: int) -> int
    decreases n,
{
    if n <= 0 {
        0
    } else {
        carry_words(from, del, n - 1) + (if del.contains(from.entry_key(n - 1)) {
            0int
        } else {
            from.entry_len(n - 1)
        })
    }
}

/// How many of the first `n` entries of `from` the deleted-keys list matched.
pub open spec fn carry_count(from: Snap, del: Seq<i32>, n: int) -> int
    decreases n,
{
    if n <= 0 {
        0
    } else {
        carry_count(from, del, n - 1) + (if del.contains(from.entry_key(n - 1)) {
            1int
        } else {
            0int
        })
    }
}

pub proof fn lemma_carry_map(from: Snap, del: Seq<i32>, n: int)
    requires
        from.wf(),
        0 <= n <= from.entries@.len(),
    ensures
        forall|k: i32|
            #[trigger] carry_map(from, del, n).contains_key(k) <==> (exists|i: int|
                0 <= i < n && from.entry_key(i) == k && !del.contains(k)),
        forall|k: i32|
            #[trigger] carry_map(from, del, n).contains_key(k) ==> carry_map(from, del, n)[k]
                == from.data_for(k) && from.has_key(k),
    decreases n,
{
    if n > 0 {
        lemma_carry_map(from, del, n - 1);
        let kn = from.entry_key(n - 1);
        crate::snap::lemma_key_at(from, n - 1);
        assert forall|k: i32| #[trigger] carry_map(from, del, n).contains_key(k) implies (exists|
            i: int,
        |
            0 <= i < n && from.entry_key(i) == k && !del.contains(k)) by {
            if !del.contains(kn) && k == kn {
                assert(from.entry_key(n - 1) == k && !del.contains(k));
            } else {
                assert(carry_map(from, del, n - 1).contains_key(k));
                let i = choose|i: int|
                    0 <= i < n - 1 && from.entry_key(i) == k && !del.contains(k);
                assert(from.entry_key(i) == k && !del.contains(k));
            }
        }
        assert forall|k: i32| (exists|i: int|
            0 <= i < n && from.entry_key(i) == k && !del.contains(k)) implies #[trigger] carry_map(
            from,
            del,
            n,
        ).contains_key(k) by {
            let i = choose|i: int| 0 <= i < n && from.entry_key(i) == k && !del.contains(k);
            if i < n - 1 {
                assert(carry_map(from, del, n - 1).contains_key(k));
            }
        }
        assert forall|k: i32| #[trigger] carry_map(from, del, n).contains_key(k) implies carry_map(
            from,
            del,
            n,
        )[k] == from.data_for(k) && from.has_key(k) by {
            if del.contains(kn) || k != kn {
                assert(carry_map(from, del, n - 1).contains_key(k));
            }
        }
    }
}

/// Carries the two bookkeeping invariants of the update loop across one
/// successful step that sets key `k` (the key of update entry `j`) to `v`.
proof fn lemma_inv_step(
    d: Delta,
    m0: Map<i32, Seq<i32>>,
    m_cur: Map<i32, Seq<i32>>,
    mnew: Map<i32, Seq<i32>>,
    k: i32,
    v: Seq<i32>,
    j: int,
)
    requires
        0 <= j < d.updated@.len(),
        k == d.upd_key(j),
        mnew == m_cur.insert(k, v),
        forall|k2: i32|
            #[trigger] m_cur.contains_key(k2) ==> (d.upd_keys().take(j).contains(k2) || (
            m0.contains_key(k2) && m_cur[k2] == m0[k2])),
        forall|k2: i32| #[trigger] m0.contains_key(k2) ==> m_cur.contains_key(k2),
    ensures
        forall|k2: i32|
            #[trigger] mnew.contains_key(k2) ==> (d.upd_keys().take(j + 1).contains(k2) || (
            m0.contains_key(k2) && mnew[k2] == m0[k2])),
        forall|k2: i32| #[trigger] m0.contains_key(k2) ==> mnew.contains_key(k2),
{
    assert forall|k2: i32| #[trigger] mnew.contains_key(k2) implies (d.upd_keys().take(
        j + 1,
    ).contains(k2) || (m0.contains_key(k2) && mnew[k2] == m0[k2])) by {
        if k2 == k {
            assert(d.upd_keys().take(j + 1)[j] == k2);
        } else {
            assert(m_cur.contains_key(k2) && mnew[k2] == m_cur[k2]);
            if d.upd_keys().take(j).contains(k2) {
                let a = choose|a: int| 0 <= a < j && d.upd_keys().take(j)[a] == k2;
                assert(d.upd_keys().take(j + 1)[a] == k2);
            }
        }
    }
}

/// The carried words never pass the end of the last entry processed.
pub proof fn lemma_carry_words_le(from: Snap, del: Seq<i32>, n: int)
    requires
        from.wf(),
        0 <= n <= from.entries@.len(),
    ensures
        0 <= carry_words(from, del, n),
        carry_words(from, del, n) <= (if n == 0 {
            0int
        } else {
            from.entries@[n - 1].2 as int
        }),
    decreases n,
{
    if n > 0 {
        lemma_carry_words_le(from, del, n - 1);
    }
}

/// One step of delta application over the updated entries of `d`, from entry
/// `j` on: `m` is the mapping built so far, `w` the words stored so far.
/// Mirrors the processing order and the failure rules of
/// `Snap::read_with_delta`.
pub open spec fn apply_updates(
    from: Snap,
    d: Delta,
    m: Map<i32, Seq<i32>>,
    w: int,
    j: int,
) -> Result<(Map<i32, Seq<i32>>, int), Error>
    decreases d.updated@.len() - j,
{
    if j < 0 || j >= d.updated@.len() {
        Ok((m, w))
    } else {
        let k = d.upd_key(j);
        let diff = d.upd_data(j);
        if m.contains_key(k) {
            if m[k].len() != diff.len() {
                Err(Error::DeltaDifferingSizes)
            } else {
                apply_updates(
                    from,
                    d,
                    m.insert(k, apply_diff(from.data_for(k), diff)),
                    w,
                    j + 1,
                )
            }
        } else if w + diff.len() > MAX_SNAPSHOT_WORDS {
            Err(Error::TooLongSnap)
        } else if from.has_key(k) {
            if from.data_for(k).len() != diff.len() {
                Err(Error::DeltaDifferingSizes)
            } else {
                apply_updates(
                    from,
                    d,
                    m.insert(k, apply_diff(from.data_for(k), diff)),
                    w + diff.len(),
                    j + 1,
                )
            }
        } else {
            apply_updates(from, d, m.insert(k, diff), w + diff.len(), j + 1)
        }
    }
}

/// The mapping that applying `d` to `from` produces, or the error it fails
/// with.
pub open spec fn spec_apply(from: Snap, d: Delta) -> Result<Map<i32, Seq<i32>>, Error> {
    let m0 = carry_map(from, d.deleted@, from.num_items());
    let w0 = carry_words(from, d.deleted@, from.num_items());
    match apply_updates(from, d, m0, w0, 0) {
        Ok((m, w)) => Ok(m),
        Err(e) => Err(e),
    }
}

/// The warnings applying `d` to `from` emits: `UnknownDelete` exactly when
/// the deleted-keys list did not match item-for-item.
pub open spec fn apply_warnings(from: Snap, d: Delta) -> Seq<Warning> {
    if carry_count(from, d.deleted@, from.num_items()) != d.deleted@.len() {
        seq![Warning::UnknownDelete]
    } else {
        Seq::empty()
    }
}

impl Delta {
    /// Clears the delta and fills it with the difference from `from` to
    /// `to`: keys of `from` absent in `to` become deletions; every item of
    /// `to` becomes an update whose diff words are the element-wise wrapping
    /// difference (or the item itself where `from` lacks the key).  Items
    /// shared by both snaps must have equal sizes.
    #[verifier::rlimit(50)]
    pub fn create(&mut self, from: &Snap, to: &Snap)
        requires
            from.wf(),
            to.wf(),
            forall|k: i32|
                #![trigger from.data_for(k), to.data_for(k)]
                from.has_key(k) && to.has_key(k) ==> from.data_for(k).len() == to.data_for(
                    k,
                ).len(),
        ensures
            final (self).wf(),
            final (self).deleted@ == create_deleted(*from, *to, from.num_items()),
            final (self).updated@ == to.entries@,
            final (self).buf@ == create_buf(*from, *to, to.num_items()),
    {
        self.clear();
        let n_from = from.entries.len();
        let mut i: usize = 0;
        while i < n_from
            invariant
                i <= n_from,
                n_from == from.entries@.len(),
                from.wf(),
                to.wf(),
                self.deleted@ == create_deleted(*from, *to, i as int),
                self.updated@.len() == 0,
                self.buf@.len() == 0,
                forall|a: int, b: int|
                    0 <= a < b < self.deleted@.len() ==> self.deleted@[a] != self.deleted@[b],
            decreases n_from - i,
        {
            let k = from.entries[i].0;
            match to.find_entry(k) {
                Some(_) => {},
                None => {
                    let ghost old_del = self.deleted@;
                    proof {
                        lemma_create_deleted_contains(*from, *to, i as int, k);
                        if old_del.contains(k) {
                            let a = choose|a: int|
                                0 <= a < i && from.entry_key(a) == k && !to.has_key(k);
                            crate::snap::lemma_key_at(*from, a);
                            crate::snap::lemma_key_at(*from, i as int);
                        }
                        assert(!old_del.contains(k));
                    }
                    self.deleted.push(k);
                    proof {
                        assert forall|a: int, b: int|
                            0 <= a < b < self.deleted@.len() implies self.deleted@[a]
                            != self.deleted@[b] by {
                            if b == self.deleted@.len() - 1 {
                                if old_del[a] == k {
                                    assert(old_del.contains(k));
                                }
                            }
                        }
                    }
                },
            }
            i += 1;
        }
        let n_to = to.entries.len();
        let mut j: usize = 0;
        while j < n_to
            invariant
                j <= n_to,
                n_to == to.entries@.len(),
                from.wf(),
                to.wf(),
                forall|k: i32|
                    #![trigger from.data_for(k), to.data_for(k)]
                    from.has_key(k) && to.has_key(k) ==> from.data_for(k).len() == to.data_for(
                        k,
                    ).len(),
                self.deleted@ == create_deleted(*from, *to, from.num_items()),
                forall|a: int, b: int|
                    0 <= a < b < self.deleted@.len() ==> self.deleted@[a] != self.deleted@[b],
                self.updated@ == to.entries@.take(j as int),
                self.buf@ == create_buf(*from, *to, j as int),
                self.buf@.len() == (if j == 0 {
                    0int
                } else {
                    to.entries@[j - 1].2 as int
                }),
            decreases n_to - j,
        {
            let (k, ts, te) = to.entries[j];
            proof {
                crate::snap::lemma_key_at(*to, j as int);
            }
            let tdata = vstd::slice::slice_subrange(to.buf.as_slice(), ts, te);
            let diff: Vec<i32> = match from.find_entry(k) {
                Some(fi) => {
                    let (_, fs, fe) = from.entries[fi];
                    let fdata = vstd::slice::slice_subrange(from.buf.as_slice(), fs, fe);
                    proof {
                        assert(from.data_for(k).len() == to.data_for(k).len());
                    }
                    create_delta(Some(fdata), tdata)
                },
                None => create_delta(None, tdata),
            };
            let start = self.buf.len();
            let end = start + diff.len();
            self.buf.extend_from_slice(diff.as_slice());
            self.updated.push((k, start, end));
            proof {
                assert(diff@ == create_diff_at(*from, *to, j as int));
                assert(self.buf@ =~= create_buf(*from, *to, j + 1));
                assert(self.updated@ =~= to.entries@.take(j + 1));
            }
            j += 1;
        }
        proof {
            assert(to.entries@.take(n_to as int) =~= to.entries@);
        }
    }
}

/// Where the first `j` entries of a snap end in its buffer.
pub open spec fn prefix_end(s: Snap, j: int) -> int {
    if j <= 0 {
        0
    } else {
        s.entries@[j - 1].2 as int
    }
}

/// Words of `b`'s entries from `j` on whose keys the list `ks` holds.
pub open spec fn ksum(b: Snap, ks: Seq<i32>, j: int) -> int
    decreases b.entries@.len() - j,
{
    if j < 0 || j >= b.entries@.len() {
        0
    } else {
        (if ks.contains(b.entry_key(j)) {
            b.entry_len(j)
        } else {
            0int
        }) + ksum(b, ks, j + 1)
    }
}

/// Words of `b`'s entries from `j` on whose keys `a` lacks: what delta
/// application appends beyond the carried items.
pub open spec fn new_words(b: Snap, a: Snap, j: int) -> int
    decreases b.entries@.len() - j,
{
    if j < 0 || j >= b.entries@.len() {
        0
    } else {
        (if a.has_key(b.entry_key(j)) {
            0int
        } else {
            b.entry_len(j)
        }) + new_words(b, a, j + 1)
    }
}

pub proof fn lemma_key_seq_contains(s: Snap, k: i32)
    ensures
        s.key_seq().contains(k) <==> s.has_key(k),
{
    lemma_find_index(s.entries@, k);
    if s.has_key(k) {
        assert(s.key_seq()[s.find_key(k)] == k);
    }
    if s.key_seq().contains(k) {
        let i = choose|i: int| 0 <= i < s.key_seq().len() && s.key_seq()[i] == k;
        assert(s.entries@[i].0 == k);
    }
}

/// Adding one absent key to the list grows the sum by that key's entry, when
/// `b` holds it at or past `j`.
pub proof fn lemma_ksum_push(b: Snap, ks: Seq<i32>, k: i32, j: int)
    requires
        b.wf(),
        !ks.contains(k),
        0 <= j <= b.entries@.len(),
    ensures
        ksum(b, ks.push(k), j) == ksum(b, ks, j) + (if b.has_key(k) && b.find_key(k) >= j {
            b.entry_len(b.find_key(k))
        } else {
            0int
        }),
    decreases b.entries@.len() - j,
{
    lemma_find_index(b.entries@, k);
    if j < b.entries@.len() {
        lemma_ksum_push(b, ks, k, j + 1);
        let kj = b.entry_key(j);
        assert(ks.push(k).contains(kj) <==> (ks.contains(kj) || kj == k)) by {
            if ks.contains(kj) {
                let a = choose|a: int| 0 <= a < ks.len() && ks[a] == kj;
                assert(ks.push(k)[a] == kj);
            }
            if kj == k {
                assert(ks.push(k)[ks.len() as int] == kj);
            }
            if ks.push(k).contains(kj) {
                let a = choose|a: int| 0 <= a < ks.push(k).len() && ks.push(k)[a] == kj;
                if a < ks.len() {
                    assert(ks[a] == kj);
                }
            }
        }
        if kj == k {
            crate::snap::lemma_key_at(b, j);
        } else {
            if b.has_key(k) {
                assert(b.find_key(k) >= j + 1 <==> b.find_key(k) >= j);
            }
        }
    }
}

/// The carried words equal the sum over `b` of the entries whose keys the
/// first `n` entries of `a` supply (sizes matching on shared keys).
pub proof fn lemma_carry_words_eq(a: Snap, b: Snap, dels: Seq<i32>, n: int)
    requires
        a.wf(),
        b.wf(),
        forall|k: i32|
            #![trigger a.data_for(k), b.data_for(k)]
            a.has_key(k) && b.has_key(k) ==> a.data_for(k).len() == b.data_for(k).len(),
        dels == create_deleted(a, b, a.num_items()),
        0 <= n <= a.entries@.len(),
    ensures
        carry_words(a, dels, n) == ksum(b, a.key_seq().take(n), 0),
    decreases n,
{
    if n == 0 {
        lemma_ksum_empty(b, a.key_seq().take(0), 0);
    } else {
        lemma_carry_words_eq(a, b, dels, n - 1);
        let kn = a.entry_key(n - 1);
        crate::snap::lemma_key_at(a, n - 1);
        lemma_create_deleted_contains(a, b, a.num_items(), kn);
        assert(dels.contains(kn) <==> !b.has_key(kn)) by {
            if !b.has_key(kn) {
                assert(0 <= n - 1 < a.num_items() && a.entry_key(n - 1) == kn);
            }
        }
        assert(!a.key_seq().take(n - 1).contains(kn)) by {
            if a.key_seq().take(n - 1).contains(kn) {
                let i = choose|i: int|
                    0 <= i < n - 1 && #[trigger] a.key_seq().take(n - 1)[i] == kn;
                assert(a.entries@[i].0 == a.entries@[n - 1].0);
            }
        }
        assert(a.key_seq().take(n) =~= a.key_seq().take(n - 1).push(kn));
        lemma_ksum_push(b, a.key_seq().take(n - 1), kn, 0);
        if b.has_key(kn) {
            lemma_find_index(b.entries@, kn);
            crate::snap::lemma_key_at(b, b.find_key(kn));
            assert(a.entry_len(n - 1) == a.data_for(kn).len());
            assert(b.entry_len(b.find_key(kn)) == b.data_for(kn).len());
        }
    }
}

pub proof fn lemma_new_words_nonneg(b: Snap, a: Snap, j: int)
    requires
        b.wf(),
        0 <= j <= b.entries@.len(),
    ensures
        new_words(b, a, j) >= 0,
    decreases b.entries@.len() - j,
{
    if j < b.entries@.len() {
        lemma_new_words_nonneg(b, a, j + 1);
    }
}

pub proof fn lemma_ksum_empty(b: Snap, ks: Seq<i32>, j: int)
    requires
        ks.len() == 0,
        0 <= j <= b.entries@.len(),
    ensures
        ksum(b, ks, j) == 0,
    decreases b.entries@.len() - j,
{
    if j < b.entries@.len() {
        lemma_ksum_empty(b, ks, j + 1);
    }
}

/// Shared words plus new words from `j` on make up the rest of `b`'s buffer.
pub proof fn lemma_words_split(b: Snap, a: Snap, j: int)
    requires
        b.wf(),
        0 <= j <= b.entries@.len(),
    ensures
        ksum(b, a.key_seq(), j) + new_words(b, a, j) == b.buf@.len() - prefix_end(b, j),
    decreases b.entries@.len() - j,
{
    if j < b.entries@.len() {
        lemma_words_split(b, a, j + 1);
        lemma_key_seq_contains(a, b.entry_key(j));
    }
}

/// The created diff buffer tiles like `to`'s entries.
pub proof fn lemma_create_buf_len(a: Snap, b: Snap, n: int)
    requires
        a.wf(),
        b.wf(),
        forall|k: i32|
            #![trigger a.data_for(k), b.data_for(k)]
            a.has_key(k) && b.has_key(k) ==> a.data_for(k).len() == b.data_for(k).len(),
        0 <= n <= b.entries@.len(),
    ensures
        create_buf(a, b, n).len() == prefix_end(b, n),
    decreases n,
{
    if n > 0 {
        lemma_create_buf_len(a, b, n - 1);
        crate::snap::lemma_key_at(b, n - 1);
    }
}

/// Reading entry `j`'s range out of the created diff buffer gives entry
/// `j`'s diff words.
pub proof fn lemma_create_buf_at(a: Snap, b: Snap, n: int, j: int)
    requires
        a.wf(),
        b.wf(),
        forall|k: i32|
            #![trigger a.data_for(k), b.data_for(k)]
            a.has_key(k) && b.has_key(k) ==> a.data_for(k).len() == b.data_for(k).len(),
        0 <= j < n <= b.entries@.len(),
    ensures
        create_buf(a, b, n).subrange(b.entries@[j].1 as int, b.entries@[j].2 as int)
            == create_diff_at(a, b, j),
    decreases n,
{
    lemma_create_buf_len(a, b, n - 1);
    lemma_create_buf_len(a, b, n);
    crate::snap::lemma_key_at(b, n - 1);
    if j == n - 1 {
        assert(create_buf(a, b, n).subrange(b.entries@[j].1 as int, b.entries@[j].2 as int)
            =~= create_diff_at(a, b, j));
    } else {
        lemma_create_buf_at(a, b, n - 1, j);
        crate::snap::lemma_range_order(b, j, n - 1);
        assert(create_buf(a, b, n).subrange(b.entries@[j].1 as int, b.entries@[j].2 as int)
            =~= create_buf(a, b, n - 1).subrange(b.entries@[j].1 as int, b.entries@[j].2 as int));
    }
}

/// The deleted-keys list of a created delta matches the from-snap
/// item-for-item.
pub proof fn lemma_carry_count_eq(a: Snap, b: Snap, dels: Seq<i32>, n: int)
    requires
        a.wf(),
        dels == create_deleted(a, b, a.num_items()),
        0 <= n <= a.entries@.len(),
    ensures
        carry_count(a, dels, n) == create_deleted(a, b, n).len(),
    decreases n,
{
    if n > 0 {
        lemma_carry_count_eq(a, b, dels, n - 1);
        let kn = a.entry_key(n - 1);
        lemma_create_deleted_contains(a, b, a.num_items(), kn);
        if !b.has_key(kn) {
            assert(0 <= n - 1 < a.num_items() && a.entry_key(n - 1) == kn);
        }
    }
}

/// The update phase of applying a created delta rebuilds exactly the
/// to-snap's mapping: downward induction over the update entries.
proof fn lemma_apply_steps(a: Snap, b: Snap, d: Delta, m: Map<i32, Seq<i32>>, w: int, j: int)
    requires
        a.wf(),
        b.wf(),
        forall|k: i32|
            #![trigger a.data_for(k), b.data_for(k)]
            a.has_key(k) && b.has_key(k) ==> a.data_for(k).len() == b.data_for(k).len(),
        d.updated@ == b.entries@,
        d.buf@ == create_buf(a, b, b.num_items()),
        0 <= j <= b.entries@.len(),
        forall|k: i32|
            #[trigger] m.contains_key(k) <==> ((a.has_key(k) && b.has_key(k)) || (b.has_key(k)
                && b.find_key(k) < j)),
        forall|k: i32|
            #[trigger] m.contains_key(k) ==> m[k] == (if b.has_key(k) && b.find_key(k) < j {
                b.data_for(k)
            } else {
                a.data_for(k)
            }),
        w + new_words(b, a, j) <= MAX_SNAPSHOT_WORDS,
    ensures
        apply_updates(a, d, m, w, j) matches Ok(p) && p.0 == b.as_map(),
    decreases b.entries@.len() - j,
{
    if j >= b.entries@.len() {
        assert(m =~= b.as_map()) by {
            assert forall|k: i32| #[trigger] b.as_map().contains_key(k) implies m.contains_key(k)
                && m[k] == b.as_map()[k] by {
                lemma_find_index(b.entries@, k);
                assert(b.has_key(k) && b.find_key(k) < j);
            }
        }
    } else {
        let k = d.upd_key(j);
        let diff = d.upd_data(j);
        crate::snap::lemma_key_at(b, j);
        lemma_create_buf_at(a, b, b.num_items(), j);
        assert(diff == create_diff_at(a, b, j));
        lemma_find_index(a.entries@, k);
        if m.contains_key(k) {
            assert(a.has_key(k));
            assert(m[k] == a.data_for(k));
            assert(diff == diff_words(a.data_for(k), b.entry_data(j)));
            assert(m[k].len() == diff.len());
            lemma_apply_diff_roundtrip(a.data_for(k), b.entry_data(j));
            let mnew = m.insert(k, apply_diff(a.data_for(k), diff));
            assert(mnew[k] == b.data_for(k));
            assert forall|k2: i32| #[trigger] mnew.contains_key(k2) implies ((a.has_key(k2)
                && b.has_key(k2)) || (b.has_key(k2) && b.find_key(k2) < j + 1)) by {}
            assert forall|k2: i32| ((a.has_key(k2) && b.has_key(k2)) || (b.has_key(k2)
                && b.find_key(k2) < j + 1)) implies #[trigger] mnew.contains_key(k2) by {
                if k2 != k && b.has_key(k2) && b.find_key(k2) < j + 1 && !(a.has_key(k2)
                    && b.has_key(k2)) {
                    lemma_find_index(b.entries@, k2);
                    assert(b.find_key(k2) != j);
                }
            }
            assert forall|k2: i32| #[trigger] mnew.contains_key(k2) implies mnew[k2] == (if
                b.has_key(k2) && b.find_key(k2) < j + 1 {
                b.data_for(k2)
            } else {
                a.data_for(k2)
            }) by {
                if k2 != k && b.has_key(k2) {
                    lemma_find_index(b.entries@, k2);
                    assert(b.find_key(k2) != j);
                }
            }
            lemma_apply_steps(a, b, d, mnew, w, j + 1);
        } else {
            assert(!a.has_key(k));
            assert(diff == b.entry_data(j));
            lemma_new_words_nonneg(b, a, j + 1);
            assert(w + diff.len() <= MAX_SNAPSHOT_WORDS);
            let mnew = m.insert(k, diff);
            assert(mnew[k] == b.data_for(k));
            assert forall|k2: i32| ((a.has_key(k2) && b.has_key(k2)) || (b.has_key(k2)
                && b.find_key(k2) < j + 1)) implies #[trigger] mnew.contains_key(k2) by {
                if k2 != k && b.has_key(k2) && b.find_key(k2) < j + 1 && !(a.has_key(k2)
                    && b.has_key(k2)) {
                    lemma_find_index(b.entries@, k2);
                    assert(b.find_key(k2) != j);
                }
            }
            assert forall|k2: i32| #[trigger] mnew.contains_key(k2) implies mnew[k2] == (if
                b.has_key(k2) && b.find_key(k2) < j + 1 {
                b.data_for(k2)
            } else {
                a.data_for(k2)
            }) by {
                if k2 != k && b.has_key(k2) {
                    lemma_find_index(b.entries@, k2);
                    assert(b.find_key(k2) != j);
                }
            }
            lemma_apply_steps(a, b, d, mnew, w + diff.len(), j + 1);
        }
    }
}

/// Delta correctness: applying `create(a, b)` to `a` rebuilds `b` exactly,
/// as a mapping from key to item data, with no warnings.
pub proof fn lemma_create_apply(a: Snap, b: Snap, d: Delta)
    requires
        a.wf(),
        b.wf(),
        forall|k: i32|
            #![trigger a.data_for(k), b.data_for(k)]
            a.has_key(k) && b.has_key(k) ==> a.data_for(k).len() == b.data_for(k).len(),
        d.deleted@ == create_deleted(a, b, a.num_items()),
        d.updated@ == b.entries@,
        d.buf@ == create_buf(a, b, b.num_items()),
    ensures
        spec_apply(a, d) matches Ok(m) && m == b.as_map(),
        apply_warnings(a, d) == Seq::<Warning>::empty(),
{
    let dels = d.deleted@;
    let m0 = carry_map(a, dels, a.num_items());
    let w0 = carry_words(a, dels, a.num_items());
    lemma_carry_map(a, dels, a.num_items());
    lemma_find_index(a.entries@, 0);
    assert forall|k: i32| #[trigger] m0.contains_key(k) implies ((a.has_key(k) && b.has_key(k))
        || (b.has_key(k) && b.find_key(k) < 0)) by {
        lemma_create_deleted_contains(a, b, a.num_items(), k);
    }
    assert forall|k: i32| ((a.has_key(k) && b.has_key(k)) || (b.has_key(k) && b.find_key(k)
        < 0)) implies #[trigger] m0.contains_key(k) by {
        lemma_find_index(b.entries@, k);
        assert(a.has_key(k) && b.has_key(k));
        lemma_find_index(a.entries@, k);
        lemma_create_deleted_contains(a, b, a.num_items(), k);
        assert(a.entry_key(a.find_key(k)) == k && !dels.contains(k));
    }
    lemma_carry_words_eq(a, b, dels, a.num_items());
    assert(a.key_seq().take(a.num_items()) =~= a.key_seq());
    lemma_words_split(b, a, 0);
    assert(w0 + new_words(b, a, 0) <= MAX_SNAPSHOT_WORDS);
    lemma_apply_steps(a, b, d, m0, w0, 0);
    lemma_carry_count_eq(a, b, dels, a.num_items());
    assert(apply_warnings(a, d) =~= Seq::<Warning>::empty());
}

/// A delta of a snap against itself deletes nothing, its diff words are all
/// zero, and applying it gives the snap back.
pub proof fn lemma_create_self(a: Snap, d: Delta)
    requires
        a.wf(),
        d.deleted@ == create_deleted(a, a, a.num_items()),
        d.updated@ == a.entries@,
        d.buf@ == create_buf(a, a, a.num_items()),
    ensures
        d.deleted@ == Seq::<i32>::empty(),
        forall|j: int, i: int|
            0 <= j < d.updated@.len() && 0 <= i < d.upd_data(j).len() ==> d.upd_data(j)[i] == 0i32,
        spec_apply(a, d) matches Ok(m) && m == a.as_map(),
        apply_warnings(a, d) == Seq::<Warning>::empty(),
{
    lemma_create_deleted_self(a, a.num_items());
    assert(d.deleted@ =~= Seq::<i32>::empty());
    assert forall|j: int, i: int|
        0 <= j < d.updated@.len() && 0 <= i < d.upd_data(j).len() implies d.upd_data(j)[i]
        == 0i32 by {
        lemma_create_buf_at(a, a, a.num_items(), j);
        crate::snap::lemma_key_at(a, j);
        lemma_diff_self_zero(a.entry_data(j));
    }
    lemma_create_apply(a, a, d);
}

proof fn lemma_create_deleted_self(a: Snap, n: int)
    requires
        a.wf(),
        0 <= n <= a.entries@.len(),
    ensures
        create_deleted(a, a, n) == Seq::<i32>::empty(),
    decreases n,
{
    if n > 0 {
        lemma_create_deleted_self(a, n - 1);
        crate::snap::lemma_key_at(a, n - 1);
    }
}

impl Snap {
    /// Applies `delta` to `from`, rebuilding `self` as the resulting snap:
    /// items of `from` not listed as deleted are carried over, then each
    /// updated item is written as `(from word or 0) + diff word`, wrapping.
    /// Emits `UnknownDelete` when the deleted-keys list did not match
    /// item-for-item.  On failure the snap stays well-formed but its
    /// contents are unspecified; callers discard it.
    #[verifier::rlimit(50)]
    pub fn read_with_delta(
        &mut self,
        warn: &mut Vec<Warning>,
        from: &Snap,
        delta: &Delta,
    ) -> (r: Result<(), Error>)
        requires
            from.wf(),
            delta.wf(),
        ensures
            final (self).wf(),
            final (warn)@ == old(warn)@ + apply_warnings(*from, *delta),
            match r {
                Ok(()) => spec_apply(*from, *delta) matches Ok(m) && final (self).as_map() == m,
                Err(e) => spec_apply(*from, *delta) == Err::<Map<i32, Seq<i32>>, Error>(e),
            },
    {
        self.clear();
        let ghost dels = delta.deleted@;
        let n_from = from.entries.len();
        let mut num_deletions: usize = 0;
        let mut i: usize = 0;
        while i < n_from
            invariant
                i <= n_from,
                n_from == from.entries@.len(),
                from.wf(),
                delta.wf(),
                dels == delta.deleted@,
                self.wf(),
                self.as_map() == carry_map(*from, dels, i as int),
                self.buf@.len() == carry_words(*from, dels, i as int),
                num_deletions == carry_count(*from, dels, i as int),
                num_deletions <= i,
            decreases n_from - i,
        {
            let (k, fs, fe) = from.entries[i];
            proof {
                crate::snap::lemma_key_at(*from, i as int);
                lemma_carry_map(*from, dels, i as int);
                lemma_carry_words_le(*from, dels, i as int);
            }
            if delta.contains_deleted(k) {
                num_deletions += 1;
            } else {
                let data = vstd::slice::slice_subrange(from.buf.as_slice(), fs, fe);
                let ghost pre = *self;
                match self.insert_new(k, data) {
                    Ok(()) => {
                        proof {
                            crate::snap::lemma_as_map_push(pre, *self, k, data@);
                        }
                    },
                    Err(_) => {
                        proof {
                            if pre.find_key(k) >= 0 {
                                assert(pre.as_map().contains_key(k));
                                let a = choose|a: int|
                                    0 <= a < i && from.entry_key(a) == k && !dels.contains(k);
                            }
                            assert(false);
                        }
                        return Err(Error::TooLongSnap);
                    },
                }
            }
            i += 1;
        }
        if num_deletions != delta.deleted.len() {
            warn.push(Warning::UnknownDelete);
        }
        let ghost m0 = carry_map(*from, dels, from.num_items());
        let ghost w0 = carry_words(*from, dels, from.num_items());
        proof {
            lemma_carry_map(*from, dels, from.num_items());
        }
        let n_upd = delta.updated.len();
        let mut j: usize = 0;
        while j < n_upd
            invariant
                j <= n_upd,
                n_upd == delta.updated@.len(),
                from.wf(),
                delta.wf(),
                dels == delta.deleted@,
                m0 == carry_map(*from, dels, from.num_items()),
                w0 == carry_words(*from, dels, from.num_items()),
                self.wf(),
                warn@ == old(warn)@ + apply_warnings(*from, *delta),
                apply_updates(*from, *delta, m0, w0, 0) == apply_updates(
                    *from,
                    *delta,
                    self.as_map(),
                    self.buf@.len() as int,
                    j as int,
                ),
                forall|k: i32|
                    #[trigger] self.as_map().contains_key(k) ==> (delta.upd_keys().take(
                        j as int,
                    ).contains(k) || (m0.contains_key(k) && self.as_map()[k] == m0[k])),
                forall|k: i32|
                    #[trigger] m0.contains_key(k) ==> self.as_map().contains_key(k),
                forall|k: i32|
                    #[trigger] m0.contains_key(k) ==> m0[k] == from.data_for(k) && from.has_key(
                        k,
                    ),
            decreases n_upd - j,
        {
            let (k, ds, de) = delta.updated[j];
            let diff = vstd::slice::slice_subrange(delta.buf.as_slice(), ds, de);
            let ghost m_cur = self.as_map();
            let ghost w_cur = self.buf@.len() as int;
            proof {
                assert(diff@ == delta.upd_data(j as int));
                assert(k == delta.upd_key(j as int));
                assert(!delta.upd_keys().take(j as int).contains(k)) by {
                    if delta.upd_keys().take(j as int).contains(k) {
                        let a = choose|a: int|
                            0 <= a < j && delta.upd_keys().take(j as int)[a] == k;
                        assert(delta.updated@[a].0 == delta.updated@[j as int].0);
                    }
                }
            }
            match self.find_entry(k) {
                Some(si) => {
                    let (_, es, ee) = self.entries[si];
                    proof {
                        assert(m_cur.contains_key(k));
                        assert(m_cur[k] == self.entry_data(si as int));
                        assert(m_cur[k] == m0[k] && m0[k] == from.data_for(k));
                    }
                    if ee - es != de - ds {
                        proof {
                            assert(m_cur[k].len() != diff@.len());
                        }
                        return Err(Error::DeltaDifferingSizes);
                    }
                    match from.find_entry(k) {
                        Some(fi) => {
                            let (_, fs, fe) = from.entries[fi];
                            let fdata = vstd::slice::slice_subrange(from.buf.as_slice(), fs, fe);
                            proof {
                                assert(fdata@ == from.data_for(k));
                            }
                            match apply_delta(Some(fdata), diff) {
                                Ok(out) => {
                                    let ghost pre = *self;
                                    self.write_entry(si, out.as_slice());
                                    proof {
                                        crate::snap::lemma_as_map_write(
                                            pre,
                                            *self,
                                            si as int,
                                            out@,
                                        );
                                        let v = apply_diff(from.data_for(k), diff@);
                                        assert(out@ == v);
                                        assert(self.as_map() == m_cur.insert(k, v));
                                        assert(apply_updates(*from, *delta, m_cur, w_cur, j as int)
                                            == apply_updates(
                                            *from,
                                            *delta,
                                            self.as_map(),
                                            self.buf@.len() as int,
                                            j + 1,
                                        ));
                                        lemma_inv_step(
                                            *delta,
                                            m0,
                                            m_cur,
                                            self.as_map(),
                                            k,
                                            v,
                                            j as int,
                                        );
                                    }
                                },
                                Err(_) => {
                                    proof {
                                        assert(false);
                                    }
                                    return Err(Error::DeltaDifferingSizes);
                                },
                            }
                        },
                        None => {
                            proof {
                                assert(false);
                            }
                            return Err(Error::DeltaDifferingSizes);
                        },
                    }
                },
                None => {
                    proof {
                        assert(!m_cur.contains_key(k));
                    }
                    if de - ds > MAX_SNAPSHOT_WORDS - self.buf.len() {
                        proof {
                            assert(self.buf@.len() + diff@.len() > MAX_SNAPSHOT_WORDS);
                        }
                        return Err(Error::TooLongSnap);
                    }
                    let out: Vec<i32>;
                    match from.find_entry(k) {
                        Some(fi) => {
                            let (_, fs, fe) = from.entries[fi];
                            let fdata = vstd::slice::slice_subrange(from.buf.as_slice(), fs, fe);
                            proof {
                                assert(fdata@ == from.data_for(k));
                            }
                            if fe - fs != de - ds {
                                proof {
                                    assert(from.data_for(k).len() != diff@.len());
                                }
                                return Err(Error::DeltaDifferingSizes);
                            }
                            match apply_delta(Some(fdata), diff) {
                                Ok(v) => {
                                    out = v;
                                },
                                Err(_) => {
                                    proof {
                                        assert(false);
                                    }
                                    return Err(Error::DeltaDifferingSizes);
                                },
                            }
                        },
                        None => {
                            let mut v: Vec<i32> = Vec::new();
                            v.extend_from_slice(diff);
                            out = v;
                        },
                    }
                    let ghost pre = *self;
                    let ghost v_spec = if from.has_key(k) {
                        apply_diff(from.data_for(k), diff@)
                    } else {
                        diff@
                    };
                    proof {
                        assert(out@ == v_spec);
                    }
                    match self.insert_new(k, out.as_slice()) {
                        Ok(()) => {
                            proof {
                                crate::snap::lemma_as_map_push(pre, *self, k, out@);
                                assert(self.as_map() == m_cur.insert(k, v_spec));
                                assert(self.buf@.len() == w_cur + diff@.len());
                                assert(apply_updates(*from, *delta, m_cur, w_cur, j as int)
                                    == apply_updates(
                                    *from,
                                    *delta,
                                    self.as_map(),
                                    self.buf@.len() as int,
                                    j + 1,
                                ));
                                lemma_inv_step(
                                    *delta,
                                    m0,
                                    m_cur,
                                    self.as_map(),
                                    k,
                                    v_spec,
                                    j as int,
                                );
                            }
                        },
                        Err(_) => {
                            proof {
                                assert(false);
                            }
                            return Err(Error::TooLongSnap);
                        },
                    }
                },
            }
            j += 1;
        }
        Ok(())
    }
}

} // verus!
