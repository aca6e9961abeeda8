//! The delta wire codec: header, deleted keys, then one record per updated
//! item.  A record is `type_id`, `id`, the diff length unless the schema
//! fixes it, then the diff words.  The schema is the caller-supplied
//! `object_size` lookup, here a list of `(type_id, fixed word count)` pairs;
//! the same lookup must be used on both sides.

use vstd::prelude::*;

use crate::delta::Delta;
use crate::format::spec_key;
use crate::format::spec_key_id;
use crate::format::spec_key_type_id;
use crate::format::Warning;
use crate::snap::Error;

verus! {

/// The fixed word count the schema gives `type_id`, scanning first-match.
pub open spec fn lookup_size(sizes: Seq<(u16, u32)>, type_id: u16) -> Option<u32>
    decreases sizes.len(),
{
    if sizes.len() == 0 {
        None
    } else if sizes[0].0 == type_id {
        Some(sizes[0].1)
    } else {
        lookup_size(sizes.drop_first(), type_id)
    }
}

/// Looks `type_id` up in the schema list, first match wins.
pub fn object_size(sizes: &[(u16, u32)], type_id: u16) -> (r: Option<u32>)
    ensures
        r == lookup_size(sizes@, type_id),
{
    let n = sizes.len();
    proof {
        assert(sizes@.skip(0) =~= sizes@);
    }
    let mut i: usize = 0;
    while i < n
        invariant
            i <= n,
            n == sizes@.len(),
            lookup_size(sizes@, type_id) == lookup_size(sizes@.skip(i as int), type_id),
        decreases n - i,
    {
        let (t, sz) = *vstd::slice::slice_index_get(sizes, i);
        proof {
            assert(sizes@.skip(i as int)[0] == sizes@[i as int]);
            assert(sizes@.skip(i as int).drop_first() =~= sizes@.skip(i + 1));
        }
        if t == type_id {
            return Some(sz);
        }
        i += 1;
    }
    proof {
        assert(sizes@.skip(n as int).len() == 0);
    }
    None
}

/// One encoded update record.
pub open spec fn update_record(d: Delta, sizes: Seq<(u16, u32)>, j: int) -> Seq<i32> {
    let k = d.upd_key(j);
    let data = d.upd_data(j);
    seq![spec_key_type_id(k) as i32, spec_key_id(k) as i32] + (match lookup_size(
        sizes,
        spec_key_type_id(k),
    ) {
        Some(_) => Seq::<i32>::empty(),
        None => seq![data.len() as i32],
    }) + data
}

/// The first `n` update records, concatenated.
pub open spec fn encode_updates(d: Delta, sizes: Seq<(u16, u32)>, n: int) -> Seq<i32>
    decreases n,
{
    if n <= 0 {
        Seq::empty()
    } else {
        encode_updates(d, sizes, n - 1) + update_record(d, sizes, n - 1)
    }
}

/// The full int sequence a delta serializes to: header, deleted keys in
/// list order, then the update records in list order.
pub open spec fn delta_encoding(d: Delta, sizes: Seq<(u16, u32)>) -> Seq<i32> {
    seq![d.deleted@.len() as i32, d.updated@.len() as i32] + d.deleted@ + encode_updates(
        d,
        sizes,
        d.updated@.len() as int,
    )
}

impl Delta {
    /// Serializes the delta.  Every updated item whose type the schema fixes
    /// must have exactly that many diff words; their length is then omitted
    /// from the wire.
    #[verifier::rlimit(50)]
    pub fn write(&self, sizes: &[(u16, u32)]) -> (r: Vec<i32>)
        requires
            self.wf(),
            self.deleted@.len() <= 0x7FFF_FFFF,
            self.updated@.len() <= 0x7FFF_FFFF,
            forall|j: int| 0 <= j < self.updated@.len() ==> #[trigger] self.upd_data(j).len()
                <= 0x7FFF_FFFF,
            forall|j: int|
                0 <= j < self.updated@.len() ==> (lookup_size(
                    sizes@,
                    spec_key_type_id(#[trigger] self.upd_key(j)),
                ) matches Some(sz) ==> sz == self.upd_data(j).len()),
        ensures
            r@ == delta_encoding(*self, sizes@),
    {
        let mut out: Vec<i32> = Vec::new();
        out.push(self.deleted.len() as i32);
        out.push(self.updated.len() as i32);
        let nd = self.deleted.len();
        let mut i: usize = 0;
        while i < nd
            invariant
                i <= nd,
                nd == self.deleted@.len(),
                out@ =~= seq![
                    self.deleted@.len() as i32,
                    self.updated@.len() as i32,
                ] + self.deleted@.take(i as int),
            decreases nd - i,
        {
            out.push(self.deleted[i]);
            proof {
                assert(self.deleted@.take(i + 1) =~= self.deleted@.take(i as int).push(
                    self.deleted@[i as int],
                ));
            }
            i += 1;
        }
        proof {
            assert(self.deleted@.take(nd as int) =~= self.deleted@);
        }
        let ghost head = out@;
        let nu = self.updated.len();
        let mut j: usize = 0;
        while j < nu
            invariant
                j <= nu,
                nu == self.updated@.len(),
                self.wf(),
                forall|q: int| 0 <= q < self.updated@.len() ==> #[trigger] self.upd_data(q).len()
                    <= 0x7FFF_FFFF,
                forall|q: int|
                    0 <= q < self.updated@.len() ==> (lookup_size(
                        sizes@,
                        spec_key_type_id(#[trigger] self.upd_key(q)),
                    ) matches Some(sz) ==> sz == self.upd_data(q).len()),
                head == seq![
                    self.deleted@.len() as i32,
                    self.updated@.len() as i32,
                ] + self.deleted@,
                out@ == head + encode_updates(*self, sizes@, j as int),
            decreases nu - j,
        {
            let (k, ds, de) = self.updated[j];
            let tid = crate::format::key_to_type_id(k);
            let id = crate::format::key_to_id(k);
            out.push(tid as i32);
            out.push(id as i32);
            match object_size(sizes, tid) {
                Some(_) => {},
                None => {
                    out.push((de - ds) as i32);
                },
            }
            let ghost before_data = out@;
            let mut w: usize = ds;
            while w < de
                invariant
                    ds <= w <= de,
                    de <= self.buf@.len(),
                    out@ == before_data + self.buf@.subrange(ds as int, w as int),
                decreases de - w,
            {
                out.push(self.buf[w]);
                proof {
                    assert(self.buf@.subrange(ds as int, w + 1) =~= self.buf@.subrange(
                        ds as int,
                        w as int,
                    ).push(self.buf@[w as int]));
                }
                w += 1;
            }
            proof {
                assert(out@ =~= head + encode_updates(*self, sizes@, j as int) + update_record(
                    *self,
                    sizes@,
                    j as int,
                ));
            }
            j += 1;
        }
        proof {
            assert(out@ =~= delta_encoding(*self, sizes@));
        }
        out
    }
}

/// Phase one of delta decoding: reads `count` deleted keys, dropping
/// duplicates.
pub open spec fn read_deleted(ints: Seq<i32>, pos: int, count: int, acc: Seq<i32>) -> Result<
    (Seq<i32>, int),
    Error,
>
    decreases count,
{
    if count <= 0 {
        Ok((acc, pos))
    } else if pos < 0 || pos >= ints.len() {
        Err(Error::DeletedItemsUnpacking)
    } else {
        let k = ints[pos];
        read_deleted(ints, pos + 1, count - 1, if acc.contains(k) {
            acc
        } else {
            acc.push(k)
        })
    }
}

/// Phase two of delta decoding: update records until the input ends.  On a
/// repeated key the later record wins; both halves of a key that is also
/// deleted are kept.  Returns the outcome and the warnings emitted up to
/// the stop.
pub open spec fn read_updates(
    ints: Seq<i32>,
    pos: int,
    sizes: Seq<(u16, u32)>,
    dels: Seq<i32>,
    upd: Seq<(i32, Seq<i32>)>,
    buflen: int,
    count: int,
    warns: Seq<Warning>,
) -> (Result<(Seq<(i32, Seq<i32>)>, int), Error>, Seq<Warning>)
    decreases ints.len() - pos,
{
    if pos < 0 {
        (Err(Error::ItemDiffsUnpacking), warns)
    } else if pos >= ints.len() {
        (Ok((upd, count)), warns)
    } else if pos + 1 >= ints.len() {
        (Err(Error::ItemDiffsUnpacking), warns)
    } else {
        let tid_raw = ints[pos];
        let id_raw = ints[pos + 1];
        if !(0 <= tid_raw <= 0xFFFF) {
            (Err(Error::TypeIdRange), warns)
        } else if !(0 <= id_raw <= 0xFFFF) {
            (Err(Error::IdRange), warns)
        } else {
            let tid = tid_raw as u16;
            let id = id_raw as u16;
            let step = match lookup_size(sizes, tid) {
                Some(_) => 2int,
                None => 3int,
            };
            if step == 3 && pos + 2 >= ints.len() {
                (Err(Error::ItemDiffsUnpacking), warns)
            } else if step == 3 && ints[pos + 2] < 0 {
                (Err(Error::NegativeSize), warns)
            } else {
                let size = match lookup_size(sizes, tid) {
                    Some(s) => s as int,
                    None => ints[pos + 2] as int,
                };
                if buflen > 0xFFFF_FFFF || buflen + size > 0xFFFF_FFFF {
                    (Err(Error::TooLongDiff), warns)
                } else if pos + step + size > ints.len() {
                    (Err(Error::ItemDiffsUnpacking), warns)
                } else {
                    let k = spec_key(tid, id);
                    let data = ints.subrange(pos + step, pos + step + size);
                    let at = crate::snap::find_index_keyed(upd, k);
                    let upd2 = if at >= 0 {
                        upd.update(at, (k, data))
                    } else {
                        upd.push((k, data))
                    };
                    let w2 = warns + (if at >= 0 {
                        seq![Warning::DuplicateUpdate]
                    } else {
                        Seq::<Warning>::empty()
                    }) + (if dels.contains(k) {
                        seq![Warning::DeleteUpdate]
                    } else {
                        Seq::<Warning>::empty()
                    });
                    read_updates(
                        ints,
                        pos + step + size,
                        sizes,
                        dels,
                        upd2,
                        buflen + size,
                        count + 1,
                        w2,
                    )
                }
            }
        }
    }
}

/// What a delta int sequence decodes to: the deduplicated deleted keys, the
/// updated records with their final diffs, and the warning list.
pub open spec fn delta_decoding(ints: Seq<i32>, sizes: Seq<(u16, u32)>) -> (Result<
    (Seq<i32>, Seq<(i32, Seq<i32>)>),
    Error,
>, Seq<Warning>) {
    if ints.len() < 2 {
        (Err(Error::UnexpectedEnd), Seq::empty())
    } else {
        let num_del = ints[0];
        let num_upd = ints[1];
        match read_deleted(ints, 2, num_del as int, Seq::empty()) {
            Err(e) => (Err(e), Seq::empty()),
            Ok(p1) => {
                let w1: Seq<Warning> = if p1.0.len() < num_del {
                    seq![Warning::DuplicateDelete]
                } else {
                    Seq::empty()
                };
                let r2 = read_updates(ints, p1.1, sizes, p1.0, Seq::empty(), 0, 0, w1);
                match r2.0 {
                    Err(e) => (Err(e), r2.1),
                    Ok(p2) => (
                        Ok((p1.0, p2.0)),
                        r2.1 + (if p2.1 != num_upd {
                            seq![Warning::NumUpdatedItems]
                        } else {
                            Seq::<Warning>::empty()
                        }),
                    ),
                }
            },
        }
    }
}

/// Total diff words of the first `n` updated entries.
pub open spec fn total_diff_words(d: Delta, n: int) -> int
    decreases n,
{
    if n <= 0 {
        0
    } else {
        total_diff_words(d, n - 1) + d.upd_data(n - 1).len()
    }
}

/// The `DeleteUpdate` warnings decoding a delta's own encoding emits: one
/// per updated entry from `j` on whose key is also deleted.
pub open spec fn overlap_warns(d: Delta, j: int) -> Seq<Warning>
    decreases d.updated@.len() - j,
{
    if j < 0 || j >= d.updated@.len() {
        Seq::empty()
    } else {
        (if d.deleted@.contains(d.upd_key(j)) {
            seq![Warning::DeleteUpdate]
        } else {
            Seq::<Warning>::empty()
        }) + overlap_warns(d, j + 1)
    }
}

proof fn lemma_total_diff_words_mono(d: Delta, i: int, j: int)
    requires
        0 <= i <= j,
    ensures
        total_diff_words(d, i) <= total_diff_words(d, j),
        0 <= total_diff_words(d, i),
    decreases j - i, i,
{
    if i < j {
        lemma_total_diff_words_mono(d, i, j - 1);
    }
    if i > 0 {
        lemma_total_diff_words_mono(d, i - 1, i - 1);
    }
}

proof fn lemma_enc_updates_len(d: Delta, sizes: Seq<(u16, u32)>, j: int)
    requires
        0 <= j,
    ensures
        encode_updates(d, sizes, j).len() >= 2 * j,
    decreases j,
{
    if j > 0 {
        lemma_enc_updates_len(d, sizes, j - 1);
    }
}

/// The encoded updates region, cut at record `j`, starts with that record.
proof fn lemma_enc_update_at(d: Delta, sizes: Seq<(u16, u32)>, n: int, j: int)
    requires
        0 <= j < n,
    ensures
        ({
            let enc = encode_updates(d, sizes, n);
            let p = encode_updates(d, sizes, j).len() as int;
            let q = encode_updates(d, sizes, j + 1).len() as int;
            &&& p + update_record(d, sizes, j).len() == q <= enc.len()
            &&& enc.subrange(p, q) == update_record(d, sizes, j)
        }),
    decreases n,
{
    if j == n - 1 {
        assert(encode_updates(d, sizes, n).subrange(
            encode_updates(d, sizes, j).len() as int,
            encode_updates(d, sizes, j + 1).len() as int,
        ) =~= update_record(d, sizes, j));
    } else {
        lemma_enc_update_at(d, sizes, n - 1, j);
        let p = encode_updates(d, sizes, j).len() as int;
        let q = encode_updates(d, sizes, j + 1).len() as int;
        assert(encode_updates(d, sizes, n).subrange(p, q) =~= encode_updates(
            d,
            sizes,
            n - 1,
        ).subrange(p, q));
    }
}

/// Phase one of decoding a delta's own encoding reads the deleted keys back
/// unchanged.
proof fn lemma_rt_deleted(d: Delta, sizes: Seq<(u16, u32)>, e: Seq<i32>, t: int)
    requires
        d.wf(),
        e == delta_encoding(d, sizes),
        0 <= t <= d.deleted@.len(),
    ensures
        read_deleted(e, 2 + t, d.deleted@.len() - t, d.deleted@.take(t)) == Ok::<
            (Seq<i32>, int),
            Error,
        >((d.deleted@, 2 + d.deleted@.len() as int)),
    decreases d.deleted@.len() - t,
{
    let nd = d.deleted@.len() as int;
    if t == nd {
        assert(d.deleted@.take(nd) =~= d.deleted@);
    } else {
        assert(e[2 + t] == d.deleted@[t]);
        let k = d.deleted@[t];
        assert(!d.deleted@.take(t).contains(k)) by {
            if d.deleted@.take(t).contains(k) {
                let a = choose|a: int| 0 <= a < t && #[trigger] d.deleted@.take(t)[a] == k;
                assert(d.deleted@[a] == d.deleted@[t]);
            }
        }
        assert(d.deleted@.take(t).push(k) =~= d.deleted@.take(t + 1));
        lemma_rt_deleted(d, sizes, e, t + 1);
    }
}

/// Phase two of decoding a delta's own encoding rebuilds the updated
/// records in order, warning only where an updated key is also deleted.
proof fn lemma_rt_updates(
    d: Delta,
    sizes: Seq<(u16, u32)>,
    e: Seq<i32>,
    j: int,
    w: Seq<Warning>,
)
    requires
        d.wf(),
        d.updated@.len() <= 0x7FFF_FFFF,
        forall|q: int| 0 <= q < d.updated@.len() ==> #[trigger] d.upd_data(q).len()
            <= 0x7FFF_FFFF,
        forall|q: int|
            0 <= q < d.updated@.len() ==> (lookup_size(
                sizes,
                spec_key_type_id(#[trigger] d.upd_key(q)),
            ) matches Some(sz) ==> sz == d.upd_data(q).len()),
        total_diff_words(d, d.updated@.len() as int) <= 0xFFFF_FFFF,
        e == delta_encoding(d, sizes),
        0 <= j <= d.updated@.len(),
    ensures
        read_updates(
            e,
            2 + d.deleted@.len() + encode_updates(d, sizes, j).len() as int,
            sizes,
            d.deleted@,
            delta_recs(d).take(j),
            total_diff_words(d, j),
            j,
            w,
        ) == (
            Ok::<(Seq<(i32, Seq<i32>)>, int), Error>(
                (delta_recs(d), d.updated@.len() as int),
            ),
            w + overlap_warns(d, j),
        ),
    decreases d.updated@.len() - j,
{
    let nd = d.deleted@.len() as int;
    let nu = d.updated@.len() as int;
    let pos = 2 + nd + encode_updates(d, sizes, j).len() as int;
    assert(e.len() == 2 + nd + encode_updates(d, sizes, nu).len());
    if j == nu {
        assert(delta_recs(d).take(nu) =~= delta_recs(d));
        assert(pos == e.len());
        assert(w + overlap_warns(d, nu) =~= w);
    } else {
        let k = d.upd_key(j);
        let data = d.upd_data(j);
        let rec = update_record(d, sizes, j);
        lemma_enc_update_at(d, sizes, nu, j);
        let p2 = encode_updates(d, sizes, j).len() as int;
        let q2 = encode_updates(d, sizes, j + 1).len() as int;
        let enc = encode_updates(d, sizes, nu);
        assert(e == seq![d.deleted@.len() as i32, d.updated@.len() as i32] + d.deleted@ + enc);
        assert forall|u: int| 0 <= u < rec.len() implies e[pos + u] == rec[u] by {
            assert(e[pos + u] == enc[p2 + u]);
            assert(enc[p2 + u] == enc.subrange(p2, q2)[u]);
        }
        crate::format::lemma_key_unsigned_roundtrip(k);
        let tid = spec_key_type_id(k);
        let step: int = match lookup_size(sizes, tid) {
            Some(_) => 2,
            None => 3,
        };
        assert(rec.len() == step + data.len());
        assert(rec[0] == tid as i32 && rec[1] == spec_key_id(k) as i32);
        assert(e[pos + 0] == rec[0] && e[pos + 1] == rec[1]);
        assert(e[pos] == tid as i32 && e[pos + 1] == spec_key_id(k) as i32);
        if step == 3 {
            assert(rec[2] == data.len() as i32);
            assert(e[pos + 2] == rec[2]);
            assert(e[pos + 2] == data.len() as i32);
        }
        lemma_total_diff_words_mono(d, j + 1, nu);
        lemma_total_diff_words_mono(d, 0, j);
        assert(total_diff_words(d, j) + data.len() == total_diff_words(d, j + 1));
        assert forall|u: int| 0 <= u < data.len() implies e[pos + step + u] == data[u] by {
            assert(rec[step + u] == data[u]);
        }
        assert(e.subrange(pos + step, pos + step + data.len()) =~= data);
        assert(crate::snap::find_index_keyed(delta_recs(d).take(j), k) == -1) by {
            crate::snap::lemma_find_index_keyed(delta_recs(d).take(j), k);
            if crate::snap::find_index_keyed(delta_recs(d).take(j), k) >= 0 {
                let a = crate::snap::find_index_keyed(delta_recs(d).take(j), k);
                assert(delta_recs(d).take(j)[a].0 == k);
                assert(d.updated@[a].0 == d.updated@[j].0);
            }
        }
        assert(delta_recs(d).take(j).push((k, data)) =~= delta_recs(d).take(j + 1));
        let w2 = w + (if d.deleted@.contains(k) {
            seq![Warning::DeleteUpdate]
        } else {
            Seq::<Warning>::empty()
        });
        lemma_rt_updates(d, sizes, e, j + 1, w2);
        assert(w2 + overlap_warns(d, j + 1) =~= w + overlap_warns(d, j));
    }
}

/// Round trip: decoding a delta's own encoding gives the same deleted keys
/// in order and the same updated records in order, and warns only
/// `DeleteUpdate` for keys the delta holds on both sides.
pub proof fn lemma_delta_roundtrip(d: Delta, sizes: Seq<(u16, u32)>)
    requires
        d.wf(),
        d.deleted@.len() <= 0x7FFF_FFFF,
        d.updated@.len() <= 0x7FFF_FFFF,
        forall|q: int| 0 <= q < d.updated@.len() ==> #[trigger] d.upd_data(q).len()
            <= 0x7FFF_FFFF,
        forall|q: int|
            0 <= q < d.updated@.len() ==> (lookup_size(
                sizes,
                spec_key_type_id(#[trigger] d.upd_key(q)),
            ) matches Some(sz) ==> sz == d.upd_data(q).len()),
        total_diff_words(d, d.updated@.len() as int) <= 0xFFFF_FFFF,
    ensures
        delta_decoding(delta_encoding(d, sizes), sizes).0 matches Ok(p) && p.0 == d.deleted@
            && p.1 == delta_recs(d),
        delta_decoding(delta_encoding(d, sizes), sizes).1 == overlap_warns(d, 0),
{
    let e = delta_encoding(d, sizes);
    let nd = d.deleted@.len() as int;
    let nu = d.updated@.len() as int;
    assert(e[0] == nd as i32 && e[1] == nu as i32);
    assert(d.deleted@.take(0) =~= Seq::<i32>::empty());
    lemma_rt_deleted(d, sizes, e, 0);
    assert(delta_recs(d).take(0) =~= Seq::<(i32, Seq<i32>)>::empty());
    lemma_rt_updates(d, sizes, e, 0, Seq::empty());
    assert(Seq::<Warning>::empty() + overlap_warns(d, 0) =~= overlap_warns(d, 0));
}
pub open spec fn delta_recs(d: Delta) -> Seq<(i32, Seq<i32>)> {
    Seq::new(d.updated@.len(), |t: int| (d.upd_key(t), d.upd_data(t)))
}

/// Appending a fresh record appends to the delta's record list.
proof fn lemma_delta_recs_append(pre: Delta, post: Delta, k: i32, data: Seq<i32>)
    requires
        pre.wf(),
        forall|j: int| 0 <= j < pre.updated@.len() ==> #[trigger] pre.updated@[j].0 != k,
        pre.buf@.len() + data.len() <= usize::MAX,
        post.deleted@ == pre.deleted@,
        post.updated@ == pre.updated@.push(
            (k, pre.buf@.len() as usize, (pre.buf@.len() + data.len()) as usize),
        ),
        post.buf@ == pre.buf@ + data,
    ensures
        delta_recs(post) =~= delta_recs(pre).push((k, data)),
        post.wf(),
{
    assert forall|q: int|
        0 <= q < post.updated@.len() implies #[trigger] post.updated@[q].1 <= post.updated@[q].2
        <= post.buf@.len() by {
        if q < post.updated@.len() - 1 {
            assert(post.updated@[q] == pre.updated@[q]);
            assert(pre.updated@[q].1 <= pre.updated@[q].2 <= pre.buf@.len());
        }
    }
    assert forall|a: int, b: int|
        0 <= a < b < post.updated@.len() implies post.updated@[a].0 != post.updated@[b].0 by {
        if b < post.updated@.len() - 1 {
            assert(post.updated@[a].0 == pre.updated@[a].0);
            assert(post.updated@[b].0 == pre.updated@[b].0);
        } else {
            assert(post.updated@[a].0 == pre.updated@[a].0);
        }
    }
    assert forall|t: int| 0 <= t < pre.updated@.len() implies delta_recs(post)[t] == delta_recs(
        pre,
    )[t] by {
        assert(post.updated@[t] == pre.updated@[t]);
        assert(post.upd_data(t) =~= pre.upd_data(t));
    }
    assert(post.upd_data(pre.updated@.len() as int) =~= data);
}

/// Replacing record `at` with a freshly appended diff updates the record
/// list in place: later wins.
proof fn lemma_delta_recs_replace(pre: Delta, post: Delta, at: int, k: i32, data: Seq<i32>)
    requires
        pre.wf(),
        0 <= at < pre.updated@.len(),
        pre.updated@[at].0 == k,
        pre.buf@.len() + data.len() <= usize::MAX,
        post.deleted@ == pre.deleted@,
        post.updated@ == pre.updated@.update(
            at,
            (k, pre.buf@.len() as usize, (pre.buf@.len() + data.len()) as usize),
        ),
        post.buf@ == pre.buf@ + data,
    ensures
        delta_recs(post) =~= delta_recs(pre).update(at, (k, data)),
        post.wf(),
{
    assert forall|q: int|
        0 <= q < post.updated@.len() implies #[trigger] post.updated@[q].1 <= post.updated@[q].2
        <= post.buf@.len() by {
        if q != at {
            assert(post.updated@[q] == pre.updated@[q]);
            assert(pre.updated@[q].1 <= pre.updated@[q].2 <= pre.buf@.len());
        }
    }
    assert forall|a: int, b: int|
        0 <= a < b < post.updated@.len() implies post.updated@[a].0 != post.updated@[b].0 by {
        assert(post.updated@[a].0 == pre.updated@[a].0);
        assert(post.updated@[b].0 == pre.updated@[b].0);
    }
    assert forall|t: int|
        0 <= t < pre.updated@.len() && t != at implies delta_recs(post)[t] == delta_recs(
        pre,
    )[t] by {
        assert(post.updated@[t] == pre.updated@[t]);
        assert(post.upd_data(t) =~= pre.upd_data(t));
    }
    assert(post.upd_data(at) =~= data);
}

impl Delta {
    /// Index of the updated entry holding `k`, scanning in list order.
    fn find_updated(&self, k: i32) -> (r: Option<usize>)
        requires
            self.wf(),
        ensures
            match r {
                Some(i) => i < self.updated@.len() && crate::snap::find_index_keyed(
                    delta_recs(*self),
                    k,
                ) == i && self.updated@[i as int].0 == k,
                None => crate::snap::find_index_keyed(delta_recs(*self), k) == -1,
            },
    {
        let n = self.updated.len();
        let mut i: usize = 0;
        while i < n
            invariant
                i <= n,
                n == self.updated@.len(),
                forall|j: int| 0 <= j < i ==> self.updated@[j].0 != k,
            decreases n - i,
        {
            if self.updated[i].0 == k {
                proof {
                    crate::snap::lemma_find_index_keyed_first(delta_recs(*self), k, i as int);
                }
                return Some(i);
            }
            i += 1;
        }
        proof {
            crate::snap::lemma_find_index_keyed(delta_recs(*self), k);
            if crate::snap::find_index_keyed(delta_recs(*self), k) >= 0 {
                let q = crate::snap::find_index_keyed(delta_recs(*self), k);
                assert(delta_recs(*self)[q].0 == k);
            }
        }
        None
    }

    /// Decodes a delta from `ints`: the header's count of deleted keys,
    /// then update records until the input ends.  Warnings go to `warn`;
    /// the result and the warnings are exactly what `delta_decoding` gives.
    #[verifier::rlimit(50)]
    pub fn read(&mut self, warn: &mut Vec<Warning>, sizes: &[(u16, u32)], ints: &[i32]) -> (r:
        Result<(), Error>)
        ensures
            final (self).wf(),
            final (warn)@ == old(warn)@ + delta_decoding(ints@, sizes@).1,
            match r {
                Ok(()) => delta_decoding(ints@, sizes@).0 matches Ok(p) && {
                    &&& final (self).deleted@ == p.0
                    &&& final (self).updated@.len() == p.1.len()
                    &&& forall|t: int|
                        0 <= t < p.1.len() ==> final (self).upd_key(t) == p.1[t].0
                            && final (self).upd_data(t) == p.1[t].1
                },
                Err(e) => delta_decoding(ints@, sizes@).0 == Err::<
                    (Seq<i32>, Seq<(i32, Seq<i32>)>),
                    Error,
                >(e),
            },
    {
        self.clear();
        if ints.len() < 2 {
            return Err(Error::UnexpectedEnd);
        }
        let num_del = *vstd::slice::slice_index_get(ints, 0);
        let num_upd = *vstd::slice::slice_index_get(ints, 1);
        let mut pos: usize = 2;
        let mut t: i32 = 0;
        if num_del > 0 {
            while t < num_del
                invariant
                    0 <= t <= num_del,
                    2 <= pos <= ints@.len(),
                    ints@.len() >= 2,
                    num_del == ints@[0],
                    num_upd == ints@[1],
                    self.updated@.len() == 0,
                    self.buf@.len() == 0,
                    forall|a: int, b: int|
                        0 <= a < b < self.deleted@.len() ==> self.deleted@[a] != self.deleted@[b],
                    read_deleted(ints@, 2, num_del as int, Seq::empty()) == read_deleted(
                        ints@,
                        pos as int,
                        num_del - t,
                        self.deleted@,
                    ),
                    self.deleted@.len() <= t,
                decreases num_del - t,
            {
                if pos >= ints.len() {
                    return Err(Error::DeletedItemsUnpacking);
                }
                let k = *vstd::slice::slice_index_get(ints, pos);
                let ghost old_del = self.deleted@;
                if !self.contains_deleted(k) {
                    self.deleted.push(k);
                    proof {
                        assert forall|a: int, b: int|
                            0 <= a < b < self.deleted@.len() implies self.deleted@[a]
                            != self.deleted@[b] by {
                            if b == self.deleted@.len() - 1 {
                                if old_del[a] == k {
                                    assert(old_del.contains(k));
                                }
                            }
                        }
                    }
                }
                pos += 1;
                t += 1;
            }
        }
        let ghost dels = self.deleted@;
        let ghost pos1 = pos as int;
        proof {
            assert(read_deleted(ints@, 2, num_del as int, Seq::empty()) == Ok::<
                (Seq<i32>, int),
                Error,
            >((dels, pos1)));
        }
        let ghost mut w_acc: Seq<Warning> = Seq::empty();
        if num_del > 0 && (self.deleted.len() as i32) < num_del {
            warn.push(Warning::DuplicateDelete);
            proof {
                w_acc = seq![Warning::DuplicateDelete];
            }
        }
        let ghost w1 = w_acc;
        proof {
            assert(warn@ =~= old(warn)@ + w_acc);
            assert(w1 == (if dels.len() < num_del {
                seq![Warning::DuplicateDelete]
            } else {
                Seq::<Warning>::empty()
            }));
        }
        proof {
            assert(delta_recs(*self) =~= Seq::<(i32, Seq<i32>)>::empty());
        }
        let mut count: usize = 0;
        while pos < ints.len()
            invariant
                2 <= pos,
                pos <= ints@.len(),
                ints@.len() >= 2,
                num_del == ints@[0],
                num_upd == ints@[1],
                dels == self.deleted@,
                self.wf(),
                count <= pos,
                warn@ == old(warn)@ + w_acc,
                read_deleted(ints@, 2, num_del as int, Seq::empty()) == Ok::<
                    (Seq<i32>, int),
                    Error,
                >((dels, pos1)),
                w1 == (if dels.len() < num_del {
                    seq![Warning::DuplicateDelete]
                } else {
                    Seq::<Warning>::empty()
                }),
                read_updates(ints@, pos1, sizes@, dels, Seq::empty(), 0, 0, w1) == read_updates(
                    ints@,
                    pos as int,
                    sizes@,
                    dels,
                    delta_recs(*self),
                    self.buf@.len() as int,
                    count as int,
                    w_acc,
                ),
            decreases ints@.len() - pos,
        {
            let ghost recs_pre = delta_recs(*self);
            let ghost w_pre = w_acc;
            if pos + 1 >= ints.len() {
                return Err(Error::ItemDiffsUnpacking);
            }
            let tid_raw = *vstd::slice::slice_index_get(ints, pos);
            let id_raw = *vstd::slice::slice_index_get(ints, pos + 1);
            if !(0 <= tid_raw && tid_raw <= 0xFFFF) {
                return Err(Error::TypeIdRange);
            }
            if !(0 <= id_raw && id_raw <= 0xFFFF) {
                return Err(Error::IdRange);
            }
            let tid = tid_raw as u16;
            let id = id_raw as u16;
            let size_us: usize;
            let step: usize;
            match object_size(sizes, tid) {
                Some(s) => {
                    size_us = s as usize;
                    step = 2;
                },
                None => {
                    if pos + 2 >= ints.len() {
                        return Err(Error::ItemDiffsUnpacking);
                    }
                    let s = *vstd::slice::slice_index_get(ints, pos + 2);
                    if s < 0 {
                        return Err(Error::NegativeSize);
                    }
                    size_us = s as usize;
                    step = 3;
                },
            }
            if self.buf.len() > 0xFFFF_FFFF || size_us > 0xFFFF_FFFF - self.buf.len() {
                return Err(Error::TooLongDiff);
            }
            if size_us > ints.len() - (pos + step) {
                return Err(Error::ItemDiffsUnpacking);
            }
            let data = vstd::slice::slice_subrange(ints, pos + step, pos + step + size_us);
            let k = crate::format::key(tid, id);
            let start = self.buf.len();
            let end = start + size_us;
            let found = self.find_updated(k);
            let ghost pre = *self;
            self.buf.extend_from_slice(data);
            proof {
                assert(self.buf@ =~= pre.buf@ + data@);
            }
            match found {
                Some(at) => {
                    self.updated[at] = (k, start, end);
                    warn.push(Warning::DuplicateUpdate);
                    proof {
                        w_acc = w_acc + seq![Warning::DuplicateUpdate];
                        assert(data@.len() == size_us);
                        lemma_delta_recs_replace(pre, *self, at as int, k, data@);
                    }
                },
                None => {
                    self.updated.push((k, start, end));
                    proof {
                        assert(data@.len() == size_us);
                        assert forall|j: int|
                            0 <= j < pre.updated@.len() implies #[trigger] pre.updated@[j].0
                            != k by {
                            crate::snap::lemma_find_index_keyed(recs_pre, k);
                            assert(recs_pre[j].0 == pre.updated@[j].0);
                        }
                        lemma_delta_recs_append(pre, *self, k, data@);
                    }
                },
            }
            if self.contains_deleted(k) {
                warn.push(Warning::DeleteUpdate);
                proof {
                    w_acc = w_acc + seq![Warning::DeleteUpdate];
                }
            }
            proof {
                assert(warn@ =~= old(warn)@ + w_acc);
                assert(data@ == ints@.subrange(pos + step, pos + step + size_us));
                assert(read_updates(ints@, pos as int, sizes@, dels, recs_pre,
                    pre.buf@.len() as int, count as int, w_pre) == read_updates(
                    ints@,
                    pos + step + size_us,
                    sizes@,
                    dels,
                    delta_recs(*self),
                    self.buf@.len() as int,
                    count + 1,
                    w_acc,
                ));
            }
            pos += step + size_us;
            count += 1;
        }
        let mismatch: bool = num_upd < 0 || count != (num_upd as usize);
        if mismatch {
            warn.push(Warning::NumUpdatedItems);
        }
        proof {
            if mismatch {
                assert(warn@ =~= old(warn)@ + (w_acc + seq![Warning::NumUpdatedItems]));
            }
        }
        Ok(())
    }
}

} // verus!
