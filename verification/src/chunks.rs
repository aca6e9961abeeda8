//! The chunk splitter: a serialized snap payload as a finite sequence of
//! transport messages, each carrying at most `MAX_SNAPSHOT_PACKSIZE` bytes.

use vstd::prelude::*;

verus! {

/// Per-packet payload cap of the enclosing protocol, in bytes.
pub const MAX_SNAPSHOT_PACKSIZE: usize = 900;

/// A multi-part snapshot message carrying one slice of the payload.
#[derive(Clone, Copy, Debug)]
pub struct SnapChunk<'a> {
    pub tick: i32,
    pub delta_tick: i32,
    pub num_parts: i32,
    pub part: i32,
    pub crc: i32,
    pub data: &'a [u8],
}

/// The message for an empty payload.
#[derive(Clone, Copy, Debug)]
pub struct SnapEmptyMsg {
    pub tick: i32,
    pub delta_tick: i32,
}

/// The single-part message for a payload within the packet cap.
#[derive(Clone, Copy, Debug)]
pub struct SnapSingleMsg<'a> {
    pub tick: i32,
    pub delta_tick: i32,
    pub crc: i32,
    pub data: &'a [u8],
}

/// One message of the chunk splitter's output.
#[derive(Clone, Copy, Debug)]
pub enum SnapMsg<'a> {
    Snap(SnapChunk<'a>),
    SnapEmpty(SnapEmptyMsg),
    SnapSingle(SnapSingleMsg<'a>),
}

/// How many parts a payload of `len` bytes splits into.
pub open spec fn spec_num_parts(len: int) -> int {
    (len + 899) / 900
}

/// The bytes of part `part`.
pub open spec fn chunk_at(data: Seq<u8>, part: int) -> Seq<u8> {
    data.subrange(900 * part, if 900 * (part + 1) <= data.len() {
        900 * (part + 1)
    } else {
        data.len() as int
    })
}

/// The first `n` parts, concatenated.
pub open spec fn chunks_concat(data: Seq<u8>, n: int) -> Seq<u8>
    decreases n,
{
    if n <= 0 {
        Seq::empty()
    } else {
        chunks_concat(data, n - 1) + chunk_at(data, n - 1)
    }
}

/// Chunking covers the payload: concatenating all parts gives the input
/// back, and a non-empty payload splits into exactly
/// `ceil(len / MAX_SNAPSHOT_PACKSIZE)` parts, each within the cap.
pub proof fn lemma_chunks_cover(data: Seq<u8>)
    ensures
        chunks_concat(data, spec_num_parts(data.len() as int)) == data,
        data.len() == 0 ==> spec_num_parts(data.len() as int) == 0,
        data.len() > 0 ==> 900 * (spec_num_parts(data.len() as int) - 1) < data.len() <= 900
            * spec_num_parts(data.len() as int),
{
    let len = data.len() as int;
    let np = spec_num_parts(len);
    vstd::arithmetic::div_mod::lemma_fundamental_div_mod(len + 899, 900);
    lemma_chunks_prefix(data, np);
    assert(chunks_concat(data, np) =~= data);
}

/// The first `n` parts are exactly the first `900 * n` bytes (or all of
/// them, whichever is less).
proof fn lemma_chunks_prefix(data: Seq<u8>, n: int)
    requires
        0 <= n,
        900 * (n - 1) < data.len() || n == 0,
    ensures
        chunks_concat(data, n) == data.take(if 900 * n <= data.len() {
            900 * n
        } else {
            data.len() as int
        }),
    decreases n,
{
    if n == 0 {
        assert(chunks_concat(data, 0) =~= data.take(0));
    } else {
        lemma_chunks_prefix(data, n - 1);
        assert(chunks_concat(data, n) =~= data.take(if 900 * n <= data.len() {
            900 * n
        } else {
            data.len() as int
        }));
    }
}

/// The chunk splitter: yields `SnapEmpty` for an empty payload, one
/// `SnapSingle` when the payload fits one packet, and otherwise one `Snap`
/// per `MAX_SNAPSHOT_PACKSIZE`-byte slice.  The `delta_tick` transmitted is
/// the relative offset `tick - delta_tick`.
pub struct DeltaChunks<'a> {
    pub tick: i32,
    pub delta_tick: i32,
    pub crc: i32,
    pub cur_part: i32,
    pub num_parts: i32,
    pub data: &'a [u8],
}

impl<'a> DeltaChunks<'a> {
    pub open spec fn wf(self) -> bool {
        &&& self.num_parts == spec_num_parts(self.data@.len() as int)
        &&& (if self.data@.len() == 0 {
            -1 <= self.cur_part <= 0
        } else {
            0 <= self.cur_part <= self.num_parts
        })
        &&& self.data@.len() <= 0x7FFF_FFFF
    }

    /// How many messages are still to come.
    pub open spec fn remaining(self) -> int {
        if self.data@.len() == 0 {
            -self.cur_part
        } else {
            self.num_parts - self.cur_part
        }
    }

    /// The next message, or `None` when all parts are out.
    pub fn next(&mut self) -> (r: Option<SnapMsg<'a>>)
        requires
            old(self).wf(),
        ensures
            final (self).wf(),
            final (self).data == old(self).data,
            final (self).tick == old(self).tick,
            final (self).delta_tick == old(self).delta_tick,
            final (self).crc == old(self).crc,
            final (self).num_parts == old(self).num_parts,
            match r {
                None => old(self).remaining() == 0 && *final (self) == *old(self),
                Some(msg) => {
                    &&& old(self).remaining() > 0
                    &&& final (self).cur_part == old(self).cur_part + 1
                    &&& match msg {
                        SnapMsg::SnapEmpty(e) => old(self).data@.len() == 0 && e.tick == old(
                            self,
                        ).tick && e.delta_tick == old(self).delta_tick,
                        SnapMsg::SnapSingle(s) => {
                            &&& old(self).data@.len() > 0
                            &&& old(self).num_parts == 1
                            &&& s.tick == old(self).tick
                            &&& s.delta_tick == old(self).delta_tick
                            &&& s.crc == old(self).crc
                            &&& s.data@ == old(self).data@
                        },
                        SnapMsg::Snap(c) => {
                            &&& old(self).num_parts > 1
                            &&& c.tick == old(self).tick
                            &&& c.delta_tick == old(self).delta_tick
                            &&& c.crc == old(self).crc
                            &&& c.num_parts == old(self).num_parts
                            &&& c.part == old(self).cur_part
                            &&& c.data@ == chunk_at(old(self).data@, old(self).cur_part as int)
                        },
                    }
                },
            },
    {
        if self.cur_part == self.num_parts {
            return None;
        }
        let result = if self.num_parts == 0 {
            SnapMsg::SnapEmpty(SnapEmptyMsg { tick: self.tick, delta_tick: self.delta_tick })
        } else if self.num_parts == 1 {
            SnapMsg::SnapSingle(
                SnapSingleMsg {
                    tick: self.tick,
                    delta_tick: self.delta_tick,
                    crc: self.crc,
                    data: self.data,
                },
            )
        } else {
            let index = self.cur_part as usize;
            let start = MAX_SNAPSHOT_PACKSIZE * index;
            let end = if MAX_SNAPSHOT_PACKSIZE * (index + 1) <= self.data.len() {
                MAX_SNAPSHOT_PACKSIZE * (index + 1)
            } else {
                self.data.len()
            };
            proof {
                vstd::arithmetic::div_mod::lemma_fundamental_div_mod(
                    self.data@.len() as int + 899,
                    900,
                );
            }
            SnapMsg::Snap(
                SnapChunk {
                    tick: self.tick,
                    delta_tick: self.delta_tick,
                    num_parts: self.num_parts,
                    part: self.cur_part,
                    crc: self.crc,
                    data: vstd::slice::slice_subrange(self.data, start, end),
                },
            )
        };
        self.cur_part = self.cur_part + 1;
        Some(result)
    }
}

/// Builds the chunk splitter for one serialized snap payload.  The
/// `delta_tick` argument is the absolute reference tick; the wire carries
/// `tick - delta_tick`.
pub fn delta_chunks<'a>(tick: i32, delta_tick: i32, data: &'a [u8], crc: i32) -> (r: DeltaChunks<
    'a,
>)
    requires
        -0x8000_0000 <= tick - delta_tick <= 0x7FFF_FFFF,
        data@.len() <= 0x7FFF_FFFF,
    ensures
        r.wf(),
        r.tick == tick,
        r.delta_tick == tick - delta_tick,
        r.crc == crc,
        r.data@ == data@,
        r.cur_part == (if data@.len() == 0 {
            -1int
        } else {
            0int
        }),
        r.num_parts == spec_num_parts(data@.len() as int),
{
    let len = data.len();
    let num_parts = ((len + MAX_SNAPSHOT_PACKSIZE - 1) / MAX_SNAPSHOT_PACKSIZE) as i32;
    proof {
        vstd::arithmetic::div_mod::lemma_fundamental_div_mod(len as int + 899, 900);
    }
    DeltaChunks {
        tick,
        delta_tick: tick - delta_tick,
        crc,
        cur_part: if !data.is_empty() {
            0
        } else {
            -1
        },
        num_parts,
        data,
    }
}

} // verus!
