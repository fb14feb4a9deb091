//! The ring log engine: a fixed-capacity circular byte buffer that stores
//! variable-length records behind two-byte big-endian length prefixes and
//! evicts the oldest records when an append needs more room.

use crate::errors::DialectError;
use crate::frames::{
    append_model, be16, drop_until_fits, frame_at, frames_at, lemma_frames_at_push,
    lemma_frames_at_unchanged, lemma_mod_in_range, lemma_mod_shift, lemma_offset_step,
    lemma_step_offset, lemma_total_size_at_least, lemma_total_size_push,
    lemma_drop_until_fits_is_suffix, total_size,
    ITEM_METADATA_OVERHEAD,
};
use vstd::arithmetic::div_mod::{lemma_mod_bound, lemma_small_mod, lemma_sub_mod_noop};
use vstd::prelude::*;

verus! {

/// A special data structure that is used to efficiently store arbitrary
/// length byte arrays. Maintains FIFO attributes on top of a cyclic buffer:
/// records keep their arrival order, and when there is no space to append a
/// new record the oldest ones are erased until it fits.
pub struct CyclicByteBuffer {
    /// Offset of the first (oldest) record's frame in `buffer`.
    pub read_offset: u16,
    /// Offset where the next record's frame will begin.
    pub write_offset: u16,
    /// Current number of records in `buffer`.
    pub items_count: u16,
    /// Underlying byte storage; its length is the capacity and never changes.
    pub buffer: Vec<u8>,
    /// Model of the stored records, oldest first.
    pub frames: Ghost<Seq<Seq<u8>>>,
}

impl View for CyclicByteBuffer {
    type V = Seq<Seq<u8>>;

    open spec fn view(&self) -> Seq<Seq<u8>> {
        self.frames@
    }
}

impl CyclicByteBuffer {
    /// The fixed byte capacity of the buffer.
    pub open spec fn capacity(self) -> int {
        self.buffer@.len() as int
    }

    /// The buffer's bookkeeping is consistent: both offsets are in bounds,
    /// the stored frames lie back to back starting at `read_offset`, they
    /// occupy no more than the capacity, and `write_offset` marks where the
    /// last frame ends.
    pub open spec fn wf(self) -> bool {
        &&& 1 <= self.capacity() <= 0xffff
        &&& (self.read_offset as int) < self.capacity()
        &&& (self.write_offset as int) < self.capacity()
        &&& self.items_count as int == self@.len()
        &&& total_size(self@) <= self.capacity()
        &&& self.write_offset as int == (self.read_offset as int + total_size(self@))
            % self.capacity()
        &&& frames_at(self.buffer@, self.read_offset as int, self@)
    }

    /// Creates an empty buffer of `capacity` zeroed bytes.
    pub fn new(capacity: u16) -> (result: Self)
        requires
            capacity >= 1,
        ensures
            result.wf(),
            result@ == Seq::<Seq<u8>>::empty(),
            result.capacity() == capacity as int,
            result.read_offset == 0,
            result.write_offset == 0,
            result.items_count == 0,
            forall|p: int| 0 <= p < capacity as int ==> #[trigger] result.buffer@[p] == 0u8,
    {
        let mut buffer: Vec<u8> = Vec::new();
        let mut i: u16 = 0;
        while i < capacity
            invariant
                i <= capacity,
                buffer@.len() == i as int,
                forall|p: int| 0 <= p < i as int ==> #[trigger] buffer@[p] == 0u8,
            decreases capacity - i,
        {
            buffer.push(0u8);
            i = i + 1;
        }
        let result = CyclicByteBuffer {
            read_offset: 0,
            write_offset: 0,
            items_count: 0,
            buffer,
            frames: Ghost(Seq::empty()),
        };
        proof {
            lemma_small_mod(0nat, capacity as nat);
            assert(total_size(result@) == 0);
            assert(frames_at(result.buffer@, 0, result@));
        }
        result
    }

    /// Returns a number by modulo of the buffer length. Used to re-calculate
    /// an offset within the cyclic structure without leaving the buffer.
    fn mod_(&self, value: usize) -> (result: u16)
        requires
            1 <= self.buffer@.len() <= 0xffff,
        ensures
            result as int == value as int % self.capacity(),
    {
        proof {
            lemma_mod_bound(value as int, self.buffer@.len() as int);
        }
        (value % self.buffer.len()) as u16
    }

    /// Returns the amount of available free space: the whole capacity when
    /// nothing is stored, otherwise the span from `write_offset` forward to
    /// `read_offset`, measured circularly.
    fn get_available_space(&self) -> (result: u16)
        requires
            self.wf(),
        ensures
            result as int == self.capacity() - total_size(self@),
    {
        if self.items_count == 0 {
            return self.buffer.len() as u16;
        }
        let cap = self.buffer.len();
        let avail = (cap + self.read_offset as usize - self.write_offset as usize) % cap;
        proof {
            let capi = cap as int;
            let r = self.read_offset as int;
            let w = self.write_offset as int;
            let t = total_size(self@);
            lemma_total_size_at_least(self@);
            lemma_mod_in_range(r + t, capi);
            if r + t < capi {
                lemma_small_mod((capi - t) as nat, capi as nat);
            } else {
                vstd::arithmetic::div_mod::lemma_mod_add_multiples_vanish(capi - t, capi);
                lemma_small_mod((capi - t) as nat, capi as nat);
            }
        }
        avail as u16
    }

    /// Reads the two-byte big-endian length prefix that starts at `offset`.
    /// When fewer than two bytes remain before the buffer's end, the prefix
    /// straddles the wrap boundary and its second byte sits at offset zero.
    fn read_size_at(&self, offset: u16) -> (result: u16)
        requires
            1 <= self.buffer@.len() <= 0xffff,
            (offset as int) < self.buffer@.len(),
        ensures
            result as int == be16(
                self.buffer@[offset as int],
                self.buffer@[(offset as int + 1) % (self.buffer@.len() as int)],
            ),
    {
        let hi = self.buffer[offset as usize];
        let lo = if self.buffer.len() - offset as usize >= 2 {
            self.buffer[offset as usize + 1]
        } else {
            self.buffer[0]
        };
        proof {
            lemma_mod_in_range(offset as int + 1, self.buffer@.len() as int);
        }
        hi as u16 * 256 + lo as u16
    }

    /// Returns the payload size of the oldest record, read from the length
    /// prefix at `read_offset`.
    fn read_item_size(&self) -> (result: u16)
        requires
            self.wf(),
            self.items_count > 0,
        ensures
            result as int == self@[0].len(),
    {
        proof {
            lemma_small_mod(self.read_offset as nat, self.buffer@.len() as nat);
        }
        self.read_size_at(self.read_offset)
    }

    /// Writes `item`'s bytes starting at `offset`, wrapping each position
    /// modulo the buffer length; every byte off that span keeps its value.
    fn write(&mut self, item: &Vec<u8>, offset: u16)
        requires
            1 <= old(self).buffer@.len() <= 0xffff,
            (offset as int) < old(self).buffer@.len(),
            item@.len() <= old(self).buffer@.len(),
        ensures
            final(self).read_offset == old(self).read_offset,
            final(self).write_offset == old(self).write_offset,
            final(self).items_count == old(self).items_count,
            final(self).frames == old(self).frames,
            final(self).buffer@.len() == old(self).buffer@.len(),
            forall|p: int|
                0 <= p < old(self).buffer@.len() ==> #[trigger] final(self).buffer@[p] == (if (p
                    - offset as int) % (old(self).buffer@.len() as int) < item@.len() {
                    item@[(p - offset as int) % (old(self).buffer@.len() as int)]
                } else {
                    old(self).buffer@[p]
                }),
    {
        let ghost initial = *self;
        let cap = self.buffer.len();
        let mut idx: usize = 0;
        while idx < item.len()
            invariant
                1 <= cap <= 0xffff,
                cap == initial.buffer@.len(),
                (offset as int) < cap,
                item@.len() <= cap,
                idx <= item@.len(),
                self.read_offset == initial.read_offset,
                self.write_offset == initial.write_offset,
                self.items_count == initial.items_count,
                self.frames == initial.frames,
                self.buffer@.len() == cap,
                forall|p: int|
                    0 <= p < cap ==> #[trigger] self.buffer@[p] == (if (p - offset as int) % (
                    cap as int) < idx as int {
                        item@[(p - offset as int) % (cap as int)]
                    } else {
                        initial.buffer@[p]
                    }),
            decreases item@.len() - idx,
        {
            let pos = (offset as usize + idx) % cap;
            proof {
                lemma_mod_bound(offset as int + idx as int, cap as int);
            }
            let b = item[idx];
            self.buffer[pos] = b;
            proof {
                let capi = cap as int;
                let o = offset as int;
                lemma_step_offset(o, idx as int, capi);
                assert forall|p: int| 0 <= p < capi implies #[trigger] self.buffer@[p] == (if (p
                    - o) % capi < idx + 1 {
                    item@[(p - o) % capi]
                } else {
                    initial.buffer@[p]
                }) by {
                    let d = (p - o) % capi;
                    lemma_mod_bound(p - o, capi);
                    if p != pos as int && d == idx as int {
                        lemma_offset_step(o, p, capi);
                        assert(false);
                    }
                }
            }
            idx += 1;
        }
    }

    /// True when there is no free space to append an item of `item_size`
    /// bytes.
    fn no_space_available_for(&self, item_size: u16) -> (result: bool)
        requires
            self.wf(),
        ensures
            result <==> self.capacity() - total_size(self@) < item_size as int,
    {
        self.get_available_space() < item_size
    }

    /// Erases the oldest record from the buffer by zeroing its frame's bytes
    /// and advancing `read_offset` past it.
    fn erase_oldest_item(&mut self)
        requires
            old(self).wf(),
            old(self).items_count > 0,
        ensures
            final(self).wf(),
            final(self)@ == old(self)@.drop_first(),
            final(self).capacity() == old(self).capacity(),
            final(self).write_offset == old(self).write_offset,
            final(self).items_count == old(self).items_count - 1,
    {
        let ghost initial = *self;
        proof {
            lemma_total_size_at_least(initial.frames@.drop_first());
        }
        let item_size = ITEM_METADATA_OVERHEAD + self.read_item_size();
        let mut zeros: Vec<u8> = Vec::new();
        let mut i: u16 = 0;
        while i < item_size
            invariant
                i <= item_size,
                zeros@.len() == i as int,
            decreases item_size - i,
        {
            zeros.push(0u8);
            i = i + 1;
        }
        let read_offset = self.read_offset;
        self.write(&zeros, read_offset);
        self.read_offset = self.mod_(read_offset as usize + item_size as usize);
        self.items_count = self.items_count - 1;
        self.frames = Ghost(initial.frames@.drop_first());
        proof {
            let capi = initial.buffer@.len() as int;
            let r = initial.read_offset as int;
            let s0: int = 2 + initial.frames@[0].len() as int;
            let rest = initial.frames@.drop_first();
            let t = total_size(initial.frames@);
            let tr = total_size(rest);
            let r2 = (r + s0) % capi;
            lemma_mod_bound(r + s0, capi);
            // the zeroed span is exactly the first frame; the remaining
            // frames' bytes sit at least `s0` bytes past `r` and are kept
            assert forall|p: int|
                0 <= p < capi && (p - r2) % capi < tr implies self.buffer@[p]
                == initial.buffer@[p] by {
                let d2 = (p - r2) % capi;
                lemma_mod_bound(p - r2, capi);
                lemma_offset_step(r2, p, capi);
                lemma_mod_shift(r + s0, d2, capi);
                lemma_step_offset(r, s0 + d2, capi);
                assert((p - r) % capi == s0 + d2);
            }
            lemma_frames_at_unchanged(initial.buffer@, self.buffer@, r2, rest);
            // the write offset now marks the end of the remaining frames
            lemma_mod_shift(r + s0, tr, capi);
            assert(self.write_offset as int == (r2 + tr) % capi);
        }
    }

    /// Writes an already-framed item at `write_offset` and commits it as the
    /// newest stored record.
    fn write_new_item(&mut self, item: &Vec<u8>, new_write_offset: u16)
        requires
            old(self).wf(),
            2 <= item@.len(),
            item@.len() + total_size(old(self)@) <= old(self).capacity(),
            be16(item@[0], item@[1]) == item@.len() - 2,
            new_write_offset as int == (old(self).write_offset as int + item@.len())
                % old(self).capacity(),
        ensures
            final(self).wf(),
            final(self)@ == old(self)@.push(item@.skip(2)),
            final(self).capacity() == old(self).capacity(),
            final(self).read_offset == old(self).read_offset,
            final(self).items_count == old(self).items_count + 1,
    {
        let ghost initial = *self;
        proof {
            lemma_total_size_at_least(initial.frames@);
        }
        let write_offset = self.write_offset;
        self.write(item, write_offset);
        self.write_offset = new_write_offset;
        self.items_count = self.items_count + 1;
        self.frames = Ghost(initial.frames@.push(item@.skip(2)));
        proof {
            let capi = initial.buffer@.len() as int;
            let r = initial.read_offset as int;
            let w = initial.write_offset as int;
            let t = total_size(initial.frames@);
            let li = item@.len() as int;
            let payload = item@.skip(2);
            lemma_mod_bound(w + li, capi);
            // the bytes of the stored frames lie within `t` bytes past `r`,
            // strictly before the span just written, so they are kept
            assert forall|p: int|
                0 <= p < capi && (p - r) % capi < t implies self.buffer@[p]
                == initial.buffer@[p] by {
                let d = (p - r) % capi;
                lemma_mod_bound(p - r, capi);
                lemma_offset_step(r, p, capi);
                lemma_sub_mod_noop(r + d, r + t, capi);
                lemma_mod_in_range(d - t, capi);
                assert((p - w) % capi == capi - t + d);
            }
            lemma_frames_at_unchanged(initial.buffer@, self.buffer@, r, initial.frames@);
            // the new frame lies exactly where the stored frames end
            lemma_small_mod(w as nat, capi as nat);
            assert(self.buffer@[w % capi] == item@[0]) by {
                lemma_step_offset(w, 0, capi);
            }
            assert(self.buffer@[(w + 1) % capi] == item@[1]) by {
                lemma_step_offset(w, 1, capi);
            }
            assert forall|i: int| 0 <= i < payload.len() implies self.buffer@[(w + 2 + i) % capi]
                == #[trigger] payload[i] by {
                lemma_mod_bound(w + 2 + i, capi);
                lemma_step_offset(w, 2 + i, capi);
            }
            assert(frame_at(self.buffer@, w, payload));
            lemma_frames_at_push(self.buffer@, r, initial.frames@, payload);
            // the new write offset marks the end of the extended chain
            lemma_total_size_push(initial.frames@, payload);
            lemma_mod_shift(r + t, li, capi);
            assert(self.write_offset as int == (r + total_size(self.frames@)) % capi);
        }
    }

    /// Appends an arbitrary length item to the end of the buffer, framed
    /// with a two-byte big-endian length prefix. A record whose frame could
    /// never fit, even in a fully empty buffer, is rejected outright and
    /// nothing changes; otherwise the oldest records are erased one by one
    /// until the frame fits, and the frame is written at `write_offset`.
    pub fn append(&mut self, item: Vec<u8>) -> (result: Result<(), DialectError>)
        requires
            old(self).wf(),
        ensures
            final(self).wf(),
            final(self).capacity() == old(self).capacity(),
            item@.len() + 2 <= old(self).capacity() ==> {
                &&& result == Ok::<(), DialectError>(())
                &&& final(self)@ == append_model(old(self)@, old(self).capacity(), item@)
            },
            item@.len() + 2 > old(self).capacity() ==> {
                &&& result == Err::<(), DialectError>(DialectError::OversizedRecord)
                &&& *final(self) == *old(self)
            },
    {
        if self.buffer.len() < 2 || item.len() > self.buffer.len() - 2 {
            return Err(DialectError::OversizedRecord);
        }
        let item_len: u16 = item.len() as u16;
        let hi: u8 = (item_len / 256) as u8;
        let lo: u8 = (item_len % 256) as u8;
        proof {
            lemma_mod_bound(item_len as int, 256);
            assert(item_len as int / 256 <= 255) by (nonlinear_arith)
                requires
                    0 <= item_len as int <= 0xffff,
            ;
            vstd::arithmetic::div_mod::lemma_fundamental_div_mod(item_len as int, 256);
        }
        let mut item_with_metadata: Vec<u8> = Vec::new();
        item_with_metadata.push(hi);
        item_with_metadata.push(lo);
        let mut i: usize = 0;
        while i < item.len()
            invariant
                i <= item@.len(),
                item_with_metadata@.len() == 2 + i as int,
                item_with_metadata@[0] == hi,
                item_with_metadata@[1] == lo,
                forall|j: int| 0 <= j < i as int ==> item_with_metadata@[2 + j] == #[trigger] item@[j],
            decreases item@.len() - i,
        {
            let b = item[i];
            item_with_metadata.push(b);
            i += 1;
        }
        let frame_len: u16 = item_with_metadata.len() as u16;
        let new_write_offset = self.mod_(self.write_offset as usize + frame_len as usize);
        let ghost entry = *self;
        while self.no_space_available_for(frame_len)
            invariant
                self.wf(),
                self.capacity() == entry.capacity(),
                2 <= frame_len as int <= entry.capacity(),
                frame_len as int == item@.len() + 2,
                self.write_offset == entry.write_offset,
                drop_until_fits(entry@, entry.capacity(), frame_len as int) == drop_until_fits(
                    self@,
                    self.capacity(),
                    frame_len as int,
                ),
            decreases self@.len(),
        {
            proof {
                if self.items_count == 0 {
                    assert(total_size(self@) == 0);
                    assert(false);
                }
            }
            let ghost before = *self;
            self.erase_oldest_item();
            proof {
                assert(drop_until_fits(before@, before.capacity(), frame_len as int)
                    == drop_until_fits(self@, self.capacity(), frame_len as int));
            }
        }
        proof {
            assert(drop_until_fits(self@, self.capacity(), frame_len as int) == self@);
        }
        self.write_new_item(&item_with_metadata, new_write_offset);
        proof {
            assert(item_with_metadata@.skip(2) =~= item@);
        }
        Ok(())
    }

    /// Returns every stored record, oldest first, by decoding the frames
    /// from `read_offset` forward, wrapping at the capacity, until
    /// `items_count` frames have been consumed. Walking only reads: the
    /// offsets, the count and the stored bytes stay untouched, as the shared
    /// borrow guarantees.
    pub fn read_all(&self) -> (result: Vec<Vec<u8>>)
        requires
            self.wf(),
        ensures
            result@.len() == self.items_count as int,
            result@.len() == self@.len(),
            forall|k: int| 0 <= k < self@.len() ==> #[trigger] result@[k]@ == self@[k],
    {
        let mut result: Vec<Vec<u8>> = Vec::new();
        let mut offset: u16 = self.read_offset;
        let mut k: u16 = 0;
        proof {
            assert(self@.skip(0) =~= self@);
        }
        while k < self.items_count
            invariant
                self.wf(),
                k <= self.items_count,
                (offset as int) < self.capacity(),
                frames_at(self.buffer@, offset as int, self@.skip(k as int)),
                result@.len() == k as int,
                forall|j: int| 0 <= j < k as int ==> #[trigger] result@[j]@ == self@[j],
            decreases self.items_count - k,
        {
            proof {
                assert(self@.skip(k as int)[0] == self@[k as int]);
                lemma_small_mod(offset as nat, self.buffer@.len() as nat);
            }
            let size = self.read_size_at(offset);
            let mut payload: Vec<u8> = Vec::new();
            let mut i: u16 = 0;
            while i < size
                invariant
                    self.wf(),
                    (offset as int) < self.capacity(),
                    i <= size,
                    size as int == self@[k as int].len(),
                    frame_at(self.buffer@, offset as int, self@[k as int]),
                    payload@.len() == i as int,
                    forall|j: int| 0 <= j < i as int ==> payload@[j] == #[trigger] self@[k as int][j],
                decreases size - i,
            {
                let pos = self.mod_(offset as usize + 2 + i as usize);
                proof {
                    lemma_mod_bound(offset as int + 2 + i as int, self.buffer@.len() as int);
                    assert(self.buffer@[(offset as int + 2 + i as int) % (
                    self.buffer@.len() as int)] == self@[k as int][i as int]);
                }
                payload.push(self.buffer[pos as usize]);
                i += 1;
            }
            proof {
                assert(payload@ =~= self@[k as int]);
            }
            result.push(payload);
            offset = self.mod_(offset as usize + 2 + size as usize);
            proof {
                assert(self@.skip(k as int).drop_first() =~= self@.skip(k as int + 1));
            }
            k += 1;
        }
        result
    }

    /// Returns a copy of the underlying buffer that contains all frames.
    pub fn raw(&self) -> (result: Vec<u8>)
        ensures
            result@ == self.buffer@,
    {
        let mut result: Vec<u8> = Vec::new();
        let mut i: usize = 0;
        while i < self.buffer.len()
            invariant
                i <= self.buffer@.len(),
                result@.len() == i as int,
                forall|p: int| 0 <= p < i as int ==> #[trigger] result@[p] == self.buffer@[p],
            decreases self.buffer@.len() - i,
        {
            let b = self.buffer[i];
            result.push(b);
            i += 1;
        }
        proof {
            assert(result@ =~= self.buffer@);
        }
        result
    }
}

/// Capacity invariant: a well-formed buffer's stored frames never occupy
/// more than its capacity, and the stored count always matches the number of
/// records an independent walk from `read_offset` decodes.
pub proof fn lemma_capacity_invariant(buffer: CyclicByteBuffer)
    requires
        buffer.wf(),
    ensures
        total_size(buffer@) <= buffer.capacity(),
        buffer@.len() == buffer.items_count as int,
{
}

/// FIFO order: a successful append leaves a suffix of the previously stored
/// records, oldest evicted first, followed by the new record. Eviction never
/// removes from the middle or the back.
pub proof fn lemma_append_keeps_fifo_order(frames: Seq<Seq<u8>>, cap: int, payload: Seq<u8>)
    ensures
        exists|j: int|
            0 <= j <= frames.len() && append_model(frames, cap, payload) == #[trigger] frames.skip(
                j,
            ).push(payload),
{
    lemma_drop_until_fits_is_suffix(frames, cap, payload.len() + 2int);
    let j = choose|j: int|
        0 <= j <= frames.len() && drop_until_fits(frames, cap, payload.len() + 2int)
            == frames.skip(j);
    assert(append_model(frames, cap, payload) == frames.skip(j).push(payload));
}

/// Wrap correctness: what an append leaves stored is a function of the
/// stored records, the capacity and the payload alone. A buffer whose new
/// frame straddles the end and wraps to offset zero and a relocated buffer
/// holding the same records reach the same logical contents.
pub proof fn lemma_append_location_independent(
    a: CyclicByteBuffer,
    b: CyclicByteBuffer,
    payload: Seq<u8>,
)
    requires
        a.wf(),
        b.wf(),
        a@ == b@,
        a.capacity() == b.capacity(),
    ensures
        append_model(a@, a.capacity(), payload) == append_model(b@, b.capacity(), payload),
{
}

} // verus!
