//! The mathematical model of the ring log: how frames lie in a circular byte
//! buffer, how much room a sequence of frames occupies, and which suffix of
//! the stored records survives an append that must evict.

use vstd::arithmetic::div_mod::{
    lemma_add_mod_noop, lemma_add_mod_noop_right, lemma_mod_add_multiples_vanish, lemma_mod_bound,
    lemma_small_mod, lemma_sub_mod_noop,
};
use vstd::prelude::*;

verus! {

/// Bytes of bookkeeping stored ahead of each payload: the two-byte length prefix.
pub const ITEM_METADATA_OVERHEAD: u16 = 2;

/// The integer a big-endian two-byte length prefix encodes.
pub open spec fn be16(hi: u8, lo: u8) -> int {
    hi * 256 + lo
}

/// Buffer bytes occupied by the given records once framed: each payload costs
/// its own length plus the two-byte length prefix.
pub open spec fn total_size(frames: Seq<Seq<u8>>) -> int
    decreases frames.len(),
{
    if frames.len() == 0 {
        0
    } else {
        2 + frames[0].len() + total_size(frames.drop_first())
    }
}

/// A frame encoding `payload` lies in the circular buffer `buf` starting at
/// `start`: a two-byte big-endian length prefix followed by the payload
/// bytes, every index wrapping modulo the buffer length.
pub open spec fn frame_at(buf: Seq<u8>, start: int, payload: Seq<u8>) -> bool {
    let cap = buf.len() as int;
    &&& payload.len() <= 0xffff
    &&& be16(buf[start % cap], buf[(start + 1) % cap]) == payload.len()
    &&& forall|i: int| 0 <= i < payload.len() ==> buf[(start + 2 + i) % cap] == #[trigger] payload[i]
}

/// The given records lie framed back to back in `buf`, the first frame
/// starting at `start`, each later frame where the previous one ended.
pub open spec fn frames_at(buf: Seq<u8>, start: int, frames: Seq<Seq<u8>>) -> bool
    decreases frames.len(),
{
    frames.len() == 0 || {
        &&& frame_at(buf, start, frames[0])
        &&& frames_at(
            buf,
            (start + 2 + frames[0].len()) % (buf.len() as int),
            frames.drop_first(),
        )
    }
}

/// The records that remain once the oldest ones have been evicted, front
/// first, until `need` bytes fit beside what is left in a buffer of
/// `cap` bytes.
pub open spec fn drop_until_fits(frames: Seq<Seq<u8>>, cap: int, need: int) -> Seq<Seq<u8>>
    decreases frames.len(),
{
    if need <= cap - total_size(frames) || frames.len() == 0 {
        frames
    } else {
        drop_until_fits(frames.drop_first(), cap, need)
    }
}

/// The records a buffer of `cap` bytes holds after appending `payload`:
/// the surviving suffix of the old records, then the new record.
pub open spec fn append_model(frames: Seq<Seq<u8>>, cap: int, payload: Seq<u8>) -> Seq<Seq<u8>> {
    drop_until_fits(frames, cap, payload.len() + 2int).push(payload)
}

/// The records a buffer of `cap` bytes holds after appending every payload
/// of `history` in order, starting from an empty buffer.
pub open spec fn log_of_history(history: Seq<Seq<u8>>, cap: int) -> Seq<Seq<u8>>
    decreases history.len(),
{
    if history.len() == 0 {
        Seq::empty()
    } else {
        append_model(log_of_history(history.drop_last(), cap), cap, history.last())
    }
}

/// Every frame costs at least its two-byte prefix.
pub proof fn lemma_total_size_at_least(frames: Seq<Seq<u8>>)
    ensures
        total_size(frames) >= 2 * frames.len(),
    decreases frames.len(),
{
    if frames.len() > 0 {
        lemma_total_size_at_least(frames.drop_first());
    }
}

/// Appending one record to the model adds its framed size to the total.
pub proof fn lemma_total_size_push(frames: Seq<Seq<u8>>, payload: Seq<u8>)
    ensures
        total_size(frames.push(payload)) == total_size(frames) + 2 + payload.len(),
    decreases frames.len(),
{
    if frames.len() == 0 {
        assert(frames.push(payload).drop_first() =~= Seq::<Seq<u8>>::empty());
        assert(frames.push(payload)[0] == payload);
        assert(total_size(Seq::<Seq<u8>>::empty()) == 0);
    } else {
        assert(frames.push(payload).drop_first() =~= frames.drop_first().push(payload));
        assert(frames.push(payload)[0] == frames[0]);
        lemma_total_size_push(frames.drop_first(), payload);
    }
}

/// What `a % m` is when `a` is within one modulus of the range `[0, m)`.
pub proof fn lemma_mod_in_range(a: int, m: int)
    requires
        0 < m,
        -m <= a < 2 * m,
    ensures
        a % m == if a < 0 {
            a + m
        } else if a < m {
            a
        } else {
            a - m
        },
{
    if a < 0 {
        lemma_mod_add_multiples_vanish(a, m);
        lemma_small_mod((a + m) as nat, m as nat);
    } else if a < m {
        lemma_small_mod(a as nat, m as nat);
    } else {
        lemma_mod_add_multiples_vanish(a - m, m);
        lemma_small_mod((a - m) as nat, m as nat);
    }
}

/// Walking `k` steps from `start` around a buffer of length `m` lands on the
/// same position whether or not `start` is first reduced modulo `m`.
pub proof fn lemma_mod_shift(start: int, k: int, m: int)
    requires
        0 < m,
    ensures
        ((start % m) + k) % m == (start + k) % m,
{
    lemma_add_mod_noop(start, k, m);
    lemma_add_mod_noop_right(start % m, k, m);
}

/// A position reached by stepping `j` bytes forward from `start` lies `j`
/// bytes past `start`, measured circularly.
pub proof fn lemma_step_offset(start: int, j: int, cap: int)
    requires
        0 < cap,
        0 <= start < cap,
        0 <= j < cap,
    ensures
        ((start + j) % cap - start) % cap == j,
{
    lemma_sub_mod_noop(start + j, start, cap);
    lemma_small_mod(start as nat, cap as nat);
    lemma_small_mod(j as nat, cap as nat);
    vstd::arithmetic::div_mod::lemma_mod_twice(start + j, cap);
}

/// Stepping forward from `offset` by the circular distance from `offset` to
/// `p` lands exactly on `p`.
pub proof fn lemma_offset_step(offset: int, p: int, cap: int)
    requires
        0 < cap,
        0 <= offset < cap,
        0 <= p < cap,
    ensures
        (offset + (p - offset) % cap) % cap == p,
{
    lemma_add_mod_noop_right(offset, p - offset, cap);
    lemma_small_mod(p as nat, cap as nat);
}

/// Frames are untouched by buffer writes that stay off the region they
/// occupy: if `buf2` agrees with `buf1` on every position within
/// `total_size(frames)` bytes past `start`, the frames still lie in `buf2`.
pub proof fn lemma_frames_at_unchanged(
    buf1: Seq<u8>,
    buf2: Seq<u8>,
    start: int,
    frames: Seq<Seq<u8>>,
)
    requires
        buf1.len() == buf2.len(),
        0 < buf1.len(),
        0 <= start < buf1.len(),
        frames_at(buf1, start, frames),
        total_size(frames) <= buf1.len(),
        forall|p: int|
            0 <= p < buf1.len() && (p - start) % (buf1.len() as int) < total_size(frames)
                ==> #[trigger] buf2[p] == buf1[p],
    ensures
        frames_at(buf2, start, frames),
    decreases frames.len(),
{
    if frames.len() > 0 {
        let cap = buf1.len() as int;
        let p0 = frames[0];
        let s0: int = 2 + p0.len() as int;
        let rest = frames.drop_first();
        lemma_total_size_at_least(rest);
        // every position within the first frame is within the live region,
        // so its bytes agree between the two buffers
        assert(buf2[start % cap] == buf1[start % cap]) by {
            lemma_mod_bound(start + 0, cap);
            lemma_step_offset(start, 0, cap);
        }
        assert(buf2[(start + 1) % cap] == buf1[(start + 1) % cap]) by {
            lemma_mod_bound(start + 1, cap);
            lemma_step_offset(start, 1, cap);
        }
        assert forall|i: int| 0 <= i < p0.len() implies buf2[(start + 2 + i) % cap]
            == #[trigger] p0[i] by {
            lemma_mod_bound(start + 2 + i, cap);
            lemma_step_offset(start, 2 + i, cap);
        }
        assert(frame_at(buf2, start, p0));
        let start2 = (start + s0) % cap;
        lemma_mod_bound(start + s0, cap);
        assert forall|p: int|
            0 <= p < cap && (p - start2) % cap < total_size(rest) implies #[trigger] buf2[p]
            == buf1[p] by {
            let d2 = (p - start2) % cap;
            lemma_mod_bound(p - start2, cap);
            // p sits s0 + d2 bytes past start
            lemma_offset_step(start2, p, cap);
            // (start2 + d2) % cap == (start + s0 + d2) % cap
            lemma_mod_shift(start + s0, d2, cap);
            lemma_mod_bound(start + s0 + d2, cap);
            lemma_step_offset(start, s0 + d2, cap);
            assert((p - start) % cap == s0 + d2);
        }
        lemma_frames_at_unchanged(buf1, buf2, start2, rest);
    }
}

/// A frame lying exactly where the stored frames end extends the chain: the
/// buffer then holds the old frames followed by the new one.
pub proof fn lemma_frames_at_push(buf: Seq<u8>, start: int, frames: Seq<Seq<u8>>, payload: Seq<u8>)
    requires
        0 < buf.len(),
        0 <= start < buf.len(),
        frames_at(buf, start, frames),
        frame_at(buf, (start + total_size(frames)) % (buf.len() as int), payload),
    ensures
        frames_at(buf, start, frames.push(payload)),
    decreases frames.len(),
{
    let cap = buf.len() as int;
    if frames.len() == 0 {
        lemma_small_mod(start as nat, cap as nat);
        assert(frames.push(payload)[0] == payload);
        assert(frames.push(payload).drop_first() =~= Seq::<Seq<u8>>::empty());
        assert(frame_at(buf, start, payload));
        assert(frames_at(
            buf,
            (start + 2 + frames.push(payload)[0].len()) % cap,
            frames.push(payload).drop_first(),
        ));
    } else {
        let s0: int = 2 + frames[0].len() as int;
        let rest = frames.drop_first();
        let start2 = (start + s0) % cap;
        lemma_mod_bound(start + s0, cap);
        lemma_mod_shift(start + s0, total_size(rest), cap);
        lemma_frames_at_push(buf, start2, rest, payload);
        assert(frames.push(payload)[0] == frames[0]);
        assert(frames.push(payload).drop_first() =~= rest.push(payload));
    }
}

/// After eviction either the needed room is free or nothing is left.
pub proof fn lemma_drop_until_fits_makes_room(frames: Seq<Seq<u8>>, cap: int, need: int)
    ensures
        need <= cap - total_size(drop_until_fits(frames, cap, need)) || drop_until_fits(
            frames,
            cap,
            need,
        ).len() == 0,
    decreases frames.len(),
{
    if !(need <= cap - total_size(frames) || frames.len() == 0) {
        lemma_drop_until_fits_makes_room(frames.drop_first(), cap, need);
    }
}

/// Capacity invariant: over every sequence of appends that each fit an
/// empty buffer, the live records' framed sizes never sum to more than the
/// capacity.
pub proof fn lemma_history_within_capacity(history: Seq<Seq<u8>>, cap: int)
    requires
        cap >= 0,
        forall|i: int| 0 <= i < history.len() ==> (#[trigger] history[i]).len() + 2 <= cap,
    ensures
        total_size(log_of_history(history, cap)) <= cap,
    decreases history.len(),
{
    if history.len() > 0 {
        let shorter = history.drop_last();
        let last = history.last();
        let need = last.len() + 2int;
        let survivors = drop_until_fits(log_of_history(shorter, cap), cap, need);
        lemma_history_within_capacity(shorter, cap);
        lemma_drop_until_fits_makes_room(log_of_history(shorter, cap), cap, need);
        lemma_total_size_push(survivors, last);
        assert(history[history.len() - 1] == last);
    }
}

/// FIFO order: over every sequence of appends that each fit an empty
/// buffer, the live records are exactly a suffix of the append history.
/// Eviction removes only from the front, never the middle or the back.
pub proof fn lemma_history_suffix_survives(history: Seq<Seq<u8>>, cap: int)
    requires
        forall|i: int| 0 <= i < history.len() ==> (#[trigger] history[i]).len() + 2 <= cap,
    ensures
        exists|k: int|
            0 <= k <= history.len() && log_of_history(history, cap) == #[trigger] history.skip(k),
    decreases history.len(),
{
    if history.len() == 0 {
        assert(log_of_history(history, cap) =~= history.skip(0));
    } else {
        let shorter = history.drop_last();
        let last = history.last();
        let need = last.len() + 2int;
        lemma_history_suffix_survives(shorter, cap);
        let k = choose|k: int|
            0 <= k <= shorter.len() && log_of_history(shorter, cap) == shorter.skip(k);
        lemma_drop_until_fits_is_suffix(shorter.skip(k), cap, need);
        let j = choose|j: int|
            0 <= j <= shorter.skip(k).len() && drop_until_fits(shorter.skip(k), cap, need)
                == shorter.skip(k).skip(j);
        assert(shorter.skip(k).skip(j) =~= shorter.skip(k + j));
        assert(shorter.skip(k + j).push(last) =~= history.skip(k + j));
        assert(log_of_history(history, cap) == history.skip(k + j));
    }
}

/// Eviction removes records only from the front: what survives is always a
/// suffix of what was stored.
pub proof fn lemma_drop_until_fits_is_suffix(frames: Seq<Seq<u8>>, cap: int, need: int)
    ensures
        exists|k: int|
            0 <= k <= frames.len() && drop_until_fits(frames, cap, need) == #[trigger] frames.skip(
                k,
            ),
    decreases frames.len(),
{
    if need <= cap - total_size(frames) || frames.len() == 0 {
        assert(frames.skip(0) =~= frames);
    } else {
        lemma_drop_until_fits_is_suffix(frames.drop_first(), cap, need);
        let k = choose|k: int|
            0 <= k <= frames.drop_first().len() && drop_until_fits(frames.drop_first(), cap, need)
                == frames.drop_first().skip(k);
        assert(frames.drop_first().skip(k) =~= frames.skip(k + 1));
    }
}

} // verus!
