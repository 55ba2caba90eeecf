//! What buffers hold after writes and copies.
//!
//! Contents are a function from buffer and byte position to byte. Many uploads fill slots:
//! equal parts of one buffer, each of them whole.

use crate::gpu::{ByteOrder, Command};
use vstd::prelude::*;

verus! {

use crate::bytes::{be_words, le_words};
use crate::gpu::UploadView;

/// The bytes of a write, on a machine that stores the least significant byte of a word
/// first or last.
pub open spec fn payload_of(least_first: bool, u: UploadView) -> Seq<u8> {
    if u.order == ByteOrder::Little || least_first {
        le_words(u.words)
    } else {
        be_words(u.words)
    }
}

/// The contents after one write.
pub open spec fn after_write(
    least_first: bool,
    mem: spec_fn(usize, int) -> u8,
    u: UploadView,
) -> spec_fn(usize, int) -> u8 {
    let bytes = payload_of(least_first, u);
    |buffer: usize, i: int|
        if buffer == u.buffer && u.offset <= i < u.offset + bytes.len() {
            bytes[i - u.offset]
        } else {
            mem(buffer, i)
        }
}

/// The contents after writes in turn.
pub open spec fn after_writes(
    least_first: bool,
    mem: spec_fn(usize, int) -> u8,
    writes: Seq<UploadView>,
) -> spec_fn(usize, int) -> u8
    decreases writes.len(),
{
    if writes.len() == 0 {
        mem
    } else {
        after_write(
            least_first,
            after_writes(least_first, mem, writes.drop_last()),
            writes.last(),
        )
    }
}

/// The contents after a copy from one buffer to another.
pub open spec fn after_copy(mem: spec_fn(usize, int) -> u8, copy: Command) -> spec_fn(
    usize,
    int,
) -> u8
    recommends
        copy is Copy,
{
    |buffer: usize, i: int|
        if buffer == copy->dst && copy->dst_offset <= i < copy->dst_offset + copy->size {
            mem(copy->src, copy->src_offset + (i - copy->dst_offset))
        } else {
            mem(buffer, i)
        }
}

/// A run of bytes of a buffer.
pub open spec fn bytes_at(
    mem: spec_fn(usize, int) -> u8,
    buffer: usize,
    from: int,
    count: nat,
) -> Seq<u8> {
    Seq::new(count, |i: int| mem(buffer, from + i))
}

/// The write of words into a slot of `width` words.
pub open spec fn slot_write(
    buffer: usize,
    width: int,
    order: ByteOrder,
    slot: int,
    words: Seq<u32>,
) -> UploadView {
    UploadView { buffer, offset: (slot * width * 4) as u64, order, words }
}

/// Whether writes fill slots of one buffer, each of them whole, and `slots` says which.
pub open spec fn fill_slots(
    buffer: usize,
    width: int,
    count: int,
    slots: Seq<int>,
    writes: Seq<UploadView>,
) -> bool {
    &&& writes.len() == slots.len()
    &&& forall|i: int|
        0 <= i < writes.len() ==> {
            &&& 0 <= slots[i] < count
            &&& (#[trigger] writes[i]).words.len() == width
            &&& writes[i] == slot_write(buffer, width, writes[i].order, slots[i], writes[i].words)
        }
}

/// Two slots do not meet.
proof fn lemma_slots_apart(a: int, b: int, width: int)
    requires
        a < b,
        width >= 0,
    ensures
        a * width * 4 + width * 4 <= b * width * 4,
{
    assert(a * width + width <= b * width) by (nonlinear_arith)
        requires
            a < b,
            width >= 0,
    ;
}

/// A slot lies within the slots.
proof fn lemma_slot_within(slot: int, count: int, width: int)
    requires
        0 <= slot < count,
        width >= 0,
    ensures
        0 <= slot * width * 4,
        slot * width * 4 + width * 4 <= count * width * 4,
{
    assert(0 <= slot * width && slot * width + width <= count * width) by (nonlinear_arith)
        requires
            0 <= slot < count,
            width >= 0,
    ;
}

/// A slot holds what was written into it last, whatever was written into other slots
/// since.
pub proof fn law_slot_holds_its_last_write(
    least_first: bool,
    mem: spec_fn(usize, int) -> u8,
    buffer: usize,
    width: int,
    count: int,
    slots: Seq<int>,
    writes: Seq<UploadView>,
    last: int,
)
    requires
        width >= 0,
        count * width * 4 <= u64::MAX,
        fill_slots(buffer, width, count, slots, writes),
        0 <= last < writes.len(),
        forall|i: int| last < i < slots.len() ==> #[trigger] slots[i] != slots[last],
    ensures
        bytes_at(
            after_writes(least_first, mem, writes),
            buffer,
            slots[last] * width * 4,
            (width * 4) as nat,
        ) == payload_of(least_first, writes[last]),
    decreases writes.len(),
{
    let n = writes.len() - 1;
    let at = slots[last] * width * 4;
    let held = after_writes(least_first, mem, writes);
    let before = after_writes(least_first, mem, writes.drop_last());
    let u = writes.last();
    let w_last = writes[last];
    assert(writes[n] == u);
    assert(w_last.words.len() == width);
    lemma_slot_within(slots[last], count, width);
    lemma_slot_within(slots[n], count, width);
    if last == n {
        assert(bytes_at(held, buffer, at, (width * 4) as nat) =~= payload_of(least_first, u));
    } else {
        let w = writes.drop_last();
        let s = slots.drop_last();
        assert forall|i: int| 0 <= i < w.len() implies {
            &&& 0 <= s[i] < count
            &&& (#[trigger] w[i]).words.len() == width
            &&& w[i] == slot_write(buffer, width, w[i].order, s[i], w[i].words)
        } by {
            assert(w[i] == writes[i]);
        }
        assert forall|i: int| last < i < s.len() implies #[trigger] s[i] != s[last] by {
            assert(s[i] == slots[i]);
        }
        law_slot_holds_its_last_write(least_first, mem, buffer, width, count, s, w, last);
        assert(slots[n] != slots[last]);
        if slots[n] < slots[last] {
            lemma_slots_apart(slots[n], slots[last], width);
        } else {
            lemma_slots_apart(slots[last], slots[n], width);
        }
        let have = bytes_at(before, buffer, at, (width * 4) as nat);
        assert forall|i: int| 0 <= i < width * 4 implies bytes_at(
            held,
            buffer,
            at,
            (width * 4) as nat,
        )[i] == have[i] by {}
        assert(bytes_at(held, buffer, at, (width * 4) as nat) =~= have);
    }
}

/// A copy of the part of a buffer that holds a slot carries what was written into the slot
/// last.
pub proof fn law_slot_reads_back(
    least_first: bool,
    mem: spec_fn(usize, int) -> u8,
    buffer: usize,
    width: int,
    count: int,
    slots: Seq<int>,
    writes: Seq<UploadView>,
    last: int,
    copy: Command,
)
    requires
        width >= 0,
        count * width * 4 <= u64::MAX,
        fill_slots(buffer, width, count, slots, writes),
        0 <= last < writes.len(),
        forall|i: int| last < i < slots.len() ==> #[trigger] slots[i] != slots[last],
        copy is Copy,
        copy->src == buffer,
        copy->src_offset <= slots[last] * width * 4,
        slots[last] * width * 4 + width * 4 <= copy->src_offset + copy->size,
    ensures
        bytes_at(
            after_copy(after_writes(least_first, mem, writes), copy),
            copy->dst,
            copy->dst_offset + (slots[last] * width * 4 - copy->src_offset),
            (width * 4) as nat,
        ) == payload_of(least_first, writes[last]),
{
    law_slot_holds_its_last_write(
        least_first,
        mem,
        buffer,
        width,
        count,
        slots,
        writes,
        last,
    );
    let held = after_writes(least_first, mem, writes);
    let at = slots[last] * width * 4;
    assert(bytes_at(
        after_copy(held, copy),
        copy->dst,
        copy->dst_offset + (at - copy->src_offset),
        (width * 4) as nat,
    ) =~= bytes_at(held, buffer, at, (width * 4) as nat));
}

/// A copy leaves every buffer but the one it goes to as it was, so that copying again gives
/// the same.
pub proof fn law_copy_leaves_its_source(mem: spec_fn(usize, int) -> u8, copy: Command)
    requires
        copy is Copy,
        copy->src != copy->dst,
    ensures
        forall|buffer: usize, i: int|
            buffer != copy->dst ==> #[trigger] after_copy(mem, copy)(buffer, i) == mem(buffer, i),
        forall|buffer: usize, i: int| #[trigger]
            after_copy(after_copy(mem, copy), copy)(buffer, i) == after_copy(mem, copy)(buffer, i),
{
}

} // verus!
