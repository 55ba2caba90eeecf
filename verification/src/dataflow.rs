//! What the buffers of a GPU hold after recorded commands, in terms of what they held before.
//!
//! Shaders are not run here. What a pass makes is a term: the entry point, the slot that it was
//! written to, and the terms of everything that the pass read. So the term in a buffer says which
//! passes made it, in which order, and from what.

use crate::gpu::{BindKind, BindRange, Command, Entry, LayoutEntry};
use vstd::prelude::*;

verus! {

use crate::gpu::DeviceView;

/// What a part of a buffer holds.
pub enum Term {
    /// What was there to begin with.
    Given { buffer: usize, offset: u64 },
    /// What a pass wrote to one of its slots, from what it read.
    Made { entry: Entry, slot: int, from: Seq<Term> },
    /// A transform along an axis.
    Turned { axis: usize, inverse: bool, of: Box<Term> },
    /// What a pass does not read.
    Nothing,
}

/// Whether an entry point works in place, on its first slot.
pub open spec fn in_place(entry: Entry) -> bool {
    match entry {
        Entry::ComplexMul => true,
        Entry::FusedCmulIfftCol => true,
        Entry::NormalizeGrowth => true,
        Entry::FftRow => true,
        Entry::FftCol => true,
        Entry::IfftRow => true,
        Entry::IfftCol => true,
        Entry::DiffusionPass1 => true,
        _ => false,
    }
}

/// What a pass reads, slot by slot: what it cannot write, and what it works on in place.
pub open spec fn read_by(
    st: spec_fn(usize, u64) -> Term,
    entry: Entry,
    layout: Seq<LayoutEntry>,
    entries: Seq<BindRange>,
) -> Seq<Term> {
    Seq::new(
        entries.len(),
        |j: int|
            if layout[j].kind != BindKind::ReadWrite || (j == 0 && in_place(entry)) {
                st(entries[j].buffer, entries[j].offset)
            } else {
                Term::Nothing
            },
    )
}

/// The last of the first `n` slots through which a part of a buffer can be written.
pub open spec fn written_slot(
    layout: Seq<LayoutEntry>,
    entries: Seq<BindRange>,
    n: nat,
    buffer: usize,
    offset: u64,
) -> Option<int>
    decreases n,
{
    if n == 0 {
        None
    } else if layout[n - 1].kind == BindKind::ReadWrite && entries[n - 1].buffer == buffer
        && entries[n - 1].offset == offset {
        Some(n - 1)
    } else {
        written_slot(layout, entries, (n - 1) as nat, buffer, offset)
    }
}

/// What buffers hold after one pass.
pub open spec fn after_pass(
    d: DeviceView,
    st: spec_fn(usize, u64) -> Term,
    pipeline: usize,
    group: usize,
) -> spec_fn(usize, u64) -> Term {
    let entry = d.pipelines[pipeline as int].entry;
    let layout = d.layouts[d.pipelines[pipeline as int].layout as int];
    let entries = d.groups[group as int].entries;
    |buffer: usize, offset: u64|
        match written_slot(layout, entries, entries.len(), buffer, offset) {
            Some(slot) => Term::Made { entry, slot, from: read_by(st, entry, layout, entries) },
            None => st(buffer, offset),
        }
}

/// What buffers hold after one command; transforms work on the buffer `work`.
pub open spec fn after_command(
    d: DeviceView,
    work: usize,
    st: spec_fn(usize, u64) -> Term,
    c: Command,
) -> spec_fn(usize, u64) -> Term {
    match c {
        Command::Dispatch { pipeline, group, workgroups } => after_pass(d, st, pipeline, group),
        Command::Copy { src, src_offset, dst, dst_offset, size } => |buffer: usize, offset: u64|
            if buffer == dst && offset == dst_offset {
                st(src, src_offset)
            } else {
                st(buffer, offset)
            },
        Command::Transform { axis, inverse, lanes, lane_stride, stride } => |
            buffer: usize,
            offset: u64,
        |
            if buffer == work && offset == 0 {
                Term::Turned { axis, inverse, of: Box::new(st(work, 0)) }
            } else {
                st(buffer, offset)
            },
    }
}

/// What buffers hold after commands in turn.
pub open spec fn after_commands(
    d: DeviceView,
    work: usize,
    st: spec_fn(usize, u64) -> Term,
    commands: Seq<Command>,
) -> spec_fn(usize, u64) -> Term
    decreases commands.len(),
{
    if commands.len() == 0 {
        st
    } else {
        after_command(
            d,
            work,
            after_commands(d, work, st, commands.drop_last()),
            commands.last(),
        )
    }
}

/// One command more.
pub proof fn lemma_one_more(
    d: DeviceView,
    work: usize,
    st: spec_fn(usize, u64) -> Term,
    commands: Seq<Command>,
    c: Command,
)
    ensures
        after_commands(d, work, st, commands.push(c)) == after_command(
            d,
            work,
            after_commands(d, work, st, commands),
            c,
        ),
{
    assert(commands.push(c).drop_last() =~= commands);
}

/// Commands behind commands.
pub proof fn lemma_some_more(
    d: DeviceView,
    work: usize,
    st: spec_fn(usize, u64) -> Term,
    commands: Seq<Command>,
    more: Seq<Command>,
)
    ensures
        after_commands(d, work, st, commands + more) == after_commands(
            d,
            work,
            after_commands(d, work, st, commands),
            more,
        ),
    decreases more.len(),
{
    if more.len() == 0 {
        assert(commands + more =~= commands);
    } else {
        let m = more.drop_last();
        lemma_some_more(d, work, st, commands, m);
        assert((commands + more).drop_last() =~= commands + m);
        assert((commands + more).last() == more.last());
    }
}

/// Blocks of commands, one behind the other.
pub open spec fn blocks(f: spec_fn(int) -> Seq<Command>, n: nat) -> Seq<Command>
    decreases n,
{
    if n == 0 {
        seq![]
    } else {
        blocks(f, (n - 1) as nat) + f(n - 1)
    }
}

/// Blocks that each work on a slot of their own, from that slot and from other buffers, leave in
/// every slot what they would have left there alone.
pub proof fn lemma_blocks(
    d: DeviceView,
    work: usize,
    st: spec_fn(usize, u64) -> Term,
    f: spec_fn(int) -> Seq<Command>,
    n: nat,
    buffer: usize,
    slot: spec_fn(int) -> u64,
    t: spec_fn(int, spec_fn(usize, u64) -> Term) -> Term,
)
    requires
        forall|i: int, s: spec_fn(usize, u64) -> Term, b: usize, o: u64|
            0 <= i < n ==> #[trigger] after_commands(d, work, s, f(i))(b, o) == (if b == buffer && o
                == slot(i) {
                t(i, s)
            } else {
                s(b, o)
            }),
        forall|i: int, j: int| 0 <= i < j < n ==> #[trigger] slot(i) != #[trigger] slot(j),
        forall|i: int, s: spec_fn(usize, u64) -> Term|
            0 <= i < n && s(buffer, slot(i)) == st(buffer, slot(i)) && (forall|b: usize, o: u64|
                b != buffer ==> #[trigger] s(b, o) == st(b, o)) ==> #[trigger] t(i, s) == t(i, st),
    ensures
        ({
            let after = after_commands(d, work, st, blocks(f, n));
            &&& forall|i: int| 0 <= i < n ==> after(buffer, #[trigger] slot(i)) == t(i, st)
            &&& forall|b: usize, o: u64|
                b != buffer || (forall|i: int| 0 <= i < n ==> o != #[trigger] slot(i))
                    ==> #[trigger] after(b, o) == st(b, o)
        }),
    decreases n,
{
    if n > 0 {
        let m = (n - 1) as nat;
        lemma_blocks(d, work, st, f, m, buffer, slot, t);
        let mid = after_commands(d, work, st, blocks(f, m));
        lemma_some_more(d, work, st, blocks(f, m), f(n - 1));
        let after = after_commands(d, work, st, blocks(f, n));
        assert(after == after_commands(d, work, mid, f(n - 1)));
        let last = slot(n - 1);
        assert(mid(buffer, last) == st(buffer, last)) by {
            assert forall|i: int| 0 <= i < m implies last != #[trigger] slot(i) by {
                assert(slot(i) != slot(n - 1));
            }
        }
        assert(t(n - 1, mid) == t(n - 1, st));
        assert forall|i: int| 0 <= i < n implies after(buffer, #[trigger] slot(i)) == t(i, st) by {
            if i < m {
                assert(slot(i) != slot(n - 1));
                assert(mid(buffer, slot(i)) == t(i, st));
            }
        }
        assert forall|b: usize, o: u64|
            b != buffer || (forall|i: int| 0 <= i < n ==> o != #[trigger] slot(i)) implies
            #[trigger] after(b, o) == st(b, o) by {
            assert(b != buffer || o != slot(n - 1));
            assert(mid(b, o) == st(b, o));
        }
    }
}

} // verus!
