//! What one step of Diffusion Lenia computes from what.

use crate::dataflow::Term;
use crate::gpu::{Command, Entry};
use crate::ml::convolution::ConvolutionPhase;
use crate::ml::GpuMaceLenia;
use vstd::prelude::*;

verus! {

use crate::dataflow::{
    after_command, after_commands, after_pass, blocks, lemma_blocks, lemma_one_more, lemma_some_more,
    read_by, written_slot,
};
use crate::gpu::{workgroups, DeviceView, PipelineDesc};
use crate::ml::convolution::phase_layouts;
use crate::ml::diffusion::DiffusionPhase;
use crate::ml::growth::GrowthPhase;

/// Whether a device has the passes of the convolution phase under their numbers.
pub open spec fn convolution_stands(p: ConvolutionPhase, d: DeviceView) -> bool {
    &&& d.layouts[p.fft_bgl as int] == phase_layouts()[0]
    &&& d.layouts[p.copy_to_conv_bgl as int] == phase_layouts()[1]
    &&& d.layouts[p.complex_mul_bgl as int] == phase_layouts()[2]
    &&& d.pipelines[p.fft_row_pipeline as int] == (PipelineDesc {
        layout: p.fft_bgl,
        entry: Entry::FftRow,
    })
    &&& d.pipelines[p.fft_col_pipeline as int] == (PipelineDesc {
        layout: p.fft_bgl,
        entry: Entry::FftCol,
    })
    &&& d.pipelines[p.ifft_row_pipeline as int] == (PipelineDesc {
        layout: p.fft_bgl,
        entry: Entry::IfftRow,
    })
    &&& d.pipelines[p.ifft_col_pipeline as int] == (PipelineDesc {
        layout: p.fft_bgl,
        entry: Entry::IfftCol,
    })
    &&& d.pipelines[p.copy_to_conv_pipeline as int] == (PipelineDesc {
        layout: p.copy_to_conv_bgl,
        entry: Entry::CopyToConv,
    })
    &&& d.pipelines[p.complex_mul_pipeline as int] == (PipelineDesc {
        layout: p.complex_mul_bgl,
        entry: Entry::ComplexMul,
    })
}

/// A phase that was set up has its passes under their numbers, on every device that has more.
pub proof fn law_set_up_phases_have_their_passes(
    p: ConvolutionPhase,
    before: DeviceView,
    n: nat,
    total: int,
    channels: int,
    d: DeviceView,
)
    requires
        p.placed(before),
        d.extends(ConvolutionPhase::after(before, n, total, channels)),
    ensures
        convolution_stands(p, d),
{
    reveal(DeviceView::extends);
    reveal(ConvolutionPhase::after);
    let a = ConvolutionPhase::after(before, n, total, channels);
    let l = before.layouts.len() as int;
    let q = before.pipelines.len() as int;
    let ps = ConvolutionPhase::pipelines(before.layouts.len());
    assert(a.layouts == before.layouts + phase_layouts());
    assert(a.pipelines == before.pipelines + ps);
    assert(phase_layouts().len() == 4 && ps.len() == 7);
    assert forall|i: int| 0 <= i < 4 implies d.layouts[l + i] == #[trigger] phase_layouts()[i] by {
        assert(a.layouts[l + i] == phase_layouts()[i]);
        assert(d.layouts.subrange(0, a.layouts.len() as int)[l + i] == a.layouts[l + i]);
    }
    assert forall|i: int| 0 <= i < 7 implies d.pipelines[q + i] == #[trigger] ps[i] by {
        assert(a.pipelines[q + i] == ps[i]);
        assert(d.pipelines.subrange(0, a.pipelines.len() as int)[q + i] == a.pipelines[q + i]);
    }
    assert(ps[0].entry == Entry::FftRow && ps[1].entry == Entry::FftCol);
    assert(ps[2].entry == Entry::IfftRow && ps[3].entry == Entry::IfftCol);
    assert(ps[4].entry == Entry::CopyToConv && ps[5].entry == Entry::ComplexMul);
    assert(d.layouts[l] == phase_layouts()[0]);
    assert(d.layouts[l + 1] == phase_layouts()[1]);
    assert(d.layouts[l + 2] == phase_layouts()[2]);
}

/// Where slot `i` of complex numbers starts, on a grid of `total` cells.
pub open spec fn complex_slot(i: int, total: int) -> u64 {
    (i * total * 8) as u64
}

/// Different slots start at different places.
proof fn lemma_slots_differ(n: int, total: int)
    requires
        total > 0,
        n * total * 8 <= u64::MAX,
    ensures
        forall|i: int, j: int|
            0 <= i < j < n ==> #[trigger] complex_slot(i, total) != #[trigger] complex_slot(
                j,
                total,
            ),
{
    assert forall|i: int, j: int| 0 <= i < j < n implies #[trigger] complex_slot(i, total)
        != #[trigger] complex_slot(j, total) by {
        assert(0 <= i * total && i * total < j * total && j * total < n * total)
            by (nonlinear_arith)
            requires
                0 <= i < j < n,
                total > 0,
        ;
    }
}

/// Whether the buffers of the phase, the masses and the kernels are different buffers.
pub open spec fn buffers_differ(p: ConvolutionPhase, channel: usize, kernel: usize) -> bool {
    let s = p.spectrum_buffer;
    let c = p.conv_buffer;
    &&& s != c
    &&& s != channel && s != kernel && s != p.twiddle_buffer && s != p.bitrev_buffer
    &&& s != p.fft_params_buffer && s != p.inv_fft_params_buffer
    &&& c != channel && c != kernel && c != p.twiddle_buffer && c != p.bitrev_buffer
    &&& c != p.fft_params_buffer && c != p.inv_fft_params_buffer
}

/// A transform of a slot in two passes, by the tables and parameters of `st`.
pub open spec fn two_passes(
    p: ConvolutionPhase,
    st: spec_fn(usize, u64) -> Term,
    first: Entry,
    second: Entry,
    params: usize,
    x: Term,
) -> Term {
    let one = Term::Made {
        entry: first,
        slot: 0,
        from: seq![x, st(p.twiddle_buffer, 0), st(params, 0), st(p.bitrev_buffer, 0)],
    };
    Term::Made {
        entry: second,
        slot: 0,
        from: seq![one, st(p.twiddle_buffer, 0), st(params, 0), st(p.bitrev_buffer, 0)],
    }
}

/// Channels are copied into the slots of the spectra.
proof fn lemma_copies(
    p: ConvolutionPhase,
    d: DeviceView,
    work: usize,
    st: spec_fn(usize, u64) -> Term,
    channel: usize,
    g: int,
    n: nat,
    total: int,
    wg: u32,
)
    requires
        convolution_stands(p, d),
        p.spectrum_buffer != channel,
        total > 0,
        n * total * 8 <= u64::MAX,
        0 <= g,
        g + n <= usize::MAX,
        forall|c: int| 0 <= c < n ==> #[trigger] d.groups[g + c] == p.copy_step(channel, total, c),
    ensures
        ({
            let after = after_commands(
                d,
                work,
                st,
                ConvolutionPhase::dispatches(p.copy_to_conv_pipeline, g, n, wg),
            );
            &&& forall|c: int|
                0 <= c < n ==> after(p.spectrum_buffer, #[trigger] complex_slot(c, total)) == (
                Term::Made {
                    entry: Entry::CopyToConv,
                    slot: 1,
                    from: seq![st(channel, (c * total * 4) as u64), Term::Nothing],
                })
            &&& forall|b: usize, o: u64|
                b != p.spectrum_buffer ==> #[trigger] after(b, o) == st(b, o)
        }),
{
    reveal_with_fuel(written_slot, 6);
    let f = |i: int|
        seq![
            Command::Dispatch {
                pipeline: p.copy_to_conv_pipeline,
                group: (g + i) as usize,
                workgroups: wg,
            },
        ];
    let slot = |i: int| complex_slot(i, total);
    let t = |i: int, s: spec_fn(usize, u64) -> Term|
        Term::Made {
            entry: Entry::CopyToConv,
            slot: 1,
            from: seq![s(channel, (i * total * 4) as u64), Term::Nothing],
        };
    assert forall|i: int, s: spec_fn(usize, u64) -> Term, b: usize, o: u64| 0 <= i < n implies
        #[trigger] after_commands(d, work, s, f(i))(b, o) == (if b == p.spectrum_buffer && o
        == slot(i) {
        t(i, s)
    } else {
        s(b, o)
    }) by {
        lemma_single(d, work, s, f(i)[0]);
        assert(f(i) =~= seq![f(i)[0]]);
        let e = d.groups[g + i].entries;
        assert(d.groups[g + i] == p.copy_step(channel, total, i));
        assert(read_by(s, Entry::CopyToConv, phase_layouts()[1], e) =~= t(i, s)->from);
    }
    lemma_slots_differ(n as int, total);
    assert forall|i: int, j: int| 0 <= i < j < n implies #[trigger] slot(i) != #[trigger] slot(
        j,
    ) by {
        assert(complex_slot(i, total) != complex_slot(j, total));
    }
    lemma_blocks(d, work, st, f, n, p.spectrum_buffer, slot, t);
    lemma_dispatches(p.copy_to_conv_pipeline, g, n, wg, f);
    let after = after_commands(d, work, st, blocks(f, n));
    assert forall|c: int| 0 <= c < n implies after(
        p.spectrum_buffer,
        #[trigger] complex_slot(c, total),
    ) == t(c, st) by {
        assert(after(p.spectrum_buffer, slot(c)) == t(c, st));
    }
}

/// One command.
proof fn lemma_single(
    d: DeviceView,
    work: usize,
    st: spec_fn(usize, u64) -> Term,
    c: Command,
)
    ensures
        after_commands(d, work, st, seq![c]) == after_command(d, work, st, c),
{
    let none = Seq::<Command>::empty();
    lemma_one_more(d, work, st, none, c);
    assert(none.push(c) =~= seq![c]);
    assert(after_commands(d, work, st, none) == st);
}

/// Dispatches are blocks of one.
proof fn lemma_dispatches(
    pipeline: usize,
    g: int,
    n: nat,
    wg: u32,
    f: spec_fn(int) -> Seq<Command>,
)
    requires
        forall|i: int|
            0 <= i < n ==> #[trigger] f(i) == seq![
                Command::Dispatch { pipeline, group: (g + i) as usize, workgroups: wg },
            ],
    ensures
        ConvolutionPhase::dispatches(pipeline, g, n, wg) == blocks(f, n),
    decreases n,
{
    let all = ConvolutionPhase::dispatches(pipeline, g, n, wg);
    if n > 0 {
        let m = (n - 1) as nat;
        lemma_dispatches(pipeline, g, m, wg, f);
        assert(all =~= ConvolutionPhase::dispatches(pipeline, g, m, wg) + f(n - 1));
    } else {
        assert(all =~= blocks(f, 0));
    }
}

/// Double dispatches are blocks of two.
proof fn lemma_double_dispatches(
    first: usize,
    second: usize,
    g: int,
    n: nat,
    wg: u32,
    f: spec_fn(int) -> Seq<Command>,
)
    requires
        forall|i: int|
            0 <= i < n ==> #[trigger] f(i) == seq![
                Command::Dispatch { pipeline: first, group: (g + i) as usize, workgroups: wg },
                Command::Dispatch { pipeline: second, group: (g + i) as usize, workgroups: wg },
            ],
    ensures
        ConvolutionPhase::double_dispatches(first, second, g, n, wg) == blocks(f, n),
    decreases n,
{
    let all = ConvolutionPhase::double_dispatches(first, second, g, n, wg);
    if n > 0 {
        let m = (n - 1) as nat;
        lemma_double_dispatches(first, second, g, m, wg, f);
        let i = 2 * m;
        assert(i % 2 == 0 && i / 2 == m && (i + 1) % 2 == 1 && (i + 1) / 2 == m);
        assert(all =~= ConvolutionPhase::double_dispatches(first, second, g, m, wg) + f(n - 1));
    } else {
        assert(all =~= blocks(f, 0));
    }
}

/// Slots are transformed, each in two passes.
proof fn lemma_transforms(
    p: ConvolutionPhase,
    d: DeviceView,
    work: usize,
    st: spec_fn(usize, u64) -> Term,
    data: usize,
    params: usize,
    first: usize,
    second: usize,
    one: Entry,
    two: Entry,
    g: int,
    n: nat,
    total: int,
    wg: u32,
)
    requires
        d.layouts[p.fft_bgl as int] == phase_layouts()[0],
        d.pipelines[first as int] == (PipelineDesc { layout: p.fft_bgl, entry: one }),
        d.pipelines[second as int] == (PipelineDesc { layout: p.fft_bgl, entry: two }),
        one == Entry::FftRow || one == Entry::IfftCol,
        two == Entry::FftCol || two == Entry::IfftRow,
        data != p.twiddle_buffer && data != p.bitrev_buffer && data != params,
        total > 0,
        n * total * 8 <= u64::MAX,
        0 <= g,
        g + n <= usize::MAX,
        forall|i: int|
            0 <= i < n ==> #[trigger] d.groups[g + i] == p.fft_step(data, total, params, i),
    ensures
        ({
            let after = after_commands(
                d,
                work,
                st,
                ConvolutionPhase::double_dispatches(first, second, g, n, wg),
            );
            &&& forall|i: int|
                0 <= i < n ==> after(data, #[trigger] complex_slot(i, total)) == two_passes(
                    p,
                    st,
                    one,
                    two,
                    params,
                    st(data, complex_slot(i, total)),
                )
            &&& forall|b: usize, o: u64| b != data ==> #[trigger] after(b, o) == st(b, o)
        }),
{
    reveal_with_fuel(written_slot, 6);
    let f = |i: int|
        seq![
            Command::Dispatch { pipeline: first, group: (g + i) as usize, workgroups: wg },
            Command::Dispatch { pipeline: second, group: (g + i) as usize, workgroups: wg },
        ];
    let slot = |i: int| complex_slot(i, total);
    let t = |i: int, s: spec_fn(usize, u64) -> Term|
        two_passes(p, s, one, two, params, s(data, complex_slot(i, total)));
    assert forall|i: int, s: spec_fn(usize, u64) -> Term, b: usize, o: u64| 0 <= i < n implies
        #[trigger] after_commands(d, work, s, f(i))(b, o) == (if b == data && o == slot(i) {
        t(i, s)
    } else {
        s(b, o)
    }) by {
        let c1 = f(i)[0];
        let c2 = f(i)[1];
        lemma_single(d, work, s, c1);
        lemma_one_more(d, work, s, seq![c1], c2);
        assert(f(i) =~= seq![c1].push(c2));
        let e = d.groups[g + i].entries;
        assert(d.groups[g + i] == p.fft_step(data, total, params, i));
        let l = phase_layouts()[0];
        let x = s(data, complex_slot(i, total));
        let half = Term::Made {
            entry: one,
            slot: 0,
            from: seq![x, s(p.twiddle_buffer, 0), s(params, 0), s(p.bitrev_buffer, 0)],
        };
        assert(read_by(s, one, l, e) =~= half->from);
        let mid = after_commands(d, work, s, seq![c1]);
        assert(mid(data, slot(i)) == half);
        assert forall|b: usize, o: u64| b != data || o != slot(i) implies #[trigger] mid(b, o) == s(
            b,
            o,
        ) by {}
        assert(read_by(mid, two, l, e) =~= t(i, s)->from);
    }
    lemma_slots_differ(n as int, total);
    assert forall|i: int, j: int| 0 <= i < j < n implies #[trigger] slot(i) != #[trigger] slot(
        j,
    ) by {
        assert(complex_slot(i, total) != complex_slot(j, total));
    }
    assert forall|i: int, s: spec_fn(usize, u64) -> Term|
        0 <= i < n && s(data, slot(i)) == st(data, slot(i)) && (forall|b: usize, o: u64|
            b != data ==> #[trigger] s(b, o) == st(b, o)) implies #[trigger] t(i, s) == t(
        i,
        st,
    ) by {
        assert(s(p.twiddle_buffer, 0) == st(p.twiddle_buffer, 0));
        assert(s(params, 0) == st(params, 0));
        assert(s(p.bitrev_buffer, 0) == st(p.bitrev_buffer, 0));
    }
    lemma_blocks(d, work, st, f, n, data, slot, t);
    lemma_double_dispatches(first, second, g, n, wg, f);
    let after = after_commands(d, work, st, blocks(f, n));
    assert forall|i: int| 0 <= i < n implies after(data, #[trigger] complex_slot(i, total)) == t(
        i,
        st,
    ) by {
        assert(after(data, slot(i)) == t(i, st));
    }
}

/// Spectra are brought into the slots of the kernels.
proof fn lemma_routes(
    p: ConvolutionPhase,
    d: DeviceView,
    work: usize,
    st: spec_fn(usize, u64) -> Term,
    c0: Seq<u32>,
    n: nat,
    total: int,
)
    requires
        p.spectrum_buffer != p.conv_buffer,
        total > 0,
        n * total * 8 <= u64::MAX,
    ensures
        ({
            let after = after_commands(d, work, st, p.route_commands(c0, n, total));
            &&& forall|k: int|
                0 <= k < n ==> after(p.conv_buffer, #[trigger] complex_slot(k, total)) == st(
                    p.spectrum_buffer,
                    complex_slot(c0[k] as int, total),
                )
            &&& forall|b: usize, o: u64| b != p.conv_buffer ==> #[trigger] after(b, o) == st(b, o)
        }),
{
    let f = |k: int|
        seq![
            Command::Copy {
                src: p.spectrum_buffer,
                src_offset: (c0[k] * total * 8) as u64,
                dst: p.conv_buffer,
                dst_offset: (k * total * 8) as u64,
                size: (total * 8) as u64,
            },
        ];
    let slot = |i: int| complex_slot(i, total);
    let t = |i: int, s: spec_fn(usize, u64) -> Term|
        s(p.spectrum_buffer, complex_slot(c0[i] as int, total));
    assert forall|i: int, s: spec_fn(usize, u64) -> Term, b: usize, o: u64| 0 <= i < n implies
        #[trigger] after_commands(d, work, s, f(i))(b, o) == (if b == p.conv_buffer && o == slot(
        i,
    ) {
        t(i, s)
    } else {
        s(b, o)
    }) by {
        lemma_single(d, work, s, f(i)[0]);
        assert(f(i) =~= seq![f(i)[0]]);
    }
    lemma_slots_differ(n as int, total);
    assert forall|i: int, j: int| 0 <= i < j < n implies #[trigger] slot(i) != #[trigger] slot(
        j,
    ) by {
        assert(complex_slot(i, total) != complex_slot(j, total));
    }
    lemma_blocks(d, work, st, f, n, p.conv_buffer, slot, t);
    lemma_route_blocks(p, c0, n, total, f);
    let after = after_commands(d, work, st, blocks(f, n));
    assert forall|k: int| 0 <= k < n implies after(
        p.conv_buffer,
        #[trigger] complex_slot(k, total),
    ) == t(k, st) by {
        assert(after(p.conv_buffer, slot(k)) == t(k, st));
    }
}

/// Routes are blocks of one.
proof fn lemma_route_blocks(
    p: ConvolutionPhase,
    c0: Seq<u32>,
    n: nat,
    total: int,
    f: spec_fn(int) -> Seq<Command>,
)
    requires
        forall|k: int|
            0 <= k < n ==> #[trigger] f(k) == seq![
                Command::Copy {
                    src: p.spectrum_buffer,
                    src_offset: (c0[k] * total * 8) as u64,
                    dst: p.conv_buffer,
                    dst_offset: (k * total * 8) as u64,
                    size: (total * 8) as u64,
                },
            ],
    ensures
        p.route_commands(c0, n, total) == blocks(f, n),
    decreases n,
{
    let all = p.route_commands(c0, n, total);
    if n > 0 {
        let m = (n - 1) as nat;
        lemma_route_blocks(p, c0, m, total, f);
        assert(all =~= p.route_commands(c0, m, total) + f(n - 1));
    } else {
        assert(all =~= blocks(f, 0));
    }
}

/// Slots are multiplied with their kernels.
proof fn lemma_products(
    p: ConvolutionPhase,
    d: DeviceView,
    work: usize,
    st: spec_fn(usize, u64) -> Term,
    kernel: usize,
    g: int,
    n: nat,
    total: int,
    wg: u32,
)
    requires
        convolution_stands(p, d),
        p.conv_buffer != kernel,
        total > 0,
        n * total * 8 <= u64::MAX,
        0 <= g,
        g + n <= usize::MAX,
        forall|k: int| 0 <= k < n ==> #[trigger] d.groups[g + k] == p.cmul_step(kernel, total, k),
    ensures
        ({
            let after = after_commands(
                d,
                work,
                st,
                ConvolutionPhase::dispatches(p.complex_mul_pipeline, g, n, wg),
            );
            &&& forall|k: int|
                0 <= k < n ==> after(p.conv_buffer, #[trigger] complex_slot(k, total)) == (
                Term::Made {
                    entry: Entry::ComplexMul,
                    slot: 0,
                    from: seq![
                        st(p.conv_buffer, complex_slot(k, total)),
                        st(kernel, complex_slot(k, total)),
                    ],
                })
            &&& forall|b: usize, o: u64| b != p.conv_buffer ==> #[trigger] after(b, o) == st(b, o)
        }),
{
    reveal_with_fuel(written_slot, 6);
    let f = |i: int|
        seq![
            Command::Dispatch {
                pipeline: p.complex_mul_pipeline,
                group: (g + i) as usize,
                workgroups: wg,
            },
        ];
    let slot = |i: int| complex_slot(i, total);
    let t = |i: int, s: spec_fn(usize, u64) -> Term|
        Term::Made {
            entry: Entry::ComplexMul,
            slot: 0,
            from: seq![
                s(p.conv_buffer, complex_slot(i, total)),
                s(kernel, complex_slot(i, total)),
            ],
        };
    assert forall|i: int, s: spec_fn(usize, u64) -> Term, b: usize, o: u64| 0 <= i < n implies
        #[trigger] after_commands(d, work, s, f(i))(b, o) == (if b == p.conv_buffer && o == slot(
        i,
    ) {
        t(i, s)
    } else {
        s(b, o)
    }) by {
        lemma_single(d, work, s, f(i)[0]);
        assert(f(i) =~= seq![f(i)[0]]);
        let e = d.groups[g + i].entries;
        assert(d.groups[g + i] == p.cmul_step(kernel, total, i));
        assert(read_by(s, Entry::ComplexMul, phase_layouts()[2], e) =~= t(i, s)->from);
    }
    lemma_slots_differ(n as int, total);
    assert forall|i: int, j: int| 0 <= i < j < n implies #[trigger] slot(i) != #[trigger] slot(
        j,
    ) by {
        assert(complex_slot(i, total) != complex_slot(j, total));
    }
    assert forall|i: int, s: spec_fn(usize, u64) -> Term|
        0 <= i < n && s(p.conv_buffer, slot(i)) == st(p.conv_buffer, slot(i)) && (forall|
            b: usize,
            o: u64,
        |
            b != p.conv_buffer ==> #[trigger] s(b, o) == st(b, o)) implies #[trigger] t(i, s) == t(
        i,
        st,
    ) by {
        assert(s(kernel, complex_slot(i, total)) == st(kernel, complex_slot(i, total)));
    }
    lemma_blocks(d, work, st, f, n, p.conv_buffer, slot, t);
    lemma_dispatches(p.complex_mul_pipeline, g, n, wg, f);
    let after = after_commands(d, work, st, blocks(f, n));
    assert forall|k: int| 0 <= k < n implies after(
        p.conv_buffer,
        #[trigger] complex_slot(k, total),
    ) == t(k, st) by {
        assert(after(p.conv_buffer, slot(k)) == t(k, st));
    }
}

/// The convolution phase of a step: the slot of every kernel gets the channel that the kernel
/// reads, copied and transformed row by row and column by column, times the kernel, transformed
/// back column by column and row by row. Masses, kernels and tables stay as they were. `st` says
/// what buffers hold before.
pub proof fn law_every_kernel_is_convolved_with_its_channel(
    p: ConvolutionPhase,
    d: DeviceView,
    st: spec_fn(usize, u64) -> Term,
    channel: usize,
    kernel: usize,
    g: int,
    c0: Seq<u32>,
    num_kernels: nat,
    num_channels: nat,
    total: int,
    width: u32,
    k: int,
)
    requires
        convolution_stands(p, d),
        buffers_differ(p, channel, kernel),
        total > 0,
        num_kernels * total * 8 <= u64::MAX,
        num_channels * total * 8 <= u64::MAX,
        0 <= g,
        g + 2 * num_channels + 2 * num_kernels <= usize::MAX,
        forall|i: int|
            0 <= i < 2 * num_channels + 2 * num_kernels ==> #[trigger] d.groups[g + i]
                == p.run_groups(channel, kernel, num_kernels, num_channels, total)[i],
        0 <= k < num_kernels,
        c0[k] < num_channels,
    ensures
        ({
            let after = after_commands(
                d,
                p.conv_buffer,
                st,
                p.commands(g, c0, num_kernels, num_channels, total, width),
            );
            let copied = Term::Made {
                entry: Entry::CopyToConv,
                slot: 1,
                from: seq![st(channel, (c0[k] * total * 4) as u64), Term::Nothing],
            };
            let spectrum = two_passes(
                p,
                st,
                Entry::FftRow,
                Entry::FftCol,
                p.fft_params_buffer,
                copied,
            );
            let product = Term::Made {
                entry: Entry::ComplexMul,
                slot: 0,
                from: seq![spectrum, st(kernel, (k * total * 8) as u64)],
            };
            &&& after(p.conv_buffer, (k * total * 8) as u64) == two_passes(
                p,
                st,
                Entry::IfftCol,
                Entry::IfftRow,
                p.inv_fft_params_buffer,
                product,
            )
            &&& forall|b: usize, o: u64|
                b != p.conv_buffer && b != p.spectrum_buffer ==> #[trigger] after(b, o) == st(b, o)
        }),
{
    let work = p.conv_buffer;
    let groups = p.run_groups(channel, kernel, num_kernels, num_channels, total);
    let n = num_channels as int;
    let m = num_kernels as int;
    assert forall|c: int| 0 <= c < n implies #[trigger] d.groups[g + c] == p.copy_step(
        channel,
        total,
        c,
    ) by {
        assert(groups[c] == p.copy_step(channel, total, c));
    }
    assert forall|c: int| 0 <= c < n implies #[trigger] d.groups[(g + n) + c] == p.fft_step(
        p.spectrum_buffer,
        total,
        p.fft_params_buffer,
        c,
    ) by {
        assert(d.groups[g + (n + c)] == groups[n + c]);
    }
    assert forall|i: int| 0 <= i < m implies #[trigger] d.groups[(g + 2 * n) + i] == p.cmul_step(
        kernel,
        total,
        i,
    ) by {
        assert(d.groups[g + (2 * n + i)] == groups[2 * n + i]);
    }
    assert forall|i: int| 0 <= i < m implies #[trigger] d.groups[(g + 2 * n + m) + i]
        == p.fft_step(p.conv_buffer, total, p.inv_fft_params_buffer, i) by {
        assert(d.groups[g + (2 * n + m + i)] == groups[2 * n + m + i]);
    }
    let wg = workgroups(total);
    let a = ConvolutionPhase::dispatches(p.copy_to_conv_pipeline, g, num_channels, wg);
    let b = ConvolutionPhase::double_dispatches(
        p.fft_row_pipeline,
        p.fft_col_pipeline,
        g + n,
        num_channels,
        width,
    );
    let c = p.route_commands(c0, num_kernels, total);
    let e = ConvolutionPhase::dispatches(p.complex_mul_pipeline, g + 2 * n, num_kernels, wg);
    let f = ConvolutionPhase::double_dispatches(
        p.ifft_col_pipeline,
        p.ifft_row_pipeline,
        g + 2 * n + m,
        num_kernels,
        width,
    );
    assert(p.commands(g, c0, num_kernels, num_channels, total, width) == a + b + c + e + f);
    lemma_some_more(d, work, st, a, b);
    lemma_some_more(d, work, st, a + b, c);
    lemma_some_more(d, work, st, a + b + c, e);
    lemma_some_more(d, work, st, a + b + c + e, f);
    let s1 = after_commands(d, work, st, a);
    let s2 = after_commands(d, work, s1, b);
    let s3 = after_commands(d, work, s2, c);
    let s4 = after_commands(d, work, s3, e);
    let s5 = after_commands(d, work, s4, f);
    lemma_copies(p, d, work, st, channel, g, num_channels, total, wg);
    lemma_transforms(
        p,
        d,
        work,
        s1,
        p.spectrum_buffer,
        p.fft_params_buffer,
        p.fft_row_pipeline,
        p.fft_col_pipeline,
        Entry::FftRow,
        Entry::FftCol,
        g + n,
        num_channels,
        total,
        width,
    );
    lemma_routes(p, d, work, s2, c0, num_kernels, total);
    lemma_products(p, d, work, s3, kernel, g + 2 * n, num_kernels, total, wg);
    lemma_transforms(
        p,
        d,
        work,
        s4,
        p.conv_buffer,
        p.inv_fft_params_buffer,
        p.ifft_col_pipeline,
        p.ifft_row_pipeline,
        Entry::IfftCol,
        Entry::IfftRow,
        g + 2 * n + m,
        num_kernels,
        total,
        width,
    );
    let i = c0[k] as int;
    assert(complex_slot(k, total) == (k * total * 8) as u64);
    assert(s1(p.spectrum_buffer, complex_slot(i, total)) == (Term::Made {
        entry: Entry::CopyToConv,
        slot: 1,
        from: seq![st(channel, (i * total * 4) as u64), Term::Nothing],
    }));
    assert(s1(p.twiddle_buffer, 0) == st(p.twiddle_buffer, 0));
    assert(s1(p.bitrev_buffer, 0) == st(p.bitrev_buffer, 0));
    assert(s1(p.fft_params_buffer, 0) == st(p.fft_params_buffer, 0));
    assert(s3(p.conv_buffer, complex_slot(k, total)) == s2(
        p.spectrum_buffer,
        complex_slot(i, total),
    ));
    assert(s3(kernel, complex_slot(k, total)) == s2(kernel, complex_slot(k, total)));
    assert(s2(kernel, complex_slot(k, total)) == s1(kernel, complex_slot(k, total)));
    assert(s1(kernel, complex_slot(k, total)) == st(kernel, complex_slot(k, total)));
    assert forall|x: usize, o: u64| x != p.conv_buffer && x != p.spectrum_buffer implies
        #[trigger] s4(x, o) == st(x, o) by {
        assert(s3(x, o) == s2(x, o));
        assert(s2(x, o) == s1(x, o));
        assert(s1(x, o) == st(x, o));
    }
    assert(s4(p.twiddle_buffer, 0) == st(p.twiddle_buffer, 0));
    assert(s4(p.bitrev_buffer, 0) == st(p.bitrev_buffer, 0));
    assert(s4(p.inv_fft_params_buffer, 0) == st(p.inv_fft_params_buffer, 0));
}

/// Whether a simulation is the one that was set up on a device.
pub open spec fn set_up(sim: GpuMaceLenia, before: DeviceView) -> bool {
    let e = sim.extent();
    let b = before.buffers.len();
    let conv = e.with_convolution(before);
    let grown = e.with_growth(before);
    &&& sim.channel_buffer == b
    &&& sim.new_channel_buffer == b + 1
    &&& sim.affinity_buffer == b + 2
    &&& sim.z_buffer == b + 3
    &&& sim.kernel_buffer == b + 4
    &&& sim.convolution.conv_buffer == b + 5
    &&& sim.convolution.placed(e.with_buffers(before))
    &&& sim.growth.pipeline == conv.pipelines.len()
    &&& sim.growth.bind_group == conv.groups.len()
    &&& sim.growth.growth_params_buffer == conv.buffers.len()
    &&& sim.growth.weights_buffer == conv.buffers.len() + 1
    &&& sim.growth.c1_buffer == conv.buffers.len() + 2
    &&& sim.growth.params_buffer == conv.buffers.len() + 3
    &&& sim.diffusion.pass1_pipeline == grown.pipelines.len()
    &&& sim.diffusion.pass2_pipeline == grown.pipelines.len() + 1
    &&& sim.diffusion.pass1_bg == grown.groups.len()
    &&& sim.diffusion.pass2_bg == grown.groups.len() + 1
}

/// The rest of a step: the affinity of every cell is the growth of its potentials, by the bumps,
/// the weights and the targets of the kernels; a first pass works on the affinities and gathers
/// them around each cell, a second hands the old mass on by both; the result becomes the mass.
/// `st` says what buffers hold before.
pub proof fn law_mass_is_handed_on_by_growth(
    sim: GpuMaceLenia,
    before: DeviceView,
    d: DeviceView,
    st: spec_fn(usize, u64) -> Term,
)
    requires
        set_up(sim, before),
        d.extends(sim.extent().with_all(before)),
        d.buffers.len() <= usize::MAX,
        d.layouts.len() <= usize::MAX,
        d.pipelines.len() <= usize::MAX,
        d.groups.len() <= usize::MAX,
    ensures
        ({
            let total = sim.total_elements as int;
            let grown = Term::Made {
                entry: Entry::MclGrowth,
                slot: 1,
                from: seq![
                    st(sim.convolution.conv_buffer, 0),
                    Term::Nothing,
                    st(sim.growth.growth_params_buffer, 0),
                    st(sim.growth.weights_buffer, 0),
                    st(sim.growth.c1_buffer, 0),
                    st(sim.growth.params_buffer, 0),
                ],
            };
            let params = sim.extent().with_growth(before).buffers.len() as usize;
            let pass1 = |slot: int|
                Term::Made {
                    entry: Entry::DiffusionPass1,
                    slot,
                    from: seq![grown, Term::Nothing, st(params, 0)],
                };
            let after = after_commands(
                d,
                sim.convolution.conv_buffer,
                st,
                sim.growth.commands(total) + sim.diffusion.commands(total) + sim.copy_commands(),
            );
            after(sim.channel_buffer, 0) == (Term::Made {
                entry: Entry::DiffusionPass2,
                slot: 4,
                from: seq![
                    pass1(0),
                    pass1(1),
                    st(params, 0),
                    st(sim.channel_buffer, 0),
                    Term::Nothing,
                ],
            })
        }),
{
    reveal_with_fuel(written_slot, 7);
    reveal(DeviceView::extends);
    reveal(ConvolutionPhase::after);
    reveal(GrowthPhase::after);
    reveal(DiffusionPhase::after);
    let e = sim.extent();
    let b = before.buffers.len() as int;
    let conv = e.with_convolution(before);
    let grown = e.with_growth(before);
    let all = e.with_all(before);
    let work = sim.convolution.conv_buffer;
    let total = sim.total_elements as int;
    assert(e.shared_buffers().len() == 6);
    assert(e.with_buffers(before).buffers.len() == b + 6);
    assert(conv.buffers.len() == b + 11);
    assert(grown.buffers.len() == b + 15);
    assert(all.buffers.len() == b + 16);
    assert(grown.layouts.len() == conv.layouts.len() + 1);
    assert(grown.pipelines.len() == conv.pipelines.len() + 1);
    assert(grown.groups.len() == conv.groups.len() + 1);
    assert(all.layouts.len() == grown.layouts.len() + 2);
    assert(all.pipelines.len() == grown.pipelines.len() + 2);
    assert(all.groups.len() == grown.groups.len() + 2);
    let cp = conv.pipelines.len() as int;
    let cl = conv.layouts.len() as int;
    let cg = conv.groups.len() as int;
    assert(d.pipelines.subrange(0, all.pipelines.len() as int) =~= all.pipelines);
    assert(d.layouts.subrange(0, all.layouts.len() as int) =~= all.layouts);
    assert(d.groups.subrange(0, all.groups.len() as int) =~= all.groups);
    assert(d.pipelines[cp] == all.pipelines[cp] && all.pipelines[cp] == grown.pipelines[cp]) by {
        assert(d.pipelines.subrange(0, all.pipelines.len() as int)[cp] == all.pipelines[cp]);
    }
    assert(d.layouts[cl] == GrowthPhase::layout()) by {
        assert(d.layouts.subrange(0, all.layouts.len() as int)[cl] == all.layouts[cl]);
    }
    assert(d.groups[cg] == grown.groups[cg]) by {
        assert(d.groups.subrange(0, all.groups.len() as int)[cg] == all.groups[cg]);
    }
    let gp = grown.pipelines.len() as int;
    let gl = grown.layouts.len() as int;
    let gg = grown.groups.len() as int;
    assert(d.pipelines[gp] == all.pipelines[gp] && d.pipelines[gp + 1] == all.pipelines[gp + 1])
        by {
        assert(d.pipelines.subrange(0, all.pipelines.len() as int)[gp] == all.pipelines[gp]);
        assert(d.pipelines.subrange(0, all.pipelines.len() as int)[gp + 1] == all.pipelines[gp
            + 1]);
    }
    assert(d.layouts[gl] == DiffusionPhase::layouts()[0] && d.layouts[gl + 1]
        == DiffusionPhase::layouts()[1]) by {
        assert(d.layouts.subrange(0, all.layouts.len() as int)[gl] == all.layouts[gl]);
        assert(d.layouts.subrange(0, all.layouts.len() as int)[gl + 1] == all.layouts[gl + 1]);
    }
    assert(d.groups[gg] == all.groups[gg] && d.groups[gg + 1] == all.groups[gg + 1]) by {
        assert(d.groups.subrange(0, all.groups.len() as int)[gg] == all.groups[gg]);
        assert(d.groups.subrange(0, all.groups.len() as int)[gg + 1] == all.groups[gg + 1]);
    }
    let c1 = sim.growth.commands(total)[0];
    let c2 = sim.diffusion.commands(total)[0];
    let c3 = sim.diffusion.commands(total)[1];
    let c4 = sim.copy_commands()[0];
    let none = Seq::<Command>::empty();
    let q1 = none.push(c1);
    let q2 = q1.push(c2);
    let q3 = q2.push(c3);
    let q4 = q3.push(c4);
    assert(sim.growth.commands(total) + sim.diffusion.commands(total) + sim.copy_commands() =~= q4);
    lemma_one_more(d, work, st, none, c1);
    lemma_one_more(d, work, st, q1, c2);
    lemma_one_more(d, work, st, q2, c3);
    lemma_one_more(d, work, st, q3, c4);
    assert(after_commands(d, work, st, none) == st);
    let s1 = after_commands(d, work, st, q1);
    let s2 = after_commands(d, work, st, q2);
    let s3 = after_commands(d, work, st, q3);
    let affinity = sim.affinity_buffer;
    let z = sim.z_buffer;
    let params = grown.buffers.len() as usize;
    let growth = Term::Made {
        entry: Entry::MclGrowth,
        slot: 1,
        from: seq![
            st(work, 0),
            Term::Nothing,
            st(sim.growth.growth_params_buffer, 0),
            st(sim.growth.weights_buffer, 0),
            st(sim.growth.c1_buffer, 0),
            st(sim.growth.params_buffer, 0),
        ],
    };
    let eg = d.groups[cg].entries;
    assert(s1 == after_pass(d, st, sim.growth.pipeline, sim.growth.bind_group));
    assert(d.pipelines[cp].entry == Entry::MclGrowth && d.pipelines[cp].layout == cl);
    assert(read_by(st, Entry::MclGrowth, GrowthPhase::layout(), eg) =~= growth->from);
    assert(s1(affinity, 0) == growth);
    assert forall|x: usize, o: u64| x != affinity implies #[trigger] s1(x, o) == st(x, o) by {}
    let pass1 = |slot: int|
        Term::Made {
            entry: Entry::DiffusionPass1,
            slot,
            from: seq![growth, Term::Nothing, st(params, 0)],
        };
    let e1 = d.groups[gg].entries;
    assert(s2 == after_pass(d, s1, sim.diffusion.pass1_pipeline, sim.diffusion.pass1_bg));
    assert(d.pipelines[gp].entry == Entry::DiffusionPass1 && d.pipelines[gp].layout == gl);
    assert(read_by(s1, Entry::DiffusionPass1, DiffusionPhase::layouts()[0], e1) =~= pass1(
        0,
    )->from);
    assert(s2(affinity, 0) == pass1(0));
    assert(s2(z, 0) == pass1(1));
    assert forall|x: usize, o: u64| x != affinity && x != z implies #[trigger] s2(x, o) == st(
        x,
        o,
    ) by {
        assert(s1(x, o) == st(x, o));
    }
    let handed = Term::Made {
        entry: Entry::DiffusionPass2,
        slot: 4,
        from: seq![
            pass1(0),
            pass1(1),
            st(params, 0),
            st(sim.channel_buffer, 0),
            Term::Nothing,
        ],
    };
    let e2 = d.groups[gg + 1].entries;
    assert(s3 == after_pass(d, s2, sim.diffusion.pass2_pipeline, sim.diffusion.pass2_bg));
    assert(d.pipelines[gp + 1].entry == Entry::DiffusionPass2 && d.pipelines[gp + 1].layout == gl
        + 1);
    assert(read_by(s2, Entry::DiffusionPass2, DiffusionPhase::layouts()[1], e2) =~= handed->from);
    assert(s3(sim.new_channel_buffer, 0) == handed);
}

} // verus!
