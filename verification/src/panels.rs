//! The panels of processors, memory and accelerators.

use std::collections::VecDeque;

use vstd::arithmetic::power2::pow2;
use vstd::prelude::*;

use crate::bounds::cells;
use crate::cpu_rates::CpuRates;
use crate::hardware::named_numbers;
use crate::nearness::{
    a_bar_is_filled_by_the_share, in_units, lemma_rounded_near, near, small_numbers_are_exact,
};
use crate::number::{
    decimal, decimal_of, pad_left, pad_right, padded_left, padded_right, repeat, repeated,
};
use crate::rounding::{
    binary_of, fixed, fixed_of, rounded, single_fixed, single_fixed_of, whole, SINGLE,
};
use crate::screen::{
    add_blank, add_line, add_span, add_text, add_three, add_two, colored, colored_span, lines_in, raw,
    raw_of, raw_span, spans_in, text_line, Body, BodyView, Color, Panel, PanelView, Span, SpanView,
};
use crate::sysinfo_ext::ZramInfo;
use crate::text::{chars_of, push_all, push_str, string_of};
use crate::units::{count_text, format_number, human, human_bytes, percent, percent_of};
use crate::usage::{
    bar, bar_fits, bar_of, cells_of, filled_cells, render_sparkline, single_cells, sparkline,
};

verus! {

/// One hundred in single precision, the greatest value of a history.
pub const FULL: u32 = 0x42c8_0000;

/// A panel of lines.
pub open spec fn line_panel(
    title: Seq<char>,
    border: Color,
    lines: Seq<Seq<SpanView>>,
) -> PanelView {
    PanelView { title, border, body: BodyView::Lines(lines) }
}

/// The line that shows a history.
pub open spec fn history_line(label: Seq<char>, history: Seq<u32>, color: Color) -> Seq<SpanView> {
    seq![raw_span(label), colored_span(sparkline(history, FULL), color)]
}

fn add_history(lines: &mut Vec<Vec<Span>>, label: &str, history: &VecDeque<u32>, color: Color)
    ensures
        lines_in(final(lines)@) == lines_in(old(lines)@).push(
            history_line(label@, history@, color),
        ),
{
    let spark = render_sparkline(history, FULL);
    add_two(lines, raw(label), colored(spark.as_str(), color));
}

/// The frequency of a processor core, zero where none is known.
pub open spec fn frequency_of(freqs: Seq<u32>, i: int) -> u32 {
    if i < freqs.len() {
        freqs[i]
    } else {
        0
    }
}

/// The line of a processor core.
pub open spec fn core_line(i: int, usage: u32, freq: u32) -> Seq<SpanView> {
    seq![
        raw_span("CPU "@ + decimal(i as nat) + " "@),
        colored_span(bar(single_cells(usage, 35)->0, 35), Color::Cyan),
        raw_span(
            " "@ + padded_left(single_fixed(usage, 0), ' ', 3) + "% "@ + padded_left(
                decimal(freq as nat),
                ' ',
                4,
            ) + " MHz"@,
        ),
    ]
}

/// The lines of the first `n` processor cores.
pub open spec fn core_lines(usages: Seq<u32>, freqs: Seq<u32>, n: nat) -> Seq<Seq<SpanView>> {
    Seq::new(n, |i: int| core_line(i, usages[i], frequency_of(freqs, i)))
}

/// Frequency ranges, with commas between them.
pub open spec fn ranges_text(ranges: Seq<(u32, u32)>) -> Seq<char>
    decreases ranges.len(),
{
    if ranges.len() == 0 {
        Seq::empty()
    } else {
        let (low, high) = ranges.last();
        let text = decimal(low as nat) + "-"@ + decimal(high as nat) + " MHz"@;
        if ranges.len() == 1 {
            text
        } else {
            ranges_text(ranges.drop_last()) + ", "@ + text
        }
    }
}

/// How the time of the processors is shared.
pub open spec fn shares_text(cpu: CpuRates) -> Seq<char> {
    "User: "@ + fixed(cpu.user_pct@, 1) + "%  System: "@ + fixed(cpu.system_pct@, 1)
        + "%  IOWait: "@ + fixed(cpu.iowait_pct@, 1) + "%  Idle: "@ + fixed(cpu.idle_pct@, 1)
        + "%"@
}

/// The lines of the panel of processors.
pub open spec fn cpu_lines(
    total: u32,
    usages: Seq<u32>,
    freqs: Seq<u32>,
    cpu: CpuRates,
    history: Seq<u32>,
    ranges: Seq<(u32, u32)>,
) -> Seq<Seq<SpanView>> {
    let head = seq![text_line("Total CPU: "@ + single_fixed(total, 1) + "%"@)];
    let past = if history.len() > 0 {
        seq![history_line("History:   "@, history, Color::Cyan)]
    } else {
        Seq::empty()
    };
    let shares = seq![Seq::<SpanView>::empty(), text_line(shares_text(cpu))];
    let clusters = if ranges.len() > 0 {
        seq![text_line("Freq ranges: "@ + ranges_text(ranges))]
    } else {
        Seq::empty()
    };
    let counts = seq![
        Seq::<SpanView>::empty(),
        text_line(
            "Running: "@ + decimal(cpu.running_procs as nat) + "  Blocked: "@ + decimal(
                cpu.blocked_procs as nat,
            ),
        ),
        text_line("Ctx switches: "@ + count_text(cpu.ctx_switches_rate as nat) + "/s"@),
        text_line("Interrupts:   "@ + count_text(cpu.interrupts_rate as nat) + "/s"@),
        text_line("Softirqs:     "@ + count_text(cpu.softirqs_rate as nat) + "/s"@),
    ];
    head + past + core_lines(usages, freqs, usages.len()) + shares + clusters + counts
}

fn ranges_text_of(ranges: &Vec<(u32, u32)>) -> (out: Vec<char>)
    ensures
        out@ == ranges_text(ranges@),
{
    let mut out: Vec<char> = Vec::new();
    let mut i: usize = 0;
    assert(ranges@.take(0) =~= Seq::empty());
    while i < ranges.len()
        invariant
            i <= ranges@.len(),
            out@ == ranges_text(ranges@.take(i as int)),
        decreases ranges.len() - i,
    {
        let ghost before = out@;
        assert(ranges@.take(i + 1).drop_last() =~= ranges@.take(i as int));
        if i > 0 {
            push_str(&mut out, ", ");
        }
        let low = decimal_of(ranges[i].0 as u128);
        let high = decimal_of(ranges[i].1 as u128);
        push_all(&mut out, low.as_slice());
        push_str(&mut out, "-");
        push_all(&mut out, high.as_slice());
        push_str(&mut out, " MHz");
        i += 1;
        assert(out@ =~= ranges_text(ranges@.take(i as int)));
    }
    assert(ranges@.take(i as int) =~= ranges@);
    out
}

fn add_core(lines: &mut Vec<Vec<Span>>, i: usize, usage: u32, freq: u32)
    requires
        bar_fits(usage, 35),
    ensures
        lines_in(final(lines)@) == lines_in(old(lines)@).push(core_line(i as int, usage, freq)),
{
    let mut label = chars_of("CPU ");
    let number = decimal_of(i as u128);
    push_all(&mut label, number.as_slice());
    push_str(&mut label, " ");
    let filled = match filled_cells(usage, 35) {
        Some(n) => n,
        None => 0,
    };
    let cells = bar_of(filled, 35);
    let mut tail = chars_of(" ");
    let percent = single_fixed_of(usage, 0);
    let percent = pad_left(percent.as_slice(), ' ', 3);
    push_all(&mut tail, percent.as_slice());
    push_str(&mut tail, "% ");
    let mhz = decimal_of(freq as u128);
    let mhz = pad_left(mhz.as_slice(), ' ', 4);
    push_all(&mut tail, mhz.as_slice());
    push_str(&mut tail, " MHz");
    add_three(
        lines,
        raw_of(label.as_slice()),
        colored(string_of(cells.as_slice()).as_str(), Color::Cyan),
        raw_of(tail.as_slice()),
    );
}

fn add_rate(lines: &mut Vec<Vec<Span>>, label: &str, rate: u64)
    ensures
        lines_in(final(lines)@) == lines_in(old(lines)@).push(
            text_line(label@ + count_text(rate as nat) + "/s"@),
        ),
{
    let mut text = chars_of(label);
    let number = format_number(rate);
    push_str(&mut text, number.as_str());
    push_str(&mut text, "/s");
    add_text(lines, text.as_slice());
}

fn shares_text_of(cpu: &CpuRates) -> (out: Vec<char>)
    ensures
        out@ == shares_text(*cpu),
{
    let mut out = chars_of("User: ");
    push_all(&mut out, fixed_of(cpu.user_pct, 1).as_slice());
    push_str(&mut out, "%  System: ");
    push_all(&mut out, fixed_of(cpu.system_pct, 1).as_slice());
    push_str(&mut out, "%  IOWait: ");
    push_all(&mut out, fixed_of(cpu.iowait_pct, 1).as_slice());
    push_str(&mut out, "%  Idle: ");
    push_all(&mut out, fixed_of(cpu.idle_pct, 1).as_slice());
    push_str(&mut out, "%");
    out
}

/// The panel of processors: the mean usage of all cores, its history, the usage
/// and frequency of each core, how the time is shared, and the rates of events.
/// Usages are single precision numbers in percent, as 32-bit patterns.
pub fn render_cpu_panel(
    total: u32,
    usages: &Vec<u32>,
    freqs: &Vec<u32>,
    cpu: &CpuRates,
    history: &VecDeque<u32>,
    ranges: &Vec<(u32, u32)>,
) -> (panel: Panel)
    requires
        forall|i: int| 0 <= i < usages@.len() ==> bar_fits(#[trigger] usages@[i], 35),
    ensures
        panel@ == line_panel(
            "CPU"@,
            Color::Cyan,
            cpu_lines(total, usages@, freqs@, *cpu, history@, ranges@),
        ),
{
    let mut lines: Vec<Vec<Span>> = Vec::new();
    assert(lines_in(lines@) =~= Seq::empty());
    let mut text = chars_of("Total CPU: ");
    push_all(&mut text, single_fixed_of(total, 1).as_slice());
    push_str(&mut text, "%");
    add_text(&mut lines, text.as_slice());
    if history.len() > 0 {
        add_history(&mut lines, "History:   ", history, Color::Cyan);
    }
    let ghost head = lines_in(lines@);
    let mut i: usize = 0;
    assert(head + core_lines(usages@, freqs@, 0) =~= head);
    while i < usages.len()
        invariant
            i <= usages@.len(),
            forall|i: int| 0 <= i < usages@.len() ==> bar_fits(#[trigger] usages@[i], 35),
            lines_in(lines@) == head + core_lines(usages@, freqs@, i as nat),
        decreases usages.len() - i,
    {
        let freq: u32 = if i < freqs.len() {
            freqs[i]
        } else {
            0
        };
        add_core(&mut lines, i, usages[i], freq);
        i += 1;
        assert(lines_in(lines@) =~= head + core_lines(usages@, freqs@, i as nat));
    }
    add_blank(&mut lines);
    let text = shares_text_of(cpu);
    add_text(&mut lines, text.as_slice());
    if ranges.len() > 0 {
        let mut text = chars_of("Freq ranges: ");
        push_all(&mut text, ranges_text_of(ranges).as_slice());
        add_text(&mut lines, text.as_slice());
    }
    add_blank(&mut lines);
    let mut text = chars_of("Running: ");
    push_all(&mut text, decimal_of(cpu.running_procs as u128).as_slice());
    push_str(&mut text, "  Blocked: ");
    push_all(&mut text, decimal_of(cpu.blocked_procs as u128).as_slice());
    add_text(&mut lines, text.as_slice());
    add_rate(&mut lines, "Ctx switches: ", cpu.ctx_switches_rate);
    add_rate(&mut lines, "Interrupts:   ", cpu.interrupts_rate);
    add_rate(&mut lines, "Softirqs:     ", cpu.softirqs_rate);
    assert(lines_in(lines@) =~= cpu_lines(total, usages@, freqs@, *cpu, history@, ranges@));
    Panel { title: "CPU".to_owned(), border: Color::Cyan, body: Body::Lines(lines) }
}

/// A number of bytes in the unit that fits it.
pub open spec fn bytes_text(n: u64) -> Seq<char> {
    human(rounded(n as nat, 1, crate::rounding::DOUBLE as nat))
}

/// `part` of `total` in whole percent, zero where the total is zero.
pub open spec fn whole_percent(part: u64, total: u64) -> nat {
    if total > 0 {
        percent(part as nat, total as nat, u16::MAX as nat)
    } else {
        0
    }
}

/// The bar of a percentage: a block for each five percent, filled up with
/// blocks to twenty.
pub open spec fn memory_bar(percent: nat) -> Seq<char> {
    padded_right(repeated('█', percent / 5), '█', 20)
}

/// How much of an amount is used.
pub open spec fn used_text(percent: nat, used: u64, total: u64) -> Seq<char> {
    " "@ + padded_left(decimal(percent), ' ', 3) + "% | "@ + bytes_text(used) + " / "@ + bytes_text(
        total,
    )
}

/// The line of a kind of memory.
pub open spec fn memory_line(label: Seq<char>, percent: nat, text: Seq<char>) -> Seq<SpanView> {
    seq![raw_span(label), colored_span(memory_bar(percent), Color::Cyan), raw_span(text)]
}

/// How much of the compressed memory is used, and how far it is compressed.
pub open spec fn zram_text(zram: Option<ZramInfo>) -> Seq<char> {
    match zram {
        Some(z) => used_text(whole_percent(z.used, z.limit), z.used, z.limit) + " ("@ + (if z.ratio().0
            > 0 {
            fixed(z.ratio(), 1)
        } else {
            "N/A"@
        }) + "x)"@,
        None => " N/A"@,
    }
}

/// The percentage of the compressed memory that is used.
pub open spec fn zram_percent(zram: Option<ZramInfo>) -> nat {
    match zram {
        Some(z) => whole_percent(z.used, z.limit),
        None => 0,
    }
}

/// The lines of the panel of memory.
pub open spec fn memory_lines(
    total: u64,
    used: u64,
    available: u64,
    swap_total: u64,
    swap_used: u64,
    zram: Option<ZramInfo>,
) -> Seq<Seq<SpanView>> {
    seq![
        seq![
            raw_span("Total: "@),
            colored_span(bytes_text(total), Color::White),
            raw_span("  Free: "@),
            colored_span(bytes_text(available), Color::White),
            raw_span("  Used: "@),
            colored_span(bytes_text(used), Color::White),
        ],
        Seq::empty(),
        memory_line(
            "RAM  "@,
            whole_percent(used, total),
            used_text(whole_percent(used, total), used, total),
        ),
        memory_line(
            "Swap "@,
            whole_percent(swap_used, swap_total),
            used_text(whole_percent(swap_used, swap_total), swap_used, swap_total),
        ),
        memory_line("ZRAM "@, zram_percent(zram), zram_text(zram)),
    ]
}

fn used_text_of(percent: u16, used: u64, total: u64) -> (out: Vec<char>)
    ensures
        out@ == used_text(percent as nat, used, total),
{
    let mut out = chars_of(" ");
    let number = decimal_of(percent as u128);
    push_all(&mut out, pad_left(number.as_slice(), ' ', 3).as_slice());
    push_str(&mut out, "% | ");
    push_str(&mut out, human_bytes(used).as_str());
    push_str(&mut out, " / ");
    push_str(&mut out, human_bytes(total).as_str());
    out
}

fn add_memory(lines: &mut Vec<Vec<Span>>, label: &str, percent: u16, text: &[char])
    ensures
        lines_in(final(lines)@) == lines_in(old(lines)@).push(
            memory_line(label@, percent as nat, text@),
        ),
{
    let blocks = repeat('█', (percent / 5) as usize);
    let blocks = pad_right(blocks.as_slice(), '█', 20);
    add_three(
        lines,
        raw(label),
        colored(string_of(blocks.as_slice()).as_str(), Color::Cyan),
        raw_of(text),
    );
}

/// The panel of memory, swap space and compressed memory. All amounts are in
/// bytes.
pub fn render_memory_panel(
    total: u64,
    used: u64,
    available: u64,
    swap_total: u64,
    swap_used: u64,
    zram: Option<ZramInfo>,
) -> (panel: Panel)
    ensures
        panel@ == line_panel(
            "Memory"@,
            Color::Cyan,
            memory_lines(total, used, available, swap_total, swap_used, zram),
        ),
{
    let mut lines: Vec<Vec<Span>> = Vec::new();
    assert(lines_in(lines@) =~= Seq::empty());
    let mut first: Vec<Span> = Vec::new();
    assert(spans_in(first@) =~= Seq::empty());
    add_span(&mut first, raw("Total: "));
    add_span(&mut first, colored(human_bytes(total).as_str(), Color::White));
    add_span(&mut first, raw("  Free: "));
    add_span(&mut first, colored(human_bytes(available).as_str(), Color::White));
    add_span(&mut first, raw("  Used: "));
    add_span(&mut first, colored(human_bytes(used).as_str(), Color::White));
    let ghost wanted = memory_lines(total, used, available, swap_total, swap_used, zram);
    assert(spans_in(first@) =~= wanted[0]);
    add_line(&mut lines, first);
    add_blank(&mut lines);
    let ram = percent_of(used, total);
    let text = used_text_of(ram, used, total);
    add_memory(&mut lines, "RAM  ", ram, text.as_slice());
    let swap = percent_of(swap_used, swap_total);
    let text = used_text_of(swap, swap_used, swap_total);
    add_memory(&mut lines, "Swap ", swap, text.as_slice());
    match zram {
        Some(z) => {
            let percent = percent_of(z.used, z.limit);
            let mut text = used_text_of(percent, z.used, z.limit);
            push_str(&mut text, " (");
            let ratio = z.compression_ratio();
            if ratio.mant > 0 {
                push_all(&mut text, fixed_of(ratio, 1).as_slice());
            } else {
                push_str(&mut text, "N/A");
            }
            push_str(&mut text, "x)");
            assert(text@ =~= zram_text(zram));
            add_memory(&mut lines, "ZRAM ", percent, text.as_slice());
        },
        None => {
            let text = chars_of(" N/A");
            add_memory(&mut lines, "ZRAM ", 0, text.as_slice());
        },
    }
    assert(lines_in(lines@) =~= wanted);
    Panel { title: "Memory".to_owned(), border: Color::Cyan, body: Body::Lines(lines) }
}

/// A frequency behind a load, where there is one.
pub open spec fn frequency_text(freq: Option<u32>) -> Seq<char> {
    match freq {
        Some(f) => " "@ + decimal(f as nat) + " MHz"@,
        None => Seq::empty(),
    }
}

fn frequency_text_of(freq: Option<u32>) -> (out: Vec<char>)
    ensures
        out@ == frequency_text(freq),
{
    match freq {
        Some(f) => {
            let mut out = chars_of(" ");
            push_all(&mut out, decimal_of(f as u128).as_slice());
            push_str(&mut out, " MHz");
            out
        },
        None => Vec::new(),
    }
}

/// The lines of the panel of the graphics unit.
pub open spec fn gpu_lines(usage: u32, freq: Option<u32>, history: Seq<u32>) -> Seq<
    Seq<SpanView>,
> {
    let first = seq![
        raw_span("Mali0 "@),
        colored_span(bar(single_cells(usage, 30)->0, 30), Color::Green),
        raw_span(
            " "@ + padded_left(single_fixed(usage, 2), ' ', 5) + "%"@ + frequency_text(freq),
        ),
    ];
    if history.len() > 0 {
        seq![first, history_line("History: "@, history, Color::Green)]
    } else {
        seq![first]
    }
}

/// The panel of the graphics unit, where it gives its usage: a single precision
/// number in percent, as a 32-bit pattern.
pub fn render_gpu_panel(usage: Option<u32>, freq: Option<u32>, history: &VecDeque<u32>) -> (r:
    Option<Panel>)
    requires
        usage matches Some(v) ==> bar_fits(v, 30),
    ensures
        match r {
            Some(panel) => usage matches Some(v) && panel@ == line_panel(
                "GPU"@,
                Color::Green,
                gpu_lines(v, freq, history@),
            ),
            None => usage is None,
        },
{
    let usage = match usage {
        Some(v) => v,
        None => {
            return None;
        },
    };
    let filled = match filled_cells(usage, 30) {
        Some(n) => n,
        None => 0,
    };
    let cells = bar_of(filled, 30);
    let mut text = chars_of(" ");
    let percent = single_fixed_of(usage, 2);
    push_all(&mut text, pad_left(percent.as_slice(), ' ', 5).as_slice());
    push_str(&mut text, "%");
    push_all(&mut text, frequency_text_of(freq).as_slice());
    let mut lines: Vec<Vec<Span>> = Vec::new();
    assert(lines_in(lines@) =~= Seq::empty());
    add_three(
        &mut lines,
        raw("Mali0 "),
        colored(string_of(cells.as_slice()).as_str(), Color::Green),
        raw_of(text.as_slice()),
    );
    if history.len() > 0 {
        add_history(&mut lines, "History: ", history, Color::Green);
    }
    assert(lines_in(lines@) =~= gpu_lines(usage, freq, history@));
    Some(Panel { title: "GPU".to_owned(), border: Color::Green, body: Body::Lines(lines) })
}

/// The number of filled cells for the load of a core of the neural unit.
pub open spec fn load_cells(load: u8) -> nat {
    cells(rounded(load as nat, 1, SINGLE as nat), 20, SINGLE as nat)
}

/// The number of filled cells for the load of a core, if the bar has room for
/// them.
pub fn load_cells_of(load: u8) -> (r: Option<u16>)
    ensures
        match r {
            Some(n) => n <= 20 && n == load_cells(load),
            None => load_cells(load) > 20,
        },
{
    let n = cells_of(binary_of(load as u64, SINGLE), 20);
    if n <= 20 {
        Some(n as u16)
    } else {
        None
    }
}

/// The line of a core of the neural unit; the first shows the frequency.
pub open spec fn npu_line(i: int, load: u8, freq: Option<u32>) -> Seq<SpanView> {
    seq![
        raw_span("Core "@ + decimal(i as nat) + " "@),
        colored_span(bar(load_cells(load), 20), Color::Green),
        raw_span(
            " "@ + padded_left(decimal(load as nat), ' ', 3) + "%"@ + (if i == 0 {
                frequency_text(freq)
            } else {
                Seq::empty()
            }),
        ),
    ]
}

/// The lines of the first `n` cores of the neural unit.
pub open spec fn npu_core_lines(loads: Seq<u8>, freq: Option<u32>, n: nat) -> Seq<Seq<SpanView>> {
    Seq::new(n, |i: int| npu_line(i, loads[i], freq))
}

/// The lines of the panel of the neural unit.
pub open spec fn npu_lines(loads: Seq<u8>, freq: Option<u32>, history: Seq<u32>) -> Seq<
    Seq<SpanView>,
> {
    npu_core_lines(loads, freq, loads.len()) + if history.len() > 0 {
        seq![Seq::<SpanView>::empty(), history_line("History: "@, history, Color::Green)]
    } else {
        Seq::empty()
    }
}

fn add_npu(lines: &mut Vec<Vec<Span>>, i: usize, load: u8, freq: Option<u32>)
    requires
        load_cells(load) <= 20,
    ensures
        lines_in(final(lines)@) == lines_in(old(lines)@).push(npu_line(i as int, load, freq)),
{
    let mut label = chars_of("Core ");
    push_all(&mut label, decimal_of(i as u128).as_slice());
    push_str(&mut label, " ");
    let filled = match load_cells_of(load) {
        Some(n) => n,
        None => 0,
    };
    let cells = bar_of(filled, 20);
    let mut text = chars_of(" ");
    let number = decimal_of(load as u128);
    push_all(&mut text, pad_left(number.as_slice(), ' ', 3).as_slice());
    push_str(&mut text, "%");
    if i == 0 {
        push_all(&mut text, frequency_text_of(freq).as_slice());
    }
    let ghost wanted = npu_line(i as int, load, freq);
    assert(text@ =~= wanted[2].text);
    add_three(
        lines,
        raw_of(label.as_slice()),
        colored(string_of(cells.as_slice()).as_str(), Color::Green),
        raw_of(text.as_slice()),
    );
}

/// The panel of the neural unit, where it has cores.
pub fn render_npu_panel(loads: &Vec<u8>, freq: Option<u32>, history: &VecDeque<u32>) -> (r:
    Option<Panel>)
    requires
        forall|i: int| 0 <= i < loads@.len() ==> load_cells(#[trigger] loads@[i]) <= 20,
    ensures
        match r {
            Some(panel) => loads@.len() > 0 && panel@ == line_panel(
                "NPU"@,
                Color::Green,
                npu_lines(loads@, freq, history@),
            ),
            None => loads@.len() == 0,
        },
{
    if loads.len() == 0 {
        return None;
    }
    let mut lines: Vec<Vec<Span>> = Vec::new();
    let mut i: usize = 0;
    assert(lines_in(lines@) =~= npu_core_lines(loads@, freq, 0));
    while i < loads.len()
        invariant
            i <= loads@.len(),
            forall|i: int| 0 <= i < loads@.len() ==> load_cells(#[trigger] loads@[i]) <= 20,
            lines_in(lines@) == npu_core_lines(loads@, freq, i as nat),
        decreases loads.len() - i,
    {
        add_npu(&mut lines, i, loads[i], freq);
        i += 1;
        assert(lines_in(lines@) =~= npu_core_lines(loads@, freq, i as nat));
    }
    if history.len() > 0 {
        add_blank(&mut lines);
        add_history(&mut lines, "History: ", history, Color::Green);
    }
    assert(lines_in(lines@) =~= npu_lines(loads@, freq, history@));
    Some(Panel { title: "NPU".to_owned(), border: Color::Green, body: Body::Lines(lines) })
}

/// The line of a scheduler of the scaler.
pub open spec fn rga_line(name: Seq<char>, load: u32) -> Seq<SpanView> {
    seq![
        raw_span(padded_right(name, ' ', 6) + " "@),
        colored_span(bar(single_cells(load, 20)->0, 20), Color::Green),
        raw_span(" "@ + padded_left(single_fixed(load, 1), ' ', 5) + "%"@),
    ]
}

/// The lines of the first `n` schedulers.
pub open spec fn rga_lines(loads: Seq<(Seq<char>, u32)>, n: nat) -> Seq<Seq<SpanView>> {
    Seq::new(n, |i: int| rga_line(loads[i].0, loads[i].1))
}

fn add_rga(lines: &mut Vec<Vec<Span>>, name: &str, load: u32)
    requires
        bar_fits(load, 20),
    ensures
        lines_in(final(lines)@) == lines_in(old(lines)@).push(rga_line(name@, load)),
{
    let name = chars_of(name);
    let mut label = pad_right(name.as_slice(), ' ', 6);
    push_str(&mut label, " ");
    let filled = match filled_cells(load, 20) {
        Some(n) => n,
        None => 0,
    };
    let cells = bar_of(filled, 20);
    let mut text = chars_of(" ");
    let percent = single_fixed_of(load, 1);
    push_all(&mut text, pad_left(percent.as_slice(), ' ', 5).as_slice());
    push_str(&mut text, "%");
    add_three(
        lines,
        raw_of(label.as_slice()),
        colored(string_of(cells.as_slice()).as_str(), Color::Green),
        raw_of(text.as_slice()),
    );
}

/// The panel of the scaler, where it gives loads.
pub fn render_rga_panel(loads: &Option<Vec<(String, u32)>>) -> (r: Option<Panel>)
    requires
        loads matches Some(v) ==> forall|i: int|
            0 <= i < v@.len() ==> bar_fits((#[trigger] v@[i]).1, 20),
    ensures
        match r {
            Some(panel) => loads matches Some(v) && panel@ == line_panel(
                "RGA"@,
                Color::Green,
                rga_lines(named_numbers(v@), v@.len()),
            ),
            None => loads is None,
        },
{
    match loads {
        Some(v) => {
            let mut lines: Vec<Vec<Span>> = Vec::new();
            let ghost all = named_numbers(v@);
            let mut i: usize = 0;
            assert(lines_in(lines@) =~= rga_lines(all, 0));
            while i < v.len()
                invariant
                    i <= v@.len(),
                    all == named_numbers(v@),
                    forall|i: int| 0 <= i < v@.len() ==> bar_fits((#[trigger] v@[i]).1, 20),
                    lines_in(lines@) == rga_lines(all, i as nat),
                decreases v.len() - i,
            {
                add_rga(&mut lines, v[i].0.as_str(), v[i].1);
                i += 1;
                assert(lines_in(lines@) =~= rga_lines(all, i as nat));
            }
            Some(Panel { title: "RGA".to_owned(), border: Color::Green, body: Body::Lines(lines) })
        },
        None => None,
    }
}

/// A memory bar is never shorter than twenty blocks, and for up to a hundred
/// percent it has exactly twenty.
pub proof fn memory_bars_are_full(percent: nat)
    ensures
        memory_bar(percent).len() >= 20,
        percent > 104 ==> memory_bar(percent) == repeated('█', percent / 5),
        percent <= 104 ==> memory_bar(percent) == repeated('█', 20),
{
    if percent <= 104 {
        assert(percent / 5 <= 20);
        assert(memory_bar(percent) =~= repeated('█', 20));
    }
}

/// The text of a line, its pieces one after the other.
pub open spec fn line_text(line: Seq<SpanView>) -> Seq<char>
    decreases line.len(),
{
    if line.len() == 0 {
        Seq::empty()
    } else {
        line_text(line.drop_last()) + line.last().text
    }
}

proof fn lemma_three(a: SpanView, b: SpanView, c: SpanView)
    ensures
        line_text(seq![a, b, c]) == a.text + b.text + c.text,
{
    reveal_with_fuel(line_text, 4);
    assert(seq![a, b, c].drop_last() =~= seq![a, b]);
    assert(seq![a, b].drop_last() =~= seq![a]);
    assert(seq![a].drop_last() =~= Seq::<SpanView>::empty());
    assert(Seq::<char>::empty() + a.text =~= a.text);
}

proof fn lemma_two(a: SpanView, b: SpanView)
    ensures
        line_text(seq![a, b]) == a.text + b.text,
        line_text(seq![a]) == a.text,
        line_text(Seq::empty()) == Seq::<char>::empty(),
{
    reveal_with_fuel(line_text, 3);
    assert(seq![a, b].drop_last() =~= seq![a]);
    assert(seq![a].drop_last() =~= Seq::<SpanView>::empty());
    assert(Seq::<char>::empty() + a.text =~= a.text);
}

/// Whether a text is a bar of so many cells, of which the first `filled` are
/// filled.
pub open spec fn is_bar(text: Seq<char>, filled: int, width: int) -> bool {
    &&& text.len() == width
    &&& forall|i: int| 0 <= i < filled ==> #[trigger] text[i] == '█'
    &&& forall|i: int| filled <= i < width ==> #[trigger] text[i] == '░'
}

/// The panel of processors has its lines in this order: the mean usage, its history
/// where there is one, a line for each core with its own usage and frequency, an
/// empty line, how the time is shared, the frequency ranges where there are any, an
/// empty line, and what runs and waits and the three rates.
pub proof fn the_processors_have_their_lines(
    total: u32,
    usages: Seq<u32>,
    freqs: Seq<u32>,
    cpu: CpuRates,
    history: Seq<u32>,
    ranges: Seq<(u32, u32)>,
    i: int,
)
    ensures
        ({
            let all = cpu_lines(total, usages, freqs, cpu, history, ranges);
            let at: int = if history.len() > 0 {
                2
            } else {
                1
            };
            let end = at + usages.len();
            let last: int = if ranges.len() > 0 {
                end + 3
            } else {
                end + 2
            };
            &&& all.len() == last + 5
            &&& line_text(all[0]) == "Total CPU: "@ + single_fixed(total, 1) + "%"@
            &&& history.len() > 0 ==> line_text(all[1]) == "History:   "@ + sparkline(
                history,
                FULL,
            )
            &&& 0 <= i < usages.len() ==> line_text(all[at + i]) == "CPU "@ + decimal(i as nat)
                + " "@ + all[at + i][1].text + " "@ + padded_left(
                single_fixed(usages[i], 0),
                ' ',
                3,
            ) + "% "@ + padded_left(
                decimal(
                    (if i < freqs.len() {
                        freqs[i]
                    } else {
                        0
                    }) as nat,
                ),
                ' ',
                4,
            ) + " MHz"@
            &&& 0 <= i < usages.len() && bar_fits(usages[i], 35) ==> is_bar(
                all[at + i][1].text,
                single_cells(usages[i], 35)->0 as int,
                35,
            )
            &&& all[end].len() == 0 && all[last].len() == 0
            &&& line_text(all[end + 1]) == "User: "@ + fixed(cpu.user_pct@, 1) + "%  System: "@
                + fixed(cpu.system_pct@, 1) + "%  IOWait: "@ + fixed(cpu.iowait_pct@, 1)
                + "%  Idle: "@ + fixed(cpu.idle_pct@, 1) + "%"@
            &&& ranges.len() > 0 ==> line_text(all[end + 2]) == "Freq ranges: "@ + ranges_text(
                ranges,
            )
            &&& line_text(all[last + 1]) == "Running: "@ + decimal(cpu.running_procs as nat)
                + "  Blocked: "@ + decimal(cpu.blocked_procs as nat)
            &&& line_text(all[last + 2]) == "Ctx switches: "@ + count_text(
                cpu.ctx_switches_rate as nat,
            ) + "/s"@
            &&& line_text(all[last + 3]) == "Interrupts:   "@ + count_text(
                cpu.interrupts_rate as nat,
            ) + "/s"@
            &&& line_text(all[last + 4]) == "Softirqs:     "@ + count_text(
                cpu.softirqs_rate as nat,
            ) + "/s"@
        }),
{
    let all = cpu_lines(total, usages, freqs, cpu, history, ranges);
    let at: int = if history.len() > 0 {
        2
    } else {
        1
    };
    lemma_cpu_parts(total, usages, freqs, cpu, history, ranges, i);
    lemma_text_line("Total CPU: "@ + single_fixed(total, 1) + "%"@);
    lemma_two(raw_span("History:   "@), colored_span(sparkline(history, FULL), Color::Cyan));
    lemma_core_text(i, usages[i], frequency_of(freqs, i));
    if 0 <= i < usages.len() && bar_fits(usages[i], 35) {
        assert(is_bar(all[at + i][1].text, single_cells(usages[i], 35)->0 as int, 35));
    }
    lemma_text_line(shares_text(cpu));
    lemma_text_line("Freq ranges: "@ + ranges_text(ranges));
    lemma_text_line(
        "Running: "@ + decimal(cpu.running_procs as nat) + "  Blocked: "@ + decimal(
            cpu.blocked_procs as nat,
        ),
    );
    lemma_text_line("Ctx switches: "@ + count_text(cpu.ctx_switches_rate as nat) + "/s"@);
    lemma_text_line("Interrupts:   "@ + count_text(cpu.interrupts_rate as nat) + "/s"@);
    lemma_text_line("Softirqs:     "@ + count_text(cpu.softirqs_rate as nat) + "/s"@);
}

proof fn lemma_text_line(text: Seq<char>)
    ensures
        line_text(text_line(text)) == text,
{
    lemma_two(raw_span(text), raw_span(text));
    assert(text_line(text) =~= seq![raw_span(text)]);
}

proof fn lemma_core_text(i: int, usage: u32, freq: u32)
    ensures
        line_text(core_line(i, usage, freq)) == "CPU "@ + decimal(i as nat) + " "@ + core_line(
            i,
            usage,
            freq,
        )[1].text + " "@ + padded_left(single_fixed(usage, 0), ' ', 3) + "% "@ + padded_left(
            decimal(freq as nat),
            ' ',
            4,
        ) + " MHz"@,
{
    let core = core_line(i, usage, freq);
    lemma_three(core[0], core[1], core[2]);
    assert(core =~= seq![core[0], core[1], core[2]]);
    assert(line_text(core) =~= "CPU "@ + decimal(i as nat) + " "@ + core[1].text + " "@
        + padded_left(single_fixed(usage, 0), ' ', 3) + "% "@ + padded_left(
        decimal(freq as nat),
        ' ',
        4,
    ) + " MHz"@);
}

proof fn lemma_cpu_parts(
    total: u32,
    usages: Seq<u32>,
    freqs: Seq<u32>,
    cpu: CpuRates,
    history: Seq<u32>,
    ranges: Seq<(u32, u32)>,
    i: int,
)
    ensures
        ({
            let all = cpu_lines(total, usages, freqs, cpu, history, ranges);
            let at: int = if history.len() > 0 {
                2
            } else {
                1
            };
            let end = at + usages.len();
            let last: int = if ranges.len() > 0 {
                end + 3
            } else {
                end + 2
            };
            &&& all.len() == last + 5
            &&& all[0] == text_line("Total CPU: "@ + single_fixed(total, 1) + "%"@)
            &&& history.len() > 0 ==> all[1] == history_line("History:   "@, history, Color::Cyan)
            &&& 0 <= i < usages.len() ==> all[at + i] == core_line(
                i,
                usages[i],
                frequency_of(freqs, i),
            )
            &&& all[end].len() == 0 && all[last].len() == 0
            &&& all[end + 1] == text_line(shares_text(cpu))
            &&& ranges.len() > 0 ==> all[end + 2] == text_line(
                "Freq ranges: "@ + ranges_text(ranges),
            )
            &&& all[last + 1] == text_line(
                "Running: "@ + decimal(cpu.running_procs as nat) + "  Blocked: "@ + decimal(
                    cpu.blocked_procs as nat,
                ),
            )
            &&& all[last + 2] == text_line(
                "Ctx switches: "@ + count_text(cpu.ctx_switches_rate as nat) + "/s"@,
            )
            &&& all[last + 3] == text_line(
                "Interrupts:   "@ + count_text(cpu.interrupts_rate as nat) + "/s"@,
            )
            &&& all[last + 4] == text_line(
                "Softirqs:     "@ + count_text(cpu.softirqs_rate as nat) + "/s"@,
            )
        }),
{
}

/// All frequency ranges are shown, in order, with commas between them.
pub proof fn all_ranges_are_shown(ranges: Seq<(u32, u32)>, low: u32, high: u32)
    ensures
        ({
            let text = decimal(low as nat) + "-"@ + decimal(high as nat) + " MHz"@;
            ranges_text(ranges.push((low, high))) == if ranges.len() == 0 {
                text
            } else {
                ranges_text(ranges) + ", "@ + text
            }
        }),
{
    assert(ranges.push((low, high)).drop_last() =~= ranges);
}

/// The panel of memory has what there is, is free and is used of it, and then a line
/// each for the memory, the swap space and the compressed memory, with what is used
/// of it in percent and in bytes.
pub proof fn the_memory_has_its_lines(
    total: u64,
    used: u64,
    available: u64,
    swap_total: u64,
    swap_used: u64,
    zram: Option<ZramInfo>,
)
    ensures
        ({
            let all = memory_lines(total, used, available, swap_total, swap_used, zram);
            &&& all.len() == 5 && all[1].len() == 0
            &&& all[0].len() == 6
            &&& all[0][0].text == "Total: "@ && all[0][1].text == bytes_text(total)
            &&& all[0][2].text == "  Free: "@ && all[0][3].text == bytes_text(available)
            &&& all[0][4].text == "  Used: "@ && all[0][5].text == bytes_text(used)
            &&& all[2][0].text == "RAM  "@ && all[2][2].text == " "@ + padded_left(
                decimal(whole_percent(used, total)),
                ' ',
                3,
            ) + "% | "@ + bytes_text(used) + " / "@ + bytes_text(total)
            &&& all[3][0].text == "Swap "@ && all[3][2].text == " "@ + padded_left(
                decimal(whole_percent(swap_used, swap_total)),
                ' ',
                3,
            ) + "% | "@ + bytes_text(swap_used) + " / "@ + bytes_text(swap_total)
            &&& all[4][0].text == "ZRAM "@
            &&& all[2].len() == 3 && all[2][1].text == memory_bar(whole_percent(used, total))
            &&& all[3].len() == 3 && all[3][1].text == memory_bar(
                whole_percent(swap_used, swap_total),
            )
            &&& all[4].len() == 3 && all[4][1].text == memory_bar(
                match zram {
                    Some(z) => whole_percent(z.used, z.limit),
                    None => 0,
                },
            )
            &&& zram is None ==> all[4][2].text == " N/A"@
            &&& zram matches Some(z) ==> all[4][2].text == " "@ + padded_left(
                decimal(whole_percent(z.used, z.limit)),
                ' ',
                3,
            ) + "% | "@ + bytes_text(z.used) + " / "@ + bytes_text(z.limit) + " ("@ + (
            if z.ratio().0 > 0 {
                fixed(z.ratio(), 1)
            } else {
                "N/A"@
            }) + "x)"@
        }),
        total == 0 ==> whole_percent(used, total) == 0,
        total > 0 ==> whole_percent(used, total) == percent(used as nat, total as nat, 65535),
{
}

/// The panel of the graphics unit has its usage with a bar and the frequency where
/// it is known, and its history where there is one.
pub proof fn the_graphics_unit_has_its_lines(usage: u32, freq: Option<u32>, history: Seq<u32>)
    requires
        bar_fits(usage, 30),
    ensures
        ({
            let all = gpu_lines(usage, freq, history);
            &&& all.len() == if history.len() > 0 {
                2int
            } else {
                1int
            }
            &&& is_bar(all[0][1].text, single_cells(usage, 30)->0 as int, 30)
            &&& line_text(all[0]) == "Mali0 "@ + all[0][1].text + " "@ + padded_left(
                single_fixed(usage, 2),
                ' ',
                5,
            ) + "%"@ + (match freq {
                Some(f) => " "@ + decimal(f as nat) + " MHz"@,
                None => Seq::empty(),
            })
            &&& history.len() > 0 ==> line_text(all[1]) == "History: "@ + sparkline(history, FULL)
        }),
{
    let all = gpu_lines(usage, freq, history);
    let first = all[0];
    lemma_three(first[0], first[1], first[2]);
    assert(first =~= seq![first[0], first[1], first[2]]);
    assert(line_text(first) =~= "Mali0 "@ + first[1].text + " "@ + padded_left(
        single_fixed(usage, 2),
        ' ',
        5,
    ) + "%"@ + frequency_text(freq));
    if history.len() > 0 {
        lemma_two(all[1][0], all[1][1]);
        assert(all[1] =~= seq![all[1][0], all[1][1]]);
    }
}

/// The panel of the neural unit has a line for each core with its own load, the
/// first with the frequency where it is known, and below them the history where
/// there is one.
pub proof fn the_neural_unit_has_its_lines(
    loads: Seq<u8>,
    freq: Option<u32>,
    history: Seq<u32>,
    i: int,
)
    requires
        0 <= i < loads.len(),
        load_cells(loads[i]) <= 20,
    ensures
        ({
            let all = npu_lines(loads, freq, history);
            &&& all.len() == loads.len() + if history.len() > 0 {
                2int
            } else {
                0int
            }
            &&& is_bar(all[i][1].text, load_cells(loads[i]) as int, 20)
            &&& line_text(all[i]) == "Core "@ + decimal(i as nat) + " "@ + all[i][1].text + " "@
                + padded_left(decimal(loads[i] as nat), ' ', 3) + "%"@ + (if i == 0 && freq is Some {
                " "@ + decimal(freq->0 as nat) + " MHz"@
            } else {
                Seq::empty()
            })
            &&& history.len() > 0 ==> all[loads.len() as int].len() == 0 && line_text(
                all[loads.len() as int + 1],
            ) == "History: "@ + sparkline(history, FULL)
        }),
{
    let all = npu_lines(loads, freq, history);
    let line = all[i];
    assert(line == npu_line(i, loads[i], freq));
    lemma_three(line[0], line[1], line[2]);
    assert(line =~= seq![line[0], line[1], line[2]]);
    assert(line_text(line) =~= "Core "@ + decimal(i as nat) + " "@ + line[1].text + " "@
        + padded_left(decimal(loads[i] as nat), ' ', 3) + "%"@ + (if i == 0 {
        frequency_text(freq)
    } else {
        Seq::empty()
    }));
    if history.len() > 0 {
        let last = all[loads.len() as int + 1];
        lemma_two(last[0], last[1]);
        assert(last =~= seq![last[0], last[1]]);
    }
}

/// The cells for a load are as many of twenty as the load is of a hundred, a fraction
/// cut off, but for at most three parts in `2^24`.
pub proof fn load_bars_show_the_load(load: u8, k: nat)
    requires
        k >= 23,
    ensures
        ({
            let n = load_cells(load) as int;
            let h: int = 0x100_0000;
            let v = in_units(rounded(load as nat, 1, SINGLE as nat), k);
            &&& v == load * pow2(k)
            &&& n * (100 * pow2(k)) * (h - 3) <= (v * 20) * h < (n + 1) * (100 * pow2(k)) * (h + 3)
        }),
{
    let half = SINGLE as nat;
    let r = rounded(load as nat, 1, half);
    crate::units::lemma_precisions();
    if load > 0 {
        crate::bounds::lemma_whole_exponents(load as nat, 23);
    }
    small_numbers_are_exact(load as nat, half, k);
    a_bar_is_filled_by_the_share(r, 20, half, k);
}

/// The panel of the scaler has a line for each scheduler with its own load.
pub proof fn the_scaler_has_its_lines(loads: Seq<(Seq<char>, u32)>, i: int)
    requires
        0 <= i < loads.len(),
        bar_fits(loads[i].1, 20),
    ensures
        ({
            let all = rga_lines(loads, loads.len());
            &&& all.len() == loads.len()
            &&& is_bar(all[i][1].text, single_cells(loads[i].1, 20)->0 as int, 20)
            &&& line_text(all[i]) == padded_right(loads[i].0, ' ', 6) + " "@ + all[i][1].text + " "@
                + padded_left(single_fixed(loads[i].1, 1), ' ', 5) + "%"@
        }),
{
    let line = rga_lines(loads, loads.len())[i];
    lemma_three(line[0], line[1], line[2]);
    assert(line =~= seq![line[0], line[1], line[2]]);
    assert(line_text(line) =~= padded_right(loads[i].0, ' ', 6) + " "@ + line[1].text + " "@
        + padded_left(single_fixed(loads[i].1, 1), ' ', 5) + "%"@);
}

/// An amount of bytes is taken as it is up to `2^53`, and beyond it is off by at most
/// one part in `2^53`.
pub proof fn amounts_are_taken_as_they_are(n: u64, k: nat)
    requires
        k >= 52,
    ensures
        ({
            let v = rounded(n as nat, 1, crate::rounding::DOUBLE as nat);
            &&& bytes_text(n) == human(v)
            &&& n < 0x20_0000_0000_0000 ==> whole(v) == n && in_units(v, k) == n * pow2(k)
            &&& near(in_units(v, k), (n * pow2(k)) as int, 1, 0x20_0000_0000_0000)
        }),
{
    let half = crate::rounding::DOUBLE as nat;
    crate::units::lemma_precisions();
    if n > 0 {
        crate::bounds::lemma_whole_exponents(n as nat, 52);
    }
    if n < 0x20_0000_0000_0000 {
        small_numbers_are_exact(n as nat, half, k);
    }
    lemma_rounded_near(n as nat, 1, half, k);
}

/// The bars of processors and memory are cyan, those of the accelerators are green, and
/// what stands around them has no style.
pub proof fn bars_have_their_colors(
    i: int,
    usage: u32,
    freq: Option<u32>,
    load: u8,
    name: Seq<char>,
    history: Seq<u32>,
)
    ensures
        core_line(i, usage, 0)[1].style.color == Some(Color::Cyan),
        memory_line(name, 0, name)[1].style.color == Some(Color::Cyan),
        gpu_lines(usage, freq, history)[0][1].style.color == Some(Color::Green),
        npu_line(i, load, freq)[1].style.color == Some(Color::Green),
        rga_line(name, usage)[1].style.color == Some(Color::Green),
        core_line(i, usage, 0)[0].style.color is None && core_line(i, usage, 0)[2].style.color is None,
        memory_line(name, 0, name)[0].style.color is None && memory_line(
            name,
            0,
            name,
        )[2].style.color is None,
        !core_line(i, usage, 0)[1].style.bold && !core_line(i, usage, 0)[1].style.underlined,
        history_line(name, history, Color::Green)[1].style.color == Some(Color::Green),
        history_line(name, history, Color::Cyan)[1].style.color == Some(Color::Cyan),
{
}

} // verus!
