//! The panels of the system, its rates and temperatures, and the line of help.

use vstd::prelude::*;

use crate::controls::{Controls, ControlsView};
use crate::file_cache::text_in;
use crate::io_rates::{IoRates, IoView};
use crate::name_table::{is_listing, named};
use crate::number::{decimal, decimal_int, decimal_int_of, decimal_of};
use crate::panels::{bytes_text, line_panel};
use crate::process::ProcessSortMode;
use crate::rounding::{double_fixed, double_fixed_of, whole, whole_up_to, DOUBLE};
use crate::screen::{
    add_pair, add_span, add_text, bold, bold_span, colored, colored_span, labelled, lines_in, rows_in,
    spans_in, text_line, Body, BodyView, Color, Extent, Panel, PanelView, Span, SpanView, Table,
};
use crate::state::{Identity, SystemStats};
use crate::text::{chars_of, push_all, push_str, string_of, trim, trimmed};
use crate::thermal::readings_in;
use crate::units::{
    human_bytes, human_bytes_f64, human_double, percentages_are_cut_off, share, share_of, uptime,
    uptime_text,
};

verus! {

/// A panel with a table of two columns without a heading.
pub open spec fn pair_panel(
    title: Seq<char>,
    border: Color,
    rows: Seq<Seq<Seq<char>>>,
    left: u16,
    right: u16,
    spacing: u16,
    color: Option<Color>,
) -> PanelView {
    PanelView {
        title,
        border,
        body: BodyView::Table {
            header: Seq::empty(),
            rows,
            widths: seq![Extent::Percentage(left), Extent::Percentage(right)],
            header_margin: 0,
            spacing,
            color,
        },
    }
}

fn pair_panel_of(
    title: &str,
    border: Color,
    rows: Vec<Vec<String>>,
    left: u16,
    right: u16,
    spacing: u16,
    color: Option<Color>,
) -> (panel: Panel)
    ensures
        panel@ == pair_panel(title@, border, rows_in(rows@), left, right, spacing, color),
{
    let header: Vec<Span> = Vec::new();
    assert(spans_in(header@) =~= Seq::empty());
    let widths: Vec<Extent> = vec![Extent::Percentage(left), Extent::Percentage(right)];
    assert(widths@ =~= seq![Extent::Percentage(left), Extent::Percentage(right)]);
    Panel {
        title: title.to_owned(),
        border,
        body: Body::Table(Table { header, rows, widths, header_margin: 0, spacing, color }),
    }
}

/// A name that a file holds.
pub open spec fn name_or_unknown(content: Option<Seq<char>>) -> Seq<char> {
    match content {
        Some(s) => trim(s),
        None => "Unknown"@,
    }
}

fn name_or_unknown_of(content: Option<&str>) -> (out: Vec<char>)
    ensures
        out@ == name_or_unknown(text_in(content)),
{
    match content {
        Some(s) => trimmed(chars_of(s).as_slice()),
        None => chars_of("Unknown"),
    }
}

/// The rows of the panel of the system.
pub open spec fn system_rows(
    id: Identity,
    hostname: Option<Seq<char>>,
    kernel: Option<Seq<char>>,
) -> Seq<Seq<Seq<char>>> {
    seq![
        seq!["Board: "@ + id.board_name@, "Host: "@ + name_or_unknown(hostname)],
        seq!["SoC: "@ + id.rk_model@, "Kernel: "@ + name_or_unknown(kernel)],
        seq!["NPU Driver:    "@ + id.npu_version@, "Arch: "@ + id.cpu_arch@],
        seq!["RGA Driver:    "@ + id.rga_version@, Seq::empty()],
        seq!["RKNN Runtime:  "@ + id.rknn_version@, Seq::empty()],
        seq!["RKLLM Runtime: "@ + id.rkllm_version@, Seq::empty()],
    ]
}

fn label_text(label: &str, value: &str) -> (out: String)
    ensures
        out@ == label@ + value@,
{
    let value = chars_of(value);
    string_of(labelled(label, value.as_slice()).as_slice())
}

fn no_text() -> (out: String)
    ensures
        out@ == Seq::<char>::empty(),
{
    let out = String::new();
    assert(out@ =~= Seq::empty());
    out
}

/// The panel of the system: the board, its drivers and libraries, and beside
/// them the name of the host and its kernel, from the files that hold them.
pub fn render_system_panel(id: &Identity, hostname: Option<&str>, kernel: Option<&str>) -> (panel:
    Panel)
    ensures
        panel@ == pair_panel(
            "SYS"@,
            Color::Red,
            system_rows(*id, text_in(hostname), text_in(kernel)),
            50,
            50,
            1,
            None,
        ),
{
    let mut rows: Vec<Vec<String>> = Vec::new();
    assert(rows_in(rows@) =~= Seq::empty());
    let host = name_or_unknown_of(hostname);
    let host = string_of(labelled("Host: ", host.as_slice()).as_slice());
    add_pair(&mut rows, label_text("Board: ", id.board_name.as_str()), host);
    let release = name_or_unknown_of(kernel);
    let release = string_of(labelled("Kernel: ", release.as_slice()).as_slice());
    add_pair(&mut rows, label_text("SoC: ", id.rk_model.as_str()), release);
    add_pair(
        &mut rows,
        label_text("NPU Driver:    ", id.npu_version.as_str()),
        label_text("Arch: ", id.cpu_arch.as_str()),
    );
    add_pair(&mut rows, label_text("RGA Driver:    ", id.rga_version.as_str()), no_text());
    add_pair(&mut rows, label_text("RKNN Runtime:  ", id.rknn_version.as_str()), no_text());
    add_pair(&mut rows, label_text("RKLLM Runtime: ", id.rkllm_version.as_str()), no_text());
    assert(rows_in(rows@) =~= system_rows(*id, text_in(hostname), text_in(kernel)));
    pair_panel_of("SYS", Color::Red, rows, 50, 50, 1, None)
}

/// The lines of the panel of facts.
pub open spec fn stats_lines(
    uptime_secs: u64,
    one: u64,
    five: u64,
    fifteen: u64,
    governor: Seq<char>,
    processes: usize,
    connections: usize,
) -> Seq<Seq<SpanView>> {
    seq![
        text_line("Uptime:     "@ + uptime(uptime_secs as nat)),
        text_line(
            "Load Avg:   "@ + double_fixed(one, 2) + " "@ + double_fixed(five, 2) + " "@ + double_fixed(
                fifteen,
                2,
            ),
        ),
        text_line("Governor:   "@ + governor),
        text_line("Processes:  "@ + decimal(processes as nat)),
        text_line("TCP Conns:  "@ + decimal(connections as nat)),
    ]
}

/// The panel of facts about the running system. The load averages over one,
/// five and fifteen minutes are double precision numbers, as 64-bit patterns.
pub fn render_stats_panel(
    uptime_secs: u64,
    one: u64,
    five: u64,
    fifteen: u64,
    processes: usize,
    stats: &SystemStats,
) -> (panel: Panel)
    ensures
        panel@ == line_panel(
            "Stats"@,
            Color::White,
            stats_lines(
                uptime_secs,
                one,
                five,
                fifteen,
                stats.cpu_governor@,
                processes,
                stats.tcp_connections,
            ),
        ),
{
    let mut lines: Vec<Vec<Span>> = Vec::new();
    assert(lines_in(lines@) =~= Seq::empty());
    let mut text = chars_of("Uptime:     ");
    push_str(&mut text, uptime_text(uptime_secs).as_str());
    add_text(&mut lines, text.as_slice());
    let mut text = chars_of("Load Avg:   ");
    push_all(&mut text, double_fixed_of(one, 2).as_slice());
    push_str(&mut text, " ");
    push_all(&mut text, double_fixed_of(five, 2).as_slice());
    push_str(&mut text, " ");
    push_all(&mut text, double_fixed_of(fifteen, 2).as_slice());
    add_text(&mut lines, text.as_slice());
    let mut text = chars_of("Governor:   ");
    push_str(&mut text, stats.cpu_governor.as_str());
    add_text(&mut lines, text.as_slice());
    let mut text = chars_of("Processes:  ");
    push_all(&mut text, decimal_of(processes as u128).as_slice());
    add_text(&mut lines, text.as_slice());
    let mut text = chars_of("TCP Conns:  ");
    push_all(&mut text, decimal_of(stats.tcp_connections as u128).as_slice());
    add_text(&mut lines, text.as_slice());
    assert(lines_in(lines@) =~= stats_lines(
        uptime_secs,
        one,
        five,
        fifteen,
        stats.cpu_governor@,
        processes,
        stats.tcp_connections,
    ));
    Panel { title: "Stats".to_owned(), border: Color::White, body: Body::Lines(lines) }
}

/// A rate in bytes per second.
pub open spec fn rate_text(rate: u64) -> Seq<char> {
    human_double(rate) + "/s"@
}

fn rate_text_of(rate: u64) -> (out: String)
    ensures
        out@ == rate_text(rate),
{
    let mut out = chars_of(human_bytes_f64(rate).as_str());
    push_str(&mut out, "/s");
    string_of(out.as_slice())
}

/// `used` of `total` in whole percent, at most the largest number there is. Of
/// nothing, nothing is zero and anything else that largest number.
pub open spec fn disk_percent(used: u64, total: u64) -> nat {
    if total > 0 {
        let p = whole(share(used as nat, total as nat, DOUBLE as nat));
        if p <= u32::MAX {
            p
        } else {
            u32::MAX as nat
        }
    } else if used == 0 {
        0
    } else {
        u32::MAX as nat
    }
}

fn disk_percent_of(used: u64, total: u64) -> (r: u64)
    ensures
        r == disk_percent(used, total),
{
    if total > 0 {
        whole_up_to(share_of(used, total, DOUBLE), u32::MAX as u64)
    } else if used == 0 {
        0
    } else {
        u32::MAX as u64
    }
}

/// How much of the disks is used.
pub open spec fn disk_text(used: u64, total: u64) -> Seq<char> {
    bytes_text(used) + " / "@ + bytes_text(total) + " ("@ + decimal(disk_percent(used, total))
        + "%)"@
}

/// The rows of the rates of all disks and of the whole network, and of the
/// space on the disks where it is known.
pub open spec fn io_head(io: IoView, disk: Option<(u64, u64)>) -> Seq<Seq<Seq<char>>> {
    let rates = seq![
        seq!["Disk Read"@, rate_text(io.disk_read_rate)],
        seq!["Disk Write"@, rate_text(io.disk_write_rate)],
        seq!["Net RX (Tot)"@, rate_text(io.net_rx_rate)],
        seq!["Net TX (Tot)"@, rate_text(io.net_tx_rate)],
    ];
    match disk {
        Some((used, total)) => rates.push(seq!["Disk Space"@, disk_text(used, total)]),
        None => rates,
    }
}

/// The rows of the first `n` network adapters, two for each.
pub open spec fn adapter_rows(list: Seq<(Seq<char>, (u64, u64))>, n: nat) -> Seq<
    Seq<Seq<char>>,
>
    decreases n,
{
    if n == 0 {
        Seq::empty()
    } else {
        let (name, (rx, tx)) = list[n - 1];
        adapter_rows(list, (n - 1) as nat).push(seq![name + " RX"@, rate_text(rx)]).push(
            seq![name + " TX"@, rate_text(tx)],
        )
    }
}

/// The panel of rates, with the network adapters in the given order.
pub open spec fn io_panel(
    io: IoView,
    disk: Option<(u64, u64)>,
    list: Seq<(Seq<char>, (u64, u64))>,
) -> PanelView {
    pair_panel(
        "I/O"@,
        Color::Yellow,
        io_head(io, disk) + adapter_rows(list, list.len()),
        50,
        50,
        2,
        Some(Color::Cyan),
    )
}

/// The panel of rates: of disks and network, the space that is used on the
/// disks and all there is where it is known, and the rates of the network
/// adapters by name.
pub fn render_io_panel(io: &IoRates, disk: Option<(u64, u64)>) -> (panel: Panel)
    requires
        io.wf(),
    ensures
        exists|list: Seq<(Seq<char>, (u64, u64))>| #[trigger]
            is_listing(list, io@.adapter_rates) && panel@ == io_panel(io@, disk, list),
{
    let mut rows: Vec<Vec<String>> = Vec::new();
    assert(rows_in(rows@) =~= Seq::empty());
    add_pair(&mut rows, "Disk Read".to_owned(), rate_text_of(io.disk_read_rate));
    add_pair(&mut rows, "Disk Write".to_owned(), rate_text_of(io.disk_write_rate));
    add_pair(&mut rows, "Net RX (Tot)".to_owned(), rate_text_of(io.net_rx_rate));
    add_pair(&mut rows, "Net TX (Tot)".to_owned(), rate_text_of(io.net_tx_rate));
    match disk {
        Some((used, total)) => {
            let mut text = chars_of(human_bytes(used).as_str());
            push_str(&mut text, " / ");
            push_str(&mut text, human_bytes(total).as_str());
            push_str(&mut text, " (");
            push_all(&mut text, decimal_of(disk_percent_of(used, total) as u128).as_slice());
            push_str(&mut text, "%)");
            add_pair(&mut rows, "Disk Space".to_owned(), string_of(text.as_slice()));
        },
        None => {},
    }
    let ghost head = io_head(io@, disk);
    assert(rows_in(rows@) =~= head);
    let list = io.adapter_rates.listed();
    let ghost all = named(list@);
    let mut i: usize = 0;
    assert(head + adapter_rows(all, 0) =~= head);
    while i < list.len()
        invariant
            i <= list@.len(),
            all == named(list@),
            io.wf(),
            is_listing(all, io@.adapter_rates),
            rows_in(rows@) == head + adapter_rows(all, i as nat),
        decreases list.len() - i,
    {
        let entry = &list[i];
        assert(all[i as int] == (entry.0@, entry.1));
        let mut name = chars_of(entry.0.as_str());
        push_str(&mut name, " RX");
        add_pair(&mut rows, string_of(name.as_slice()), rate_text_of(entry.1.0));
        let mut name = chars_of(entry.0.as_str());
        push_str(&mut name, " TX");
        add_pair(&mut rows, string_of(name.as_slice()), rate_text_of(entry.1.1));
        i += 1;
        assert(rows_in(rows@) =~= head + adapter_rows(all, i as nat));
    }
    let panel = pair_panel_of("I/O", Color::Yellow, rows, 50, 50, 2, Some(Color::Cyan));
    assert(panel@ == io_panel(io@, disk, all));
    panel
}

/// A temperature in whole degrees.
pub open spec fn degrees_text(t: int) -> Seq<char> {
    decimal_int(t) + "°C"@
}

fn degrees_text_of(t: i32) -> (out: String)
    ensures
        out@ == degrees_text(t as int),
{
    let mut out = decimal_int_of(t as i64);
    push_str(&mut out, "°C");
    string_of(out.as_slice())
}

/// The rows of temperatures.
pub open spec fn temperature_rows(temps: Seq<(Seq<char>, int)>) -> Seq<Seq<Seq<char>>> {
    temps.map_values(|t: (Seq<char>, int)| seq![t.0, degrees_text(t.1)])
}

/// The texts of pairs of strings.
pub open spec fn sensor_rows(sensors: Seq<(String, String)>) -> Seq<Seq<Seq<char>>> {
    sensors.map_values(|s: (String, String)| seq![s.0@, s.1@])
}

/// The row of the temperature of the graphics unit, where it is known.
pub open spec fn gpu_rows(gpu: Option<i32>) -> Seq<Seq<Seq<char>>> {
    match gpu {
        Some(t) => seq![seq!["GPU"@, degrees_text(t as int)]],
        None => Seq::empty(),
    }
}

/// The rows of the panel of temperatures.
pub open spec fn all_temperature_rows(
    temps: Seq<(Seq<char>, int)>,
    gpu: Option<i32>,
    sensors: Seq<(String, String)>,
) -> Seq<Seq<Seq<char>>> {
    temperature_rows(temps) + gpu_rows(gpu) + sensor_rows(sensors)
}

/// The panel of temperatures, with that of the graphics unit and further
/// sensors where they are known.
pub fn render_temperature_panel(
    temps: &Vec<(String, i32)>,
    gpu: Option<i32>,
    sensors: &Vec<(String, String)>,
) -> (panel: Panel)
    ensures
        panel@ == pair_panel(
            "Temperatures"@,
            Color::Yellow,
            temperature_rows(readings_in(temps@)) + gpu_rows(gpu) + sensor_rows(sensors@),
            60,
            40,
            1,
            Some(Color::Cyan),
        ),
        panel@.body->rows == all_temperature_rows(readings_in(temps@), gpu, sensors@),
{
    let mut rows: Vec<Vec<String>> = Vec::new();
    let ghost all = temperature_rows(readings_in(temps@));
    let mut i: usize = 0;
    assert(rows_in(rows@) =~= all.take(0));
    while i < temps.len()
        invariant
            i <= temps@.len(),
            all == temperature_rows(readings_in(temps@)),
            rows_in(rows@) == all.take(i as int),
        decreases temps.len() - i,
    {
        let entry = &temps[i];
        assert(all[i as int] == seq![entry.0@, degrees_text(entry.1 as int)]);
        add_pair(&mut rows, entry.0.clone(), degrees_text_of(entry.1));
        assert(all.take(i + 1) =~= all.take(i as int).push(all[i as int]));
        i += 1;
    }
    assert(all.take(i as int) =~= all);
    match gpu {
        Some(t) => add_pair(&mut rows, "GPU".to_owned(), degrees_text_of(t)),
        None => {},
    }
    let ghost head = all + gpu_rows(gpu);
    assert(rows_in(rows@) =~= head);
    let ghost more = sensor_rows(sensors@);
    let mut i: usize = 0;
    assert(head + more.take(0) =~= head);
    while i < sensors.len()
        invariant
            i <= sensors@.len(),
            more == sensor_rows(sensors@),
            rows_in(rows@) == head + more.take(i as int),
        decreases sensors.len() - i,
    {
        let entry = &sensors[i];
        assert(more[i as int] == seq![entry.0@, entry.1@]);
        add_pair(&mut rows, entry.0.clone(), entry.1.clone());
        assert(head + more.take(i + 1) =~= (head + more.take(i as int)).push(more[i as int]));
        i += 1;
    }
    assert(more.take(i as int) =~= more);
    pair_panel_of("Temperatures", Color::Yellow, rows, 60, 40, 1, Some(Color::Cyan))
}

/// The name of an order in the line of help.
pub open spec fn sort_name(mode: ProcessSortMode) -> Seq<char> {
    match mode {
        ProcessSortMode::CpuDesc => "CPU↓"@,
        ProcessSortMode::CpuAsc => "CPU↑"@,
        ProcessSortMode::MemoryDesc => "Mem↓"@,
        ProcessSortMode::MemoryAsc => "Mem↑"@,
        ProcessSortMode::PidAsc => "PID↑"@,
        ProcessSortMode::PidDesc => "PID↓"@,
        ProcessSortMode::NameAsc => "Name↑"@,
        ProcessSortMode::NameDesc => "Name↓"@,
    }
}

fn sort_name_of(mode: ProcessSortMode) -> (out: &'static str)
    ensures
        out@ == sort_name(mode),
{
    match mode {
        ProcessSortMode::CpuDesc => "CPU↓",
        ProcessSortMode::CpuAsc => "CPU↑",
        ProcessSortMode::MemoryDesc => "Mem↓",
        ProcessSortMode::MemoryAsc => "Mem↑",
        ProcessSortMode::PidAsc => "PID↑",
        ProcessSortMode::PidDesc => "PID↓",
        ProcessSortMode::NameAsc => "Name↑",
        ProcessSortMode::NameDesc => "Name↓",
    }
}

/// The filter in the line of help: with a cursor while it is typed, and nothing
/// where there is none.
pub open spec fn filter_spans(c: ControlsView) -> Seq<SpanView> {
    if c.filter_mode {
        seq![
            colored_span(": "@, Color::Gray),
            colored_span(c.filter_text, Color::Yellow),
            colored_span("_"@, Color::Yellow),
        ]
    } else if c.filter_text.len() > 0 {
        seq![colored_span(": "@, Color::Gray), colored_span(c.filter_text, Color::Green)]
    } else {
        Seq::empty()
    }
}

/// The line of help.
pub open spec fn help_spans(c: ControlsView) -> Seq<SpanView> {
    seq![
        colored_span("Sort: "@, Color::Gray),
        bold_span("[C]"@, Color::Cyan),
        colored_span("PU  "@, Color::Gray),
        bold_span("[M]"@, Color::Cyan),
        colored_span("em  "@, Color::Gray),
        bold_span("[P]"@, Color::Cyan),
        colored_span("ID  "@, Color::Gray),
        bold_span("[N]"@, Color::Cyan),
        colored_span("ame"@, Color::Gray),
        colored_span("  |  Current: "@, Color::Gray),
        bold_span(sort_name(c.process_sort_mode), Color::Yellow),
        colored_span("  |  "@, Color::Gray),
        bold_span("[/]"@, Color::Cyan),
        colored_span("Filter"@, Color::Gray),
    ] + filter_spans(c) + seq![
        colored_span("  |  "@, Color::Gray),
        bold_span("[Q]"@, Color::Cyan),
        colored_span("uit"@, Color::Gray),
    ]
}

/// The line of help: the keys, the order of the processes and the filter.
pub fn render_help_text(c: &Controls) -> (spans: Vec<Span>)
    ensures
        spans_in(spans@) == help_spans(c@),
{
    let mut spans: Vec<Span> = Vec::new();
    assert(spans_in(spans@) =~= Seq::empty());
    add_span(&mut spans, colored("Sort: ", Color::Gray));
    add_span(&mut spans, bold("[C]", Color::Cyan));
    add_span(&mut spans, colored("PU  ", Color::Gray));
    add_span(&mut spans, bold("[M]", Color::Cyan));
    add_span(&mut spans, colored("em  ", Color::Gray));
    add_span(&mut spans, bold("[P]", Color::Cyan));
    add_span(&mut spans, colored("ID  ", Color::Gray));
    add_span(&mut spans, bold("[N]", Color::Cyan));
    add_span(&mut spans, colored("ame", Color::Gray));
    add_span(&mut spans, colored("  |  Current: ", Color::Gray));
    add_span(&mut spans, bold(sort_name_of(c.process_sort_mode), Color::Yellow));
    add_span(&mut spans, colored("  |  ", Color::Gray));
    add_span(&mut spans, bold("[/]", Color::Cyan));
    add_span(&mut spans, colored("Filter", Color::Gray));
    let filter = chars_of(c.filter_text.as_str());
    if c.filter_mode {
        add_span(&mut spans, colored(": ", Color::Gray));
        add_span(&mut spans, colored(c.filter_text.as_str(), Color::Yellow));
        add_span(&mut spans, colored("_", Color::Yellow));
    } else if filter.len() > 0 {
        add_span(&mut spans, colored(": ", Color::Gray));
        add_span(&mut spans, colored(c.filter_text.as_str(), Color::Green));
    }
    add_span(&mut spans, colored("  |  ", Color::Gray));
    add_span(&mut spans, bold("[Q]", Color::Cyan));
    add_span(&mut spans, colored("uit", Color::Gray));
    assert(spans_in(spans@) =~= help_spans(c@));
    spans
}

/// The panel of rates has the rates of disks and network first, with the space on the
/// disks behind them where it is known, and then two rows for each adapter, for what
/// it receives and for what it transmits.
pub proof fn the_rates_have_their_rows(
    io: IoView,
    disk: Option<(u64, u64)>,
    list: Seq<(Seq<char>, (u64, u64))>,
    i: int,
)
    ensures
        ({
            let rows = io_head(io, disk) + adapter_rows(list, list.len());
            let at: int = if disk is Some {
                5
            } else {
                4
            };
            &&& rows.len() == at + 2 * list.len()
            &&& rows[0] == seq!["Disk Read"@, human_double(io.disk_read_rate) + "/s"@]
            &&& rows[1] == seq!["Disk Write"@, human_double(io.disk_write_rate) + "/s"@]
            &&& rows[2] == seq!["Net RX (Tot)"@, human_double(io.net_rx_rate) + "/s"@]
            &&& rows[3] == seq!["Net TX (Tot)"@, human_double(io.net_tx_rate) + "/s"@]
            &&& disk matches Some((used, total)) ==> rows[4] == seq![
                "Disk Space"@,
                bytes_text(used) + " / "@ + bytes_text(total) + " ("@ + decimal(
                    disk_percent(used, total),
                ) + "%)"@,
            ]
            &&& 0 <= i < list.len() ==> rows[at + 2 * i] == seq![
                list[i].0 + " RX"@,
                human_double(list[i].1.0) + "/s"@,
            ]
            &&& 0 <= i < list.len() ==> rows[at + 2 * i + 1] == seq![
                list[i].0 + " TX"@,
                human_double(list[i].1.1) + "/s"@,
            ]
        }),
{
    lemma_adapter_rows(list, list.len(), i);
}

proof fn lemma_adapter_rows(list: Seq<(Seq<char>, (u64, u64))>, n: nat, i: int)
    requires
        n <= list.len(),
    ensures
        adapter_rows(list, n).len() == 2 * n,
        0 <= i < n ==> adapter_rows(list, n)[2 * i] == seq![
            list[i].0 + " RX"@,
            rate_text(list[i].1.0),
        ] && adapter_rows(list, n)[2 * i + 1] == seq![list[i].0 + " TX"@, rate_text(list[i].1.1)],
    decreases n,
{
    if n > 0 {
        lemma_adapter_rows(list, (n - 1) as nat, i);
    }
}

/// The space that is used on the disks, in percent, is what is used of all there is,
/// the fraction cut off, as far as 32 bits hold it; the share is off by at most eight
/// parts in `2^53`.
pub proof fn the_space_is_cut_off(used: u64, total: u64)
    ensures
        ({
            let p = disk_percent(used, total);
            let h: int = 0x20_0000_0000_0000;
            &&& total > 0 ==> p * total * (h - 8) <= (100 * used) * h
            &&& total > 0 && p < u32::MAX ==> (100 * used) * h < (p + 1) * total * (h + 8)
            &&& total == 0 && used == 0 ==> p == 0
            &&& total == 0 && used > 0 ==> p == u32::MAX
        }),
{
    if total > 0 {
        percentages_are_cut_off(used as nat, total as nat, u32::MAX as nat);
    }
}

/// The panel of temperatures has a row for each reading, in order, then that of the
/// graphics unit where it is known, and then those of the further sensors.
pub proof fn the_temperatures_have_their_rows(
    temps: Seq<(Seq<char>, int)>,
    gpu: Option<i32>,
    sensors: Seq<(String, String)>,
    i: int,
    j: int,
)
    ensures
        ({
            let rows = all_temperature_rows(temps, gpu, sensors);
            let at: int = temps.len() + if gpu is Some {
                1int
            } else {
                0int
            };
            &&& rows.len() == at + sensors.len()
            &&& 0 <= i < temps.len() ==> rows[i] == seq![
                temps[i].0,
                decimal_int(temps[i].1) + seq!['°', 'C'],
            ]
            &&& gpu matches Some(t) ==> rows[temps.len() as int] == seq![
                "GPU"@,
                decimal_int(t as int) + seq!['°', 'C'],
            ]
            &&& 0 <= j < sensors.len() ==> rows[at + j] == seq![sensors[j].0@, sensors[j].1@]
        }),
{
    reveal_strlit("°C");
    assert("°C"@ =~= seq!['°', 'C']);
}

/// The panel of facts has them in this order, each behind its name.
pub proof fn the_facts_have_their_lines(
    uptime_secs: u64,
    one: u64,
    five: u64,
    fifteen: u64,
    governor: Seq<char>,
    processes: usize,
    connections: usize,
)
    ensures
        ({
            let all = stats_lines(
                uptime_secs,
                one,
                five,
                fifteen,
                governor,
                processes,
                connections,
            );
            &&& all.len() == 5
            &&& forall|i: int| 0 <= i < 5 ==> (#[trigger] all[i]).len() == 1
            &&& all[0][0].text == "Uptime:     "@ + uptime(uptime_secs as nat)
            &&& all[1][0].text == "Load Avg:   "@ + double_fixed(one, 2) + " "@ + double_fixed(
                five,
                2,
            ) + " "@ + double_fixed(fifteen, 2)
            &&& all[2][0].text == "Governor:   "@ + governor
            &&& all[3][0].text == "Processes:  "@ + decimal(processes as nat)
            &&& all[4][0].text == "TCP Conns:  "@ + decimal(connections as nat)
        }),
{
}

/// The panel of the system has the board, the chip and the versions on the left, each
/// behind its name, and the host, the kernel and the architecture on the right; a name
/// that could not be read is unknown.
pub proof fn the_system_has_its_rows(
    id: Identity,
    hostname: Option<Seq<char>>,
    kernel: Option<Seq<char>>,
)
    ensures
        ({
            let rows = system_rows(id, hostname, kernel);
            &&& rows.len() == 6
            &&& rows[0][0] == "Board: "@ + id.board_name@
            &&& rows[1][0] == "SoC: "@ + id.rk_model@
            &&& rows[2] == seq!["NPU Driver:    "@ + id.npu_version@, "Arch: "@ + id.cpu_arch@]
            &&& rows[3][0] == "RGA Driver:    "@ + id.rga_version@
            &&& rows[4][0] == "RKNN Runtime:  "@ + id.rknn_version@
            &&& rows[5][0] == "RKLLM Runtime: "@ + id.rkllm_version@
            &&& forall|i: int| 0 <= i < 6 ==> (#[trigger] rows[i]).len() == 2
            &&& forall|i: int| 3 <= i < 6 ==> (#[trigger] rows[i])[1].len() == 0
            &&& hostname matches Some(h) ==> rows[0][1] == "Host: "@ + trim(h)
            &&& hostname is None ==> rows[0][1] == "Host: "@ + "Unknown"@
            &&& kernel matches Some(k) ==> rows[1][1] == "Kernel: "@ + trim(k)
            &&& kernel is None ==> rows[1][1] == "Kernel: "@ + "Unknown"@
        }),
{
}

/// The line of help names the order of the processes, with an arrow for its direction,
/// and shows the filter: with a cursor behind it while it is typed, as it is where
/// there is one, and not at all where there is none.
pub proof fn the_help_shows_order_and_filter(c: ControlsView)
    ensures
        ({
            let all = help_spans(c);
            &&& all.len() == if c.filter_mode {
                20int
            } else if c.filter_text.len() > 0 {
                19int
            } else {
                17int
            }
            &&& all[10].text == (match c.process_sort_mode {
                ProcessSortMode::CpuDesc => seq!['C', 'P', 'U', '↓'],
                ProcessSortMode::CpuAsc => seq!['C', 'P', 'U', '↑'],
                ProcessSortMode::MemoryDesc => seq!['M', 'e', 'm', '↓'],
                ProcessSortMode::MemoryAsc => seq!['M', 'e', 'm', '↑'],
                ProcessSortMode::PidAsc => seq!['P', 'I', 'D', '↑'],
                ProcessSortMode::PidDesc => seq!['P', 'I', 'D', '↓'],
                ProcessSortMode::NameAsc => seq!['N', 'a', 'm', 'e', '↑'],
                ProcessSortMode::NameDesc => seq!['N', 'a', 'm', 'e', '↓'],
            })
            &&& c.filter_mode || c.filter_text.len() > 0 ==> all[15].text == c.filter_text
            &&& c.filter_mode ==> all[16].text == seq!['_']
            &&& c.filter_mode ==> all[15].style.color == Some(Color::Yellow)
            &&& !c.filter_mode && c.filter_text.len() > 0 ==> all[15].style.color == Some(
                Color::Green,
            )
            &&& all[10].style.bold && all[10].style.color == Some(Color::Yellow)
            &&& all[1].text == "[C]"@ && all[3].text == "[M]"@ && all[5].text == "[P]"@
            &&& all[7].text == "[N]"@ && all[12].text == "[/]"@
            &&& all[all.len() - 2].text == "[Q]"@
            &&& all[1].style.bold && all[3].style.bold && all[5].style.bold && all[7].style.bold
            &&& all[12].style.bold && all[all.len() - 2].style.bold
        }),
{
    reveal_strlit("CPU↓");
    reveal_strlit("CPU↑");
    reveal_strlit("Mem↓");
    reveal_strlit("Mem↑");
    reveal_strlit("PID↑");
    reveal_strlit("PID↓");
    reveal_strlit("Name↑");
    reveal_strlit("Name↓");
    reveal_strlit("_");
    assert("CPU↓"@ =~= seq!['C', 'P', 'U', '↓']);
    assert("CPU↑"@ =~= seq!['C', 'P', 'U', '↑']);
    assert("Mem↓"@ =~= seq!['M', 'e', 'm', '↓']);
    assert("Mem↑"@ =~= seq!['M', 'e', 'm', '↑']);
    assert("PID↑"@ =~= seq!['P', 'I', 'D', '↑']);
    assert("PID↓"@ =~= seq!['P', 'I', 'D', '↓']);
    assert("Name↑"@ =~= seq!['N', 'a', 'm', 'e', '↑']);
    assert("Name↓"@ =~= seq!['N', 'a', 'm', 'e', '↓']);
    assert("_"@ =~= seq!['_']);
}

/// A panel of pairs holds the rows that it is given, and the panel of rates holds those
/// of disks and network and of the adapters.
pub proof fn panels_hold_their_rows(
    title: Seq<char>,
    rows: Seq<Seq<Seq<char>>>,
    left: u16,
    right: u16,
    io: IoView,
    disk: Option<(u64, u64)>,
    list: Seq<(Seq<char>, (u64, u64))>,
)
    ensures
        pair_panel(title, Color::Red, rows, left, right, 1, None).title == title,
        pair_panel(title, Color::Red, rows, left, right, 1, None).body->rows == rows,
        pair_panel(title, Color::Red, rows, left, right, 1, None).body->widths == seq![
            Extent::Percentage(left),
            Extent::Percentage(right),
        ],
        pair_panel(title, Color::Red, rows, left, right, 1, None).body->header.len() == 0,
        io_panel(io, disk, list).body->rows == io_head(io, disk) + adapter_rows(list, list.len()),
        line_panel(title, Color::Red, Seq::empty()).body == BodyView::Lines(Seq::empty()),
{
}

} // verus!
