//! The table of processes: which are shown, in which rows and under which
//! headings.

use std::collections::HashSet;

use vstd::prelude::*;

use crate::hardware::strings;
use crate::number::{decimal, decimal_int, decimal_int_of, decimal_of, pad_left, padded_left};
use crate::order::{are_the_places, lemma_places_extend};
use crate::outside::{lowercase, lowercase_of};
use crate::process::{infos_in, InfoView, ProcessInfo, ProcessSortMode};
use crate::rounding::{single_fixed, single_fixed_of};
use crate::screen::{
    add_row, add_span, heading, heading_of, rows_in, spans_in, Body, BodyView, Color, Extent, Panel,
    PanelView, Span, SpanView, Table,
};
use crate::text::{
    a_text_holds_its_parts, chars_of, contains, find, has_part, push_all, push_str, string_of,
};
use crate::units::{runtime, runtime_text};

verus! {

/// How many processes are asked for in a panel of the given height: three for
/// each row that is left beside border, heading and margin, but at least 20.
pub open spec fn process_count(height: nat) -> nat {
    if height < 4 || 3 * (height - 4) < 20 {
        20
    } else {
        (3 * (height - 4)) as nat
    }
}

/// How many processes are asked for in a panel of the given height.
pub fn process_count_of(height: u16) -> (r: usize)
    ensures
        r == process_count(height as nat),
{
    let rows: usize = if height < 4 {
        0
    } else {
        (height - 4) as usize
    };
    if 3 * rows < 20 {
        20
    } else {
        3 * rows
    }
}

/// Whether a process with this name and user is shown under the filter, all
/// three in lower case.
pub open spec fn passes(name: Seq<char>, user: Seq<char>, filter: Seq<char>) -> bool {
    filter.len() == 0 || contains(name, filter) || contains(user, filter)
}

/// Whether a process with this name and user is shown under the filter.
pub fn passes_filter(name: &str, user: &str, filter: &str) -> (r: bool)
    ensures
        r == passes(name@, user@, filter@),
{
    let filter = chars_of(filter);
    if filter.len() == 0 {
        return true;
    }
    let name = chars_of(name);
    let user = chars_of(user);
    find(name.as_slice(), filter.as_slice()).is_some() || find(
        user.as_slice(),
        filter.as_slice(),
    ).is_some()
}

/// Whether a process is shown under the filter, which stands in its name or in
/// the name of its user without regard to case.
pub open spec fn shown(p: InfoView, filter: Seq<char>) -> bool {
    passes(lowercase(p.name), lowercase(p.user), lowercase(filter))
}

/// The processes that are shown under the filter, in order.
pub open spec fn filtered(infos: Seq<InfoView>, filter: Seq<char>) -> Seq<InfoView> {
    infos.filter(|p: InfoView| shown(p, filter))
}

fn kept_positions(infos: &Vec<ProcessInfo>, filter: &str) -> (kept: Vec<usize>)
    ensures
        forall|k: int| 0 <= k < kept@.len() ==> #[trigger] kept@[k] < infos@.len(),
        picked(infos_in(infos@), kept@) == filtered(infos_in(infos@), filter@),
        filter@.len() == 0 ==> filtered(infos_in(infos@), filter@) == infos_in(infos@),
{
    reveal(Seq::filter);
    let ghost all = infos_in(infos@);
    let ghost pred = |p: InfoView| shown(p, filter@);
    let lower = lowercase_of(filter);
    proof {
        if filter@.len() == 0 {
            a_filter_without_letters_shows_all(all, filter@);
        }
    }
    let mut kept: Vec<usize> = Vec::new();
    let mut i: usize = 0;
    assert(picked(all, kept@) =~= all.take(0).filter(pred));
    while i < infos.len()
        invariant
            i <= infos@.len(),
            all == infos_in(infos@),
            pred == (|p: InfoView| shown(p, filter@)),
            lower@ == lowercase(filter@),
            forall|k: int| 0 <= k < kept@.len() ==> #[trigger] kept@[k] < infos@.len(),
            picked(all, kept@) == all.take(i as int).filter(pred),
        decreases infos.len() - i,
    {
        let p = &infos[i];
        reveal(Seq::filter);
        assert(all.take(i + 1).drop_last() == all.take(i as int));
        assert(all.take(i + 1).last() == p@);
        let name = lowercase_of(p.name.as_str());
        let user = lowercase_of(p.user.as_str());
        if passes_filter(name.as_str(), user.as_str(), lower.as_str()) {
            let ghost before = kept@;
            kept.push(i);
            assert(picked(all, kept@) =~= picked(all, before).push(p@));
        }
        i += 1;
    }
    assert(all.take(i as int) == all);
    kept
}

/// The items at the given positions.
spec fn picked(all: Seq<InfoView>, at: Seq<usize>) -> Seq<InfoView> {
    Seq::new(at.len(), |k: int| all[at[k] as int])
}

/// The cells that the rows of processes and of threads have in common: those
/// of the state, the nice value and the core, and from the time on.
pub open spec fn process_row(
    pid: Seq<char>,
    user: Seq<char>,
    threads: Seq<char>,
    name: Seq<char>,
    p: InfoView,
) -> Seq<Seq<char>> {
    seq![
        pid,
        user,
        seq![p.state],
        padded_left(decimal_int(p.nice as int), ' ', 3),
        decimal(p.cpu_core as nat),
        threads,
        runtime(p.runtime as nat),
        name,
        single_fixed(p.cpu, 1),
        single_fixed(p.mem, 1),
    ]
}

/// The row of a process.
pub open spec fn main_row(p: InfoView) -> Seq<Seq<char>> {
    process_row(
        decimal(p.pid as nat),
        p.user,
        decimal(p.num_threads as nat),
        p.name,
        p,
    )
}

/// The row of a thread under its process, with a branch that ends at the last.
pub open spec fn thread_row(t: InfoView, last: bool) -> Seq<Seq<char>> {
    let branch = if last {
        " └─"@
    } else {
        " ├─"@
    };
    process_row(
        branch + decimal(t.pid as nat),
        Seq::empty(),
        Seq::empty(),
        t.name + " [thread]"@,
        t,
    )
}

/// The threads of a process, in order.
pub open spec fn threads_of(infos: Seq<InfoView>, pid: u32) -> Seq<InfoView> {
    infos.filter(|t: InfoView| t.is_thread && t.thread_group_id == pid)
}

/// The rows of threads.
pub open spec fn thread_rows(threads: Seq<InfoView>) -> Seq<Seq<Seq<char>>> {
    Seq::new(threads.len(), |i: int| thread_row(threads[i], i == threads.len() - 1))
}

/// Whether position `i` has the first process with its number.
pub open spec fn leads(infos: Seq<InfoView>, i: int) -> bool {
    !infos[i].is_thread && forall|j: int|
        0 <= j < i ==> (#[trigger] infos[j]).is_thread || infos[j].pid != infos[i].pid
}

/// The rows for the first `n` items: each process once, its threads under it.
pub open spec fn grouped_rows(infos: Seq<InfoView>, n: nat) -> Seq<Seq<Seq<char>>>
    decreases n,
{
    if n == 0 {
        Seq::empty()
    } else {
        let before = grouped_rows(infos, (n - 1) as nat);
        let p = infos[n - 1];
        if leads(infos, n - 1) {
            before + (seq![main_row(p)] + thread_rows(threads_of(infos, p.pid)))
        } else {
            before
        }
    }
}

/// The rows of the table: the processes that pass the filter, each with the
/// threads that pass it under it.
pub open spec fn table_rows(infos: Seq<InfoView>, filter: Seq<char>) -> Seq<Seq<Seq<char>>> {
    let kept = filtered(infos, filter);
    grouped_rows(kept, kept.len())
}

fn row_of(
    pid: String,
    user: String,
    threads: String,
    name: String,
    p: &ProcessInfo,
) -> (row: Vec<String>)
    ensures
        strings(row@) == process_row(pid@, user@, threads@, name@, p@),
{
    let ghost wanted = process_row(pid@, user@, threads@, name@, p@);
    let mut row: Vec<String> = Vec::new();
    row.push(pid);
    row.push(user);
    let mut state: Vec<char> = Vec::new();
    state.push(p.state);
    assert(state@ =~= seq![p.state]);
    row.push(string_of(state.as_slice()));
    let nice = decimal_int_of(p.nice as i64);
    let nice = pad_left(nice.as_slice(), ' ', 3);
    row.push(string_of(nice.as_slice()));
    row.push(string_of(decimal_of(p.cpu_core as u128).as_slice()));
    row.push(threads);
    row.push(runtime_text(p.runtime));
    row.push(name);
    row.push(string_of(single_fixed_of(p.cpu, 1).as_slice()));
    row.push(string_of(single_fixed_of(p.mem, 1).as_slice()));
    assert(strings(row@) =~= wanted);
    row
}

fn main_row_of(p: &ProcessInfo) -> (row: Vec<String>)
    ensures
        strings(row@) == main_row(p@),
{
    let pid = string_of(decimal_of(p.pid as u128).as_slice());
    let threads = string_of(decimal_of(p.num_threads as u128).as_slice());
    row_of(pid, p.user.clone(), threads, p.name.clone(), p)
}

fn thread_row_of(t: &ProcessInfo, last: bool) -> (row: Vec<String>)
    ensures
        strings(row@) == thread_row(t@, last),
{
    let mut pid: Vec<char> = if last {
        chars_of(" └─")
    } else {
        chars_of(" ├─")
    };
    let number = decimal_of(t.pid as u128);
    push_all(&mut pid, number.as_slice());
    let mut name = chars_of(t.name.as_str());
    push_str(&mut name, " [thread]");
    let user = String::new();
    let threads = String::new();
    assert(user@ =~= Seq::empty());
    row_of(string_of(pid.as_slice()), user, threads, string_of(name.as_slice()), t)
}

fn thread_positions(infos: &Vec<ProcessInfo>, kept: &Vec<usize>, pid: u32) -> (at: Vec<usize>)
    requires
        forall|k: int| 0 <= k < kept@.len() ==> #[trigger] kept@[k] < infos@.len(),
    ensures
        forall|k: int| 0 <= k < at@.len() ==> #[trigger] at@[k] < infos@.len(),
        picked(infos_in(infos@), at@) == threads_of(picked(infos_in(infos@), kept@), pid),
{
    reveal(Seq::filter);
    let ghost all = infos_in(infos@);
    let ghost list = picked(all, kept@);
    let ghost pred = |t: InfoView| t.is_thread && t.thread_group_id == pid;
    let mut at: Vec<usize> = Vec::new();
    let mut i: usize = 0;
    assert(picked(all, at@) =~= list.take(0).filter(pred));
    while i < kept.len()
        invariant
            i <= kept@.len(),
            all == infos_in(infos@),
            list == picked(all, kept@),
            pred == (|t: InfoView| t.is_thread && t.thread_group_id == pid),
            forall|k: int| 0 <= k < kept@.len() ==> #[trigger] kept@[k] < infos@.len(),
            forall|k: int| 0 <= k < at@.len() ==> #[trigger] at@[k] < infos@.len(),
            picked(all, at@) == list.take(i as int).filter(pred),
        decreases kept.len() - i,
    {
        let t = &infos[kept[i]];
        reveal(Seq::filter);
        assert(list.take(i + 1).drop_last() == list.take(i as int));
        assert(list.take(i + 1).last() == t@);
        if t.is_thread && t.thread_group_id == pid {
            let ghost before = at@;
            at.push(kept[i]);
            assert(picked(all, at@) =~= picked(all, before).push(t@));
        }
        i += 1;
    }
    assert(list.take(i as int) == list);
    at
}

fn add_thread_rows(rows: &mut Vec<Vec<String>>, infos: &Vec<ProcessInfo>, at: &Vec<usize>)
    requires
        forall|k: int| 0 <= k < at@.len() ==> #[trigger] at@[k] < infos@.len(),
    ensures
        rows_in(final(rows)@) == rows_in(old(rows)@) + thread_rows(
            picked(infos_in(infos@), at@),
        ),
{
    let ghost before = rows_in(rows@);
    let ghost wanted = thread_rows(picked(infos_in(infos@), at@));
    let mut i: usize = 0;
    assert(before + wanted.take(0) =~= before);
    while i < at.len()
        invariant
            i <= at@.len(),
            forall|k: int| 0 <= k < at@.len() ==> #[trigger] at@[k] < infos@.len(),
            wanted == thread_rows(picked(infos_in(infos@), at@)),
            rows_in(rows@) == before + wanted.take(i as int),
        decreases at.len() - i,
    {
        let row = thread_row_of(&infos[at[i]], i == at.len() - 1);
        assert(strings(row@) == wanted[i as int]);
        add_row(rows, row);
        assert(before + wanted.take(i + 1) =~= (before + wanted.take(i as int)).push(
            wanted[i as int],
        ));
        i += 1;
    }
    assert(wanted.take(i as int) =~= wanted);
}

/// The rows of the table of processes. An empty filter shows all of them.
pub fn process_rows(infos: &Vec<ProcessInfo>, filter: &str) -> (rows: Vec<Vec<String>>)
    ensures
        rows_in(rows@) == table_rows(infos_in(infos@), filter@),
        filter@.len() == 0 ==> rows_in(rows@) == grouped_rows(infos_in(infos@), infos@.len()),
{
    broadcast use vstd::std_specs::hash::group_hash_axioms;

    let kept = kept_positions(infos, filter);
    let ghost list = filtered(infos_in(infos@), filter@);
    let mut rows: Vec<Vec<String>> = Vec::new();
    let mut seen: HashSet<u32> = HashSet::new();
    let mut i: usize = 0;
    assert(rows_in(rows@) =~= grouped_rows(list, 0));
    while i < kept.len()
        invariant
            i <= kept@.len(),
            forall|k: int| 0 <= k < kept@.len() ==> #[trigger] kept@[k] < infos@.len(),
            list == picked(infos_in(infos@), kept@),
            forall|pid: u32|
                #[trigger] seen@.contains(pid) <==> exists|j: int|
                    0 <= j < i && !(#[trigger] list[j]).is_thread && list[j].pid == pid,
            rows_in(rows@) == grouped_rows(list, i as nat),
        decreases kept.len() - i,
    {
        let p = &infos[kept[i]];
        assert(list[i as int] == p@);
        let ghost before = rows_in(rows@);
        let ghost old_seen = seen@;
        if !p.is_thread && !seen.contains(&p.pid) {
            assert(leads(list, i as int)) by {
                assert forall|j: int| 0 <= j < i implies (#[trigger] list[j]).is_thread
                    || list[j].pid != p.pid by {
                    if !list[j].is_thread && list[j].pid == p.pid {
                        assert(seen@.contains(p.pid));
                    }
                }
            }
            seen.insert(p.pid);
            add_row(&mut rows, main_row_of(p));
            let at = thread_positions(infos, &kept, p.pid);
            add_thread_rows(&mut rows, infos, &at);
            assert(rows_in(rows@) =~= before + (seq![main_row(p@)] + thread_rows(
                threads_of(list, p.pid),
            )));
            assert(rows_in(rows@) == grouped_rows(list, (i + 1) as nat));
        } else {
            assert(!leads(list, i as int));
            assert(rows_in(rows@) == grouped_rows(list, (i + 1) as nat));
        }
        assert forall|pid: u32| #[trigger]
            seen@.contains(pid) <==> exists|j: int|
                0 <= j < i + 1 && !(#[trigger] list[j]).is_thread && list[j].pid == pid by {
            if seen@.contains(pid) {
                if old_seen.contains(pid) {
                    let j = choose|j: int|
                        0 <= j < i && !(#[trigger] list[j]).is_thread && list[j].pid == pid;
                    assert(0 <= j < i + 1 && !list[j].is_thread && list[j].pid == pid);
                } else {
                    assert(!list[i as int].is_thread && list[i as int].pid == pid);
                }
            }
            if exists|j: int| 0 <= j < i + 1 && !(#[trigger] list[j]).is_thread && list[j].pid == pid
            {
                let j = choose|j: int|
                    0 <= j < i + 1 && !(#[trigger] list[j]).is_thread && list[j].pid == pid;
                if j < i {
                    assert(old_seen.contains(pid));
                }
            }
        }
        i += 1;
    }
    rows
}

/// The heading of a column with the letters of its name, and an arrow where the
/// table is ordered by it: upward for rising, downward for falling order.
pub open spec fn sorted_heading(
    name: Seq<char>,
    rising: Seq<char>,
    falling: Seq<char>,
    mode: ProcessSortMode,
    up: ProcessSortMode,
    down: ProcessSortMode,
) -> SpanView {
    if mode == up {
        heading(rising, true)
    } else if mode == down {
        heading(falling, true)
    } else {
        heading(name, false)
    }
}

/// The headings of the table.
pub open spec fn headings(mode: ProcessSortMode) -> Seq<SpanView> {
    seq![
        sorted_heading(
            "PID"@,
            "PID↑"@,
            "PID↓"@,
            mode,
            ProcessSortMode::PidAsc,
            ProcessSortMode::PidDesc,
        ),
        heading("User"@, false),
        heading("S"@, false),
        heading("NI"@, false),
        heading("C"@, false),
        heading("THR"@, false),
        heading("Time"@, false),
        sorted_heading(
            "Name"@,
            "Name↑"@,
            "Name↓"@,
            mode,
            ProcessSortMode::NameAsc,
            ProcessSortMode::NameDesc,
        ),
        sorted_heading(
            "CPU%"@,
            "CPU%↑"@,
            "CPU%↓"@,
            mode,
            ProcessSortMode::CpuAsc,
            ProcessSortMode::CpuDesc,
        ),
        sorted_heading(
            "Mem%"@,
            "Mem%↑"@,
            "Mem%↓"@,
            mode,
            ProcessSortMode::MemoryAsc,
            ProcessSortMode::MemoryDesc,
        ),
    ]
}

fn sorted_heading_of(
    name: &str,
    rising: &str,
    falling: &str,
    mode: ProcessSortMode,
    up: ProcessSortMode,
    down: ProcessSortMode,
) -> (s: Span)
    ensures
        s@ == sorted_heading(name@, rising@, falling@, mode, up, down),
{
    if mode == up {
        heading_of(rising, true)
    } else if mode == down {
        heading_of(falling, true)
    } else {
        heading_of(name, false)
    }
}

/// The headings of the table.
pub fn headings_of(mode: ProcessSortMode) -> (header: Vec<Span>)
    ensures
        spans_in(header@) == headings(mode),
{
    let mut header: Vec<Span> = Vec::new();
    assert(spans_in(header@) =~= Seq::empty());
    add_span(
        &mut header,
        sorted_heading_of(
            "PID",
            "PID↑",
            "PID↓",
            mode,
            ProcessSortMode::PidAsc,
            ProcessSortMode::PidDesc,
        ),
    );
    add_span(&mut header, heading_of("User", false));
    add_span(&mut header, heading_of("S", false));
    add_span(&mut header, heading_of("NI", false));
    add_span(&mut header, heading_of("C", false));
    add_span(&mut header, heading_of("THR", false));
    add_span(&mut header, heading_of("Time", false));
    add_span(
        &mut header,
        sorted_heading_of(
            "Name",
            "Name↑",
            "Name↓",
            mode,
            ProcessSortMode::NameAsc,
            ProcessSortMode::NameDesc,
        ),
    );
    add_span(
        &mut header,
        sorted_heading_of(
            "CPU%",
            "CPU%↑",
            "CPU%↓",
            mode,
            ProcessSortMode::CpuAsc,
            ProcessSortMode::CpuDesc,
        ),
    );
    add_span(
        &mut header,
        sorted_heading_of(
            "Mem%",
            "Mem%↑",
            "Mem%↓",
            mode,
            ProcessSortMode::MemoryAsc,
            ProcessSortMode::MemoryDesc,
        ),
    );
    assert(spans_in(header@) =~= headings(mode));
    header
}

/// The widths of the columns.
pub open spec fn column_widths() -> Seq<Extent> {
    seq![
        Extent::Length(11),
        Extent::Length(10),
        Extent::Length(2),
        Extent::Length(4),
        Extent::Length(2),
        Extent::Length(4),
        Extent::Length(9),
        Extent::Percentage(45),
        Extent::Length(6),
        Extent::Length(6),
    ]
}

/// The panel of processes.
pub open spec fn process_panel(
    infos: Seq<InfoView>,
    filter: Seq<char>,
    mode: ProcessSortMode,
) -> PanelView {
    PanelView {
        title: "Processes"@,
        border: Color::Magenta,
        body: BodyView::Table {
            header: headings(mode),
            rows: table_rows(infos, filter),
            widths: column_widths(),
            header_margin: 1,
            spacing: 1,
            color: None,
        },
    }
}

/// The panel of processes.
pub fn render_process_panel(
    infos: &Vec<ProcessInfo>,
    filter: &str,
    mode: ProcessSortMode,
) -> (panel: Panel)
    ensures
        panel@ == process_panel(infos_in(infos@), filter@, mode),
        filter@.len() == 0 ==> panel@.body->rows == grouped_rows(
            infos_in(infos@),
            infos@.len(),
        ),
{
    let widths: Vec<Extent> =
        vec![
            Extent::Length(11),
            Extent::Length(10),
            Extent::Length(2),
            Extent::Length(4),
            Extent::Length(2),
            Extent::Length(4),
            Extent::Length(9),
            Extent::Percentage(45),
            Extent::Length(6),
            Extent::Length(6),
        ];
    assert(widths@ =~= column_widths());
    Panel {
        title: "Processes".to_owned(),
        border: Color::Magenta,
        body: Body::Table(
            Table {
                header: headings_of(mode),
                rows: process_rows(infos, filter),
                widths,
                header_margin: 1,
                spacing: 1,
                color: None,
            },
        ),
    }
}

/// Every process among the items leads exactly one group of rows.
pub proof fn every_process_leads_once(infos: Seq<InfoView>, i: int) -> (first: int)
    requires
        0 <= i < infos.len(),
        !infos[i].is_thread,
    ensures
        0 <= first <= i,
        leads(infos, first),
        infos[first].pid == infos[i].pid,
        forall|k: int|
            0 <= k < infos.len() && #[trigger] leads(infos, k) && infos[k].pid == infos[i].pid
                ==> k == first,
    decreases i,
{
    if leads(infos, i) {
        assert forall|k: int|
            0 <= k < infos.len() && #[trigger] leads(infos, k) && infos[k].pid
                == infos[i].pid implies k == i by {
            if k < i {
                assert(infos[k].is_thread || infos[k].pid != infos[i].pid);
            } else if k > i {
                assert(infos[i].is_thread || infos[i].pid != infos[k].pid);
            }
        }
        i
    } else {
        let j = choose|j: int|
            0 <= j < i && !(#[trigger] infos[j]).is_thread && infos[j].pid == infos[i].pid;
        every_process_leads_once(infos, j)
    }
}

proof fn lemma_rows_prefix(infos: Seq<InfoView>, n: nat, m: nat)
    requires
        n <= m,
    ensures
        grouped_rows(infos, n).len() <= grouped_rows(infos, m).len(),
        grouped_rows(infos, m).take(grouped_rows(infos, n).len() as int) == grouped_rows(infos, n),
    decreases m,
{
    if n < m {
        lemma_rows_prefix(infos, n, (m - 1) as nat);
        let before = grouped_rows(infos, (m - 1) as nat);
        let k = grouped_rows(infos, n).len() as int;
        assert(grouped_rows(infos, m).take(k) =~= before.take(k));
    } else {
        assert(grouped_rows(infos, m).take(grouped_rows(infos, m).len() as int) =~= grouped_rows(
            infos,
            m,
        ));
    }
}

/// The threads of a process stand directly under its row, in order, and only
/// the last of them has the branch that ends.
pub proof fn threads_stand_under_their_process(infos: Seq<InfoView>, i: int, k: int)
    requires
        0 <= i < infos.len(),
        leads(infos, i),
        0 <= k < threads_of(infos, infos[i].pid).len(),
    ensures
        ({
            let rows = grouped_rows(infos, infos.len());
            let at = grouped_rows(infos, i as nat).len();
            let threads = threads_of(infos, infos[i].pid);
            &&& at + threads.len() < rows.len()
            &&& rows[at as int] == main_row(infos[i])
            &&& rows[at + 1 + k] == thread_row(threads[k], k == threads.len() - 1)
        }),
{
    let rows = grouped_rows(infos, infos.len());
    let at = grouped_rows(infos, i as nat).len();
    let next = grouped_rows(infos, (i + 1) as nat);
    lemma_rows_prefix(infos, (i + 1) as nat, infos.len());
    assert(rows[at as int] == rows.take(next.len() as int)[at as int]);
    assert(rows[at + 1 + k] == rows.take(next.len() as int)[at + 1 + k]);
}

/// A process is shown under a filter if and only if it is among those asked for
/// and passes the filter.
pub proof fn the_filter_decides(infos: Seq<InfoView>, filter: Seq<char>, p: InfoView)
    ensures
        filtered(infos, filter).contains(p) <==> infos.contains(p) && shown(p, filter),
    decreases infos.len(),
{
    reveal(Seq::filter);
    if infos.len() > 0 {
        let rest = infos.drop_last();
        the_filter_decides(rest, filter, p);
        assert(infos =~= rest.push(infos.last()));
        assert(infos.contains(p) <==> rest.contains(p) || p == infos.last()) by {
            if rest.contains(p) {
                let i = choose|i: int| 0 <= i < rest.len() && rest[i] == p;
                assert(infos[i] == p);
            }
            if p == infos.last() {
                assert(infos[infos.len() - 1] == p);
            }
            if infos.contains(p) {
                let i = choose|i: int| 0 <= i < infos.len() && infos[i] == p;
                if i < rest.len() {
                    assert(rest[i] == p);
                }
            }
        }
        let kept = filtered(rest, filter);
        if shown(infos.last(), filter) {
            let all = kept.push(infos.last());
            assert(filtered(infos, filter) == all);
            assert(all.contains(p) <==> kept.contains(p) || p == infos.last()) by {
                if kept.contains(p) {
                    let i = choose|i: int| 0 <= i < kept.len() && kept[i] == p;
                    assert(all[i] == p);
                }
                if p == infos.last() {
                    assert(all[kept.len() as int] == p);
                }
                if all.contains(p) {
                    let i = choose|i: int| 0 <= i < all.len() && all[i] == p;
                    if i < kept.len() {
                        assert(kept[i] == p);
                    }
                }
            }
        }
    }
}

/// A filter that has no letters in lower case shows all processes.
pub proof fn a_filter_without_letters_shows_all(infos: Seq<InfoView>, filter: Seq<char>)
    requires
        lowercase(filter).len() == 0,
    ensures
        filtered(infos, filter) == infos,
    decreases infos.len(),
{
    reveal(Seq::filter);
    if infos.len() > 0 {
        a_filter_without_letters_shows_all(infos.drop_last(), filter);
        assert(infos =~= infos.drop_last().push(infos.last()));
    }
}

/// The positions of the processes in whose name, or in the name of whose user,
/// the filter stands at any place, without regard to case.
pub open spec fn with_filter(infos: Seq<InfoView>, filter: Seq<char>) -> spec_fn(int) -> bool {
    |i: int|
        has_part(lowercase(infos[i].name), lowercase(filter)) || has_part(
            lowercase(infos[i].user),
            lowercase(filter),
        )
}

proof fn lemma_shown(p: InfoView, filter: Seq<char>)
    ensures
        shown(p, filter) <==> has_part(lowercase(p.name), lowercase(filter)) || has_part(
            lowercase(p.user),
            lowercase(filter),
        ),
{
    let f = lowercase(filter);
    a_text_holds_its_parts(lowercase(p.name), f);
    a_text_holds_its_parts(lowercase(p.user), f);
    if f.len() == 0 {
        let name = lowercase(p.name);
        assert(name + f + Seq::<char>::empty() =~= name);
    }
}

proof fn lemma_kept(infos: Seq<InfoView>, filter: Seq<char>, n: int) -> (at: Seq<int>)
    requires
        0 <= n <= infos.len(),
    ensures
        are_the_places(at, n, with_filter(infos, filter)),
        infos.take(n).filter(|p: InfoView| shown(p, filter)) == at.map_values(|i: int| infos[i]),
    decreases n,
{
    reveal(Seq::filter);
    let pred = |p: InfoView| shown(p, filter);
    if n == 0 {
        let none = Seq::<int>::empty();
        assert(infos.take(0).filter(pred) =~= none.map_values(|i: int| infos[i]));
        none
    } else {
        let at = lemma_kept(infos, filter, n - 1);
        assert(infos.take(n).drop_last() =~= infos.take(n - 1));
        assert(infos.take(n).last() == infos[n - 1]);
        lemma_shown(infos[n - 1], filter);
        lemma_places_extend(at, n - 1, with_filter(infos, filter));
        if with_filter(infos, filter)(n - 1) {
            let next = at.push(n - 1);
            assert(next.map_values(|i: int| infos[i]) =~= at.map_values(|i: int| infos[i]).push(
                infos[n - 1],
            ));
            next
        } else {
            at
        }
    }
}

/// A filter keeps the processes in which it stands, all of them and no others,
/// in their order: at any place in the name, or in the name of the user.
pub proof fn a_filter_keeps_what_it_stands_in(infos: Seq<InfoView>, filter: Seq<char>) -> (at: Seq<
    int,
>)
    ensures
        are_the_places(at, infos.len() as int, with_filter(infos, filter)),
        filtered(infos, filter) == at.map_values(|i: int| infos[i]),
{
    let at = lemma_kept(infos, filter, infos.len() as int);
    assert(infos.take(infos.len() as int) =~= infos);
    at
}

/// The cells of the row of a process, and of that of a thread under it.
pub open spec fn cells_of_row(p: InfoView, thread: bool, last: bool) -> Seq<Seq<char>> {
    seq![
        if !thread {
            decimal(p.pid as nat)
        } else if last {
            seq![' ', '└', '─'] + decimal(p.pid as nat)
        } else {
            seq![' ', '├', '─'] + decimal(p.pid as nat)
        },
        if thread {
            Seq::empty()
        } else {
            p.user
        },
        seq![p.state],
        padded_left(decimal_int(p.nice as int), ' ', 3),
        decimal(p.cpu_core as nat),
        if thread {
            Seq::empty()
        } else {
            decimal(p.num_threads as nat)
        },
        runtime(p.runtime as nat),
        if thread {
            p.name + seq![' ', '[', 't', 'h', 'r', 'e', 'a', 'd', ']']
        } else {
            p.name
        },
        single_fixed(p.cpu, 1),
        single_fixed(p.mem, 1),
    ]
}

/// The rows of the process at the first of the positions, with the threads at
/// the others under it.
pub open spec fn rows_of_group(list: Seq<InfoView>, group: (int, Seq<int>)) -> Seq<Seq<Seq<char>>> {
    seq![cells_of_row(list[group.0], false, false)] + Seq::new(
        group.1.len(),
        |k: int| cells_of_row(list[group.1[k]], true, k == group.1.len() - 1),
    )
}

/// The positions of the processes, each number once: where it comes up first.
pub open spec fn first_with_number(list: Seq<InfoView>) -> spec_fn(int) -> bool {
    |i: int|
        !list[i].is_thread && forall|j: int|
            0 <= j < i && !(#[trigger] list[j]).is_thread ==> list[j].pid != list[i].pid
}

/// The positions of the threads of a process.
pub open spec fn threads_with(list: Seq<InfoView>, pid: u32) -> spec_fn(int) -> bool {
    |i: int| list[i].is_thread && list[i].thread_group_id == pid
}

/// Whether the groups are those of a list: a group for each process where it
/// comes up first, with all its threads, all in order.
pub open spec fn are_the_groups(groups: Seq<(int, Seq<int>)>, list: Seq<InfoView>, n: int) -> bool {
    &&& are_the_places(groups.map_values(|g: (int, Seq<int>)| g.0), n, first_with_number(list))
    &&& forall|g: int|
        0 <= g < groups.len() ==> are_the_places(
            (#[trigger] groups[g]).1,
            list.len() as int,
            threads_with(list, list[groups[g].0].pid),
        )
}

proof fn lemma_threads(list: Seq<InfoView>, pid: u32, n: int) -> (at: Seq<int>)
    requires
        0 <= n <= list.len(),
    ensures
        are_the_places(at, n, threads_with(list, pid)),
        list.take(n).filter(|t: InfoView| t.is_thread && t.thread_group_id == pid)
            == at.map_values(|i: int| list[i]),
    decreases n,
{
    reveal(Seq::filter);
    let pred = |t: InfoView| t.is_thread && t.thread_group_id == pid;
    if n == 0 {
        let none = Seq::<int>::empty();
        assert(list.take(0).filter(pred) =~= none.map_values(|i: int| list[i]));
        none
    } else {
        let at = lemma_threads(list, pid, n - 1);
        assert(list.take(n).drop_last() =~= list.take(n - 1));
        assert(list.take(n).last() == list[n - 1]);
        lemma_places_extend(at, n - 1, threads_with(list, pid));
        if threads_with(list, pid)(n - 1) {
            let next = at.push(n - 1);
            assert(next.map_values(|i: int| list[i]) =~= at.map_values(|i: int| list[i]).push(
                list[n - 1],
            ));
            next
        } else {
            at
        }
    }
}

proof fn lemma_group_rows(list: Seq<InfoView>, i: int, at: Seq<int>)
    requires
        0 <= i < list.len(),
        threads_of(list, list[i].pid) == at.map_values(|k: int| list[k]),
    ensures
        seq![main_row(list[i])] + thread_rows(threads_of(list, list[i].pid)) == rows_of_group(
            list,
            (i, at),
        ),
{
    reveal_strlit(" └─");
    reveal_strlit(" ├─");
    reveal_strlit(" [thread]");
    assert(" └─"@ =~= seq![' ', '└', '─']);
    assert(" ├─"@ =~= seq![' ', '├', '─']);
    assert(" [thread]"@ =~= seq![' ', '[', 't', 'h', 'r', 'e', 'a', 'd', ']']);
    let threads = threads_of(list, list[i].pid);
    assert(main_row(list[i]) =~= cells_of_row(list[i], false, false));
    assert forall|k: int| 0 <= k < threads.len() implies thread_rows(threads)[k] == cells_of_row(
        list[at[k]],
        true,
        k == at.len() - 1,
    ) by {
        assert(threads[k] == list[at[k]]);
        assert(thread_row(threads[k], k == threads.len() - 1) =~= cells_of_row(
            list[at[k]],
            true,
            k == at.len() - 1,
        ));
    }
    assert(seq![main_row(list[i])] + thread_rows(threads) =~= rows_of_group(list, (i, at)));
}

proof fn lemma_groups(list: Seq<InfoView>, n: int) -> (groups: Seq<(int, Seq<int>)>)
    requires
        0 <= n <= list.len(),
    ensures
        are_the_groups(groups, list, n),
        grouped_rows(list, n as nat) == groups.map_values(
            |g: (int, Seq<int>)| rows_of_group(list, g),
        ).flatten_alt(),
    decreases n,
{
    let f = |g: (int, Seq<int>)| rows_of_group(list, g);
    let first = |g: (int, Seq<int>)| g.0;
    if n == 0 {
        Seq::empty()
    } else {
        let groups = lemma_groups(list, n - 1);
        let i = n - 1;
        lemma_places_extend(groups.map_values(first), i, first_with_number(list));
        assert(leads(list, i) <==> first_with_number(list)(i));
        if leads(list, i) {
            let at = lemma_threads(list, list[i].pid, list.len() as int);
            assert(list.take(list.len() as int) =~= list);
            lemma_group_rows(list, i, at);
            let next = groups.push((i, at));
            assert(next.map_values(first) =~= groups.map_values(first).push(i));
            assert(next.map_values(f).drop_last() =~= groups.map_values(f));
            assert forall|g: int| 0 <= g < next.len() implies are_the_places(
                (#[trigger] next[g]).1,
                list.len() as int,
                threads_with(list, list[next[g].0].pid),
            ) by {
                if g < groups.len() {
                    assert(next[g] == groups[g]);
                }
            }
            next
        } else {
            groups
        }
    }
}

/// The table shows the processes in which the filter stands. Each process number
/// has one row, with what is known of the process, and directly under it the rows
/// of all its threads in which the filter stands; there are no other rows.
pub proof fn the_table_shows_the_groups(infos: Seq<InfoView>, filter: Seq<char>) -> (r: (
    Seq<int>,
    Seq<(int, Seq<int>)>,
))
    ensures
        are_the_places(r.0, infos.len() as int, with_filter(infos, filter)),
        ({
            let list = r.0.map_values(|i: int| infos[i]);
            &&& are_the_groups(r.1, list, list.len() as int)
            &&& table_rows(infos, filter) == r.1.map_values(
                |g: (int, Seq<int>)| rows_of_group(list, g),
            ).flatten_alt()
        }),
{
    let at = a_filter_keeps_what_it_stands_in(infos, filter);
    let list = at.map_values(|i: int| infos[i]);
    let groups = lemma_groups(list, list.len() as int);
    (at, groups)
}

/// The heading of the column that the table is ordered by, and no other one, is
/// underlined and has an arrow behind its name, upward for rising order.
pub proof fn the_heading_tells_the_order(mode: ProcessSortMode, i: int)
    requires
        0 <= i < 10,
    ensures
        headings(mode).len() == 10,
        headings(mode)[i].style.bold,
        headings(mode)[i].style.underlined <==> i == (match mode {
            ProcessSortMode::PidAsc | ProcessSortMode::PidDesc => 0int,
            ProcessSortMode::NameAsc | ProcessSortMode::NameDesc => 7int,
            ProcessSortMode::CpuAsc | ProcessSortMode::CpuDesc => 8int,
            ProcessSortMode::MemoryAsc | ProcessSortMode::MemoryDesc => 9int,
        }),
        headings(mode)[i].style.underlined ==> headings(mode)[i].text.last() == (match mode {
            ProcessSortMode::PidAsc | ProcessSortMode::NameAsc | ProcessSortMode::CpuAsc
            | ProcessSortMode::MemoryAsc => '↑',
            _ => '↓',
        }),
        headings(mode)[i].text == ({
            let name = seq![
                "PID"@,
                "User"@,
                "S"@,
                "NI"@,
                "C"@,
                "THR"@,
                "Time"@,
                "Name"@,
                "CPU%"@,
                "Mem%"@,
            ][i];
            if headings(mode)[i].style.underlined {
                name.push(headings(mode)[i].text.last())
            } else {
                name
            }
        }),
{
    reveal_strlit("PID");
    reveal_strlit("Name");
    reveal_strlit("CPU%");
    reveal_strlit("Mem%");
    reveal_strlit("PID↑");
    reveal_strlit("PID↓");
    reveal_strlit("Name↑");
    reveal_strlit("Name↓");
    reveal_strlit("CPU%↑");
    reveal_strlit("CPU%↓");
    reveal_strlit("Mem%↑");
    reveal_strlit("Mem%↓");
    assert("PID↑"@ =~= "PID"@.push('↑') && "PID↓"@ =~= "PID"@.push('↓'));
    assert("Name↑"@ =~= "Name"@.push('↑') && "Name↓"@ =~= "Name"@.push('↓'));
    assert("CPU%↑"@ =~= "CPU%"@.push('↑') && "CPU%↓"@ =~= "CPU%"@.push('↓'));
    assert("Mem%↑"@ =~= "Mem%"@.push('↑') && "Mem%↓"@ =~= "Mem%"@.push('↓'));
}

/// Three processes are asked for where a row is left beside the frame, the heading and
/// its margin, but never fewer than twenty.
pub proof fn at_least_twenty_are_asked_for(height: nat, rows: nat)
    ensures
        process_count(height) >= 20,
        3 * rows >= 20 ==> process_count(rows + 4) == 3 * rows,
        3 * rows < 20 ==> process_count(rows + 4) == 20,
        height <= 4 ==> process_count(height) == 20,
{
}

/// The panel of processes holds the table for the filter and the headings for the
/// order, as they are.
pub proof fn the_panel_holds_the_table(
    infos: Seq<InfoView>,
    filter: Seq<char>,
    mode: ProcessSortMode,
)
    ensures
        process_panel(infos, filter, mode).body->rows == table_rows(infos, filter),
        process_panel(infos, filter, mode).body->header == headings(mode),
        process_panel(infos, filter, mode).body->widths == seq![
            Extent::Length(11),
            Extent::Length(10),
            Extent::Length(2),
            Extent::Length(4),
            Extent::Length(2),
            Extent::Length(4),
            Extent::Length(9),
            Extent::Percentage(45),
            Extent::Length(6),
            Extent::Length(6),
        ],
{
}

} // verus!
