//! All that is kept between two screens, and when it is brought up to date.

use vstd::prelude::*;

use crate::controls::{after_key, quits, Controls, ControlsView, KeyPress};
use crate::cpu_rates::{next_cpu, not_below, second_passed, total_time, CpuRates};
use crate::file_cache::text_in;
use crate::hardware::{
    core_loads, get_cpu_freq_ranges, get_gpu_usage, get_npu_load, get_rga_load, gpu_times_in,
    gpu_usage, known_loads, npu_loads_in, pairs, ranges_after, strings, NPU_CORE_PATTERN,
};
use crate::history::{gpu_after, npu_after, remembered, History};
use crate::io_rates::{
    adapters_in, is_duration, next_io, total_received, total_transmitted, Adapter, IoRates, IoView,
};
use crate::order::{are_the_places, lemma_places_extend};
use crate::outside::{optional_text, regex_first, regex_matches, uppercase};
use crate::process::ProcessSortMode;
use crate::rounding::Binary;
use crate::sysinfo_ext::{no_stats, CpuStats};
use crate::text::{
    a_text_holds_its_parts, begins, begins_with, chars_of, contains, has_part, holds, is_white,
    lemma_starts_begins, lines, lines_of, starts, string_of, texts, trim, trimmed, words, words_of,
};
use crate::versions::{
    board_name, chip_name, first_group, first_match, get_board_name, get_librkllmrt_version,
    get_librknnrt_version, get_npu_driver_version, get_rga_version, get_rk_model, library_version,
    lossy_texts, version_in, RK_PATTERN,
};

verus! {

/// How many seconds lie between two readings.
#[derive(Debug, Clone, Copy, PartialEq, Eq, Structural)]
pub struct RefreshConfig {
    /// Of processors and memory.
    pub cpu_memory: u64,
    /// Of network and disks.
    pub network_disk: u64,
    /// Of the list of processes.
    pub processes: u64,
    /// Of the governor and the connections.
    pub stats: u64,
}

impl Default for RefreshConfig {
    fn default() -> (r: RefreshConfig)
        ensures
            r == (RefreshConfig { cpu_memory: 1, network_disk: 2, processes: 3, stats: 5 }),
    {
        RefreshConfig { cpu_memory: 1, network_disk: 2, processes: 3, stats: 5 }
    }
}

/// Which of the readings are due.
#[derive(Debug, Clone, Copy, PartialEq, Eq, Structural)]
pub struct Due {
    pub cpu_memory: bool,
    pub network_disk: bool,
    pub processes: bool,
    pub render: bool,
}

/// Whole seconds since the readings were last taken and the screen was last
/// drawn.
#[derive(Debug, Clone, Copy, PartialEq, Eq, Structural)]
pub struct Since {
    pub cpu_memory: u64,
    pub network_disk: u64,
    pub processes: u64,
    pub render: u64,
}

/// Which of the readings are due, so long after they were last taken.
pub open spec fn due_after(config: RefreshConfig, since: Since) -> Due {
    Due {
        cpu_memory: since.cpu_memory >= config.cpu_memory,
        network_disk: since.network_disk >= config.network_disk,
        processes: since.processes >= config.processes,
        render: since.cpu_memory >= config.cpu_memory || since.render >= 1,
    }
}

impl RefreshConfig {
    /// Which of the readings are due. The screen is drawn once a second, and
    /// right after a reading of processors and memory.
    pub fn due(&self, since: Since) -> (due: Due)
        ensures
            due == (Due {
                cpu_memory: since.cpu_memory >= self.cpu_memory,
                network_disk: since.network_disk >= self.network_disk,
                processes: since.processes >= self.processes,
                render: since.cpu_memory >= self.cpu_memory || since.render >= 1,
            }),
            due == due_after(*self, since),
    {
        let cpu_memory = since.cpu_memory >= self.cpu_memory;
        Due {
            cpu_memory,
            network_disk: since.network_disk >= self.network_disk,
            processes: since.processes >= self.processes,
            render: cpu_memory || since.render >= 1,
        }
    }
}

/// The governor that a file names.
pub open spec fn governor_in(content: Option<Seq<char>>) -> Seq<char> {
    trim(
        match content {
            Some(s) => s,
            None => "N/A"@,
        },
    )
}

/// The two tables of connections.
#[derive(Debug, Clone, Copy, PartialEq, Eq, Structural)]
pub enum Family {
    V4,
    V6,
}

/// Whether an address in a table of connections is the loopback address or none.
/// An IPv6 table also has the loopback address of IPv4, as `::ffff:127.0.0.1`.
pub open spec fn is_local(address: Seq<char>, family: Family) -> bool {
    match family {
        Family::V4 => starts(address, "0100007F"@) || starts(address, "00000000"@),
        Family::V6 => starts(address, "00000000000000000000000001000000"@) || starts(
            address,
            "00000000000000000000000000000000"@,
        ) || starts(address, "0000000000000000FFFF00000100007F"@),
    }
}

/// Whether a line of a table of connections is an established one from an
/// address that is not local.
pub open spec fn is_connection(line: Seq<char>, family: Family) -> bool {
    &&& contains(line, " 01 "@)
    &&& words(line).len() > 1
    &&& !is_local(words(line)[1], family)
}

/// The number of connections in the first `n` lines after the heading.
pub open spec fn connections(ls: Seq<Seq<char>>, family: Family, n: nat) -> nat
    decreases n,
{
    if n == 0 {
        0
    } else {
        connections(ls, family, (n - 1) as nat) + if is_connection(ls[n as int], family) {
            1nat
        } else {
            0
        }
    }
}

/// The number of connections in a table, whose first line is the heading.
pub open spec fn connections_in(content: Option<Seq<char>>, family: Family) -> nat {
    match content {
        Some(s) => if lines(s).len() > 0 {
            connections(lines(s), family, (lines(s).len() - 1) as nat)
        } else {
            0
        },
        None => 0,
    }
}

/// The number of connections in the table of IPv4.
pub open spec fn connections_v4(content: Option<Seq<char>>) -> nat {
    connections_in(content, Family::V4)
}

/// The number of connections in the table of IPv6.
pub open spec fn connections_v6(content: Option<Seq<char>>) -> nat {
    connections_in(content, Family::V6)
}

/// The number of connections in both tables.
pub open spec fn all_connections(tcp: Option<Seq<char>>, tcp6: Option<Seq<char>>) -> nat {
    connections_v4(tcp) + connections_v6(tcp6)
}

fn is_local_of(address: &[char], family: Family) -> (r: bool)
    ensures
        r == is_local(address@, family),
{
    match family {
        Family::V4 => begins_with(address, "0100007F") || begins_with(address, "00000000"),
        Family::V6 => begins_with(address, "00000000000000000000000001000000") || begins_with(
            address,
            "00000000000000000000000000000000",
        ) || begins_with(address, "0000000000000000FFFF00000100007F"),
    }
}

fn is_connection_of(line: &Vec<char>, family: Family) -> (r: bool)
    ensures
        r == is_connection(line@, family),
{
    if !holds(line.as_slice(), " 01 ") {
        return false;
    }
    let ws = words_of(line.as_slice());
    if ws.len() > 1 {
        assert(texts(ws@)[1] == ws@[1]@);
        !is_local_of(ws[1].as_slice(), family)
    } else {
        false
    }
}

fn connections_of(content: Option<&str>, family: Family) -> (r: usize)
    ensures
        r == connections_in(text_in(content), family),
{
    match content {
        Some(s) => {
            let cs = chars_of(s);
            let ls = lines_of(cs.as_slice());
            let ghost all = lines(s@);
            let mut count: usize = 0;
            let mut i: usize = 1;
            if ls.len() == 0 {
                return 0;
            }
            while i < ls.len()
                invariant
                    1 <= i <= ls@.len(),
                    all == texts(ls@),
                    count == connections(all, family, (i - 1) as nat),
                    count < i,
                decreases ls.len() - i,
            {
                assert(all[i as int] == ls@[i as int]@);
                if is_connection_of(&ls[i], family) {
                    count += 1;
                }
                i += 1;
            }
            count
        },
        None => 0,
    }
}

/// Facts that are read now and then: the governor of the processors and the
/// number of connections.
pub struct SystemStats {
    pub cpu_governor: String,
    pub tcp_connections: usize,
}

/// Whether these facts are read again after so many whole seconds.
pub open spec fn stats_are_due(seconds: u64) -> bool {
    seconds >= 5
}

/// Whether these facts are read again after so many whole seconds.
pub fn stats_due(seconds: u64) -> (r: bool)
    ensures
        r == (seconds >= 5),
        r == stats_are_due(seconds),
{
    seconds >= 5
}

impl SystemStats {
    /// Nothing read so far.
    pub fn new() -> (s: SystemStats)
        ensures
            s.cpu_governor@.len() == 0,
            s.tcp_connections == 0,
    {
        SystemStats { cpu_governor: String::new(), tcp_connections: 0 }
    }

    /// Takes a reading, so many whole seconds after the last that was taken,
    /// and tells whether it was taken now.
    pub fn update(
        &mut self,
        governor: Option<&str>,
        tcp: Option<&str>,
        tcp6: Option<&str>,
        seconds: u64,
    ) -> (taken: bool)
        requires
            connections_v4(text_in(tcp)) + connections_v6(text_in(tcp6)) <= usize::MAX,
        ensures
            taken == (seconds >= 5),
            !taken ==> *final(self) == *old(self),
            taken ==> final(self).cpu_governor@ == governor_in(text_in(governor))
                && final(self).tcp_connections == connections_v4(text_in(tcp)) + connections_v6(
                text_in(tcp6),
            ),
            taken == stats_are_due(seconds),
            taken ==> final(self).tcp_connections == all_connections(text_in(tcp), text_in(tcp6)),
    {
        if !stats_due(seconds) {
            return false;
        }
        let cs = match governor {
            Some(s) => chars_of(s),
            None => chars_of("N/A"),
        };
        self.cpu_governor = string_of(trimmed(cs.as_slice()).as_slice());
        let v4 = connections_of(tcp, Family::V4);
        let v6 = connections_of(tcp6, Family::V6);
        self.tcp_connections = v4 + v6;
        true
    }
}

/// Connections from local addresses do not count, whatever else their lines
/// hold: a table that has no other ones has none.
pub proof fn local_connections_do_not_count(content: Seq<char>, family: Family)
    requires
        forall|i: int|
            #![trigger lines(content)[i]]
            1 <= i < lines(content).len() && words(lines(content)[i]).len() > 1 ==> is_local(
                words(lines(content)[i])[1],
                family,
            ),
    ensures
        connections_in(Some(content), family) == 0,
{
    if lines(content).len() > 0 {
        lemma_no_connections(lines(content), family, (lines(content).len() - 1) as nat);
    }
}

proof fn lemma_no_connections(ls: Seq<Seq<char>>, family: Family, n: nat)
    requires
        n < ls.len(),
        forall|i: int|
            #![trigger ls[i]]
            1 <= i < ls.len() && words(ls[i]).len() > 1 ==> is_local(words(ls[i])[1], family),
    ensures
        connections(ls, family, n) == 0,
    decreases n,
{
    if n > 0 {
        lemma_no_connections(ls, family, (n - 1) as nat);
        assert(!is_connection(ls[n as int], family));
    }
}

/// What does not change while the program runs.
pub struct Identity {
    pub board_name: String,
    pub rk_model: String,
    pub cpu_arch: String,
    pub npu_version: String,
    pub rga_version: String,
    pub rknn_version: String,
    pub rkllm_version: String,
    pub has_gpu: bool,
    pub has_npu: bool,
    pub has_rga: bool,
    pub cpu_freq_ranges: Vec<(u32, u32)>,
}

/// What is read at the start, as far as it could be read: the contents of files,
/// the architecture, the network adapters, and the loads of the scaler.
pub struct Startup {
    pub model_files: Vec<Option<Vec<u8>>>,
    pub cpu_arch: String,
    pub npu_version: Option<String>,
    pub rga_version: Option<String>,
    pub rknn_library: Option<Vec<u8>>,
    pub rkllm_library: Option<Vec<u8>>,
    pub gpu: Option<String>,
    pub npu_load: Option<String>,
    pub rga_entries: Vec<(String, String)>,
    pub rga_loads: Vec<Option<u32>>,
    pub frequencies: Vec<(String, String)>,
    pub network_adapters: Vec<String>,
}

/// The contents of a file that could be read.
pub open spec fn optional_bytes(content: Option<Vec<u8>>) -> Option<Seq<u8>> {
    match content {
        Some(bytes) => Some(bytes@),
        None => None,
    }
}

/// The chip that the name of a board tells.
pub open spec fn chip_of(board: Seq<char>) -> Seq<char> {
    chip_name(
        match first_group(first_match(RK_PATTERN@, board)) {
            Some(name) => Some(uppercase(name)),
            None => None,
        },
    )
}

/// Whether an identity is the one that the files at the start tell.
pub open spec fn identifies(id: Identity, s: Startup) -> bool {
    &&& id.board_name@ == board_name(lossy_texts(s.model_files@))
    &&& id.rk_model@ == chip_of(board_name(lossy_texts(s.model_files@)))
    &&& id.cpu_arch@ == s.cpu_arch@
    &&& id.npu_version@ == version_in(optional_text(s.npu_version))
    &&& id.rga_version@ == version_in(optional_text(s.rga_version))
    &&& library_version(optional_bytes(s.rknn_library), "librknnrt version:"@) == Some(
        id.rknn_version@,
    )
    &&& library_version(optional_bytes(s.rkllm_library), "RKLLM SDK (version:"@) == Some(
        id.rkllm_version@,
    )
    &&& id.has_gpu == (gpu_usage(optional_text(s.gpu)) is Some)
    &&& id.has_npu == (npu_loads_in(optional_text(s.npu_load)).len() > 0)
    &&& id.has_rga == (known_loads(pairs(s.rga_entries@), s.rga_loads@).len() > 0)
    &&& id.cpu_freq_ranges@ == ranges_after(pairs(s.frequencies@), Seq::empty())
}

/// All that is kept between two screens.
pub struct AppState {
    pub io: IoRates,
    pub identity: Identity,
    pub stats: SystemStats,
    pub cpu: CpuRates,
    pub history: History,
    pub controls: Controls,
}

fn text_of(content: &Option<String>) -> (r: Option<&str>)
    ensures
        text_in(r) == optional_text(*content),
{
    match content {
        Some(s) => Some(s.as_str()),
        None => None,
    }
}

fn bytes_of(content: &Option<Vec<u8>>) -> (r: Option<&[u8]>)
    ensures
        crate::versions::bytes_in(r) == optional_bytes(*content),
{
    match content {
        Some(bytes) => Some(bytes.as_slice()),
        None => None,
    }
}

impl AppState {
    /// Whether all parts are as they have to be.
    pub open spec fn wf(&self) -> bool {
        self.io.wf() && self.cpu.wf() && self.history.wf()
    }

    /// The state at the start. There is none where a version cannot be read
    /// from a library because of a section that ends beyond all addresses.
    pub fn new(s: Startup) -> (r: Option<AppState>)
        requires
            s.rga_entries@.len() == s.rga_loads@.len(),
            optional_text(s.gpu) matches Some(t) ==> (gpu_times_in(t) matches Some((busy, idle))
                ==> busy + idle <= u64::MAX),
        ensures
            match r {
                Some(state) => {
                    &&& state.wf()
                    &&& identifies(state.identity, s)
                    &&& state.io@ == (IoView {
                        prev_disk_read: 0,
                        prev_disk_write: 0,
                        prev_net_rx: 0,
                        prev_net_tx: 0,
                        disk_read_rate: 0,
                        disk_write_rate: 0,
                        net_rx_rate: 0,
                        net_tx_rate: 0,
                        prev_adapter_stats: Map::empty(),
                        adapter_rates: Map::empty(),
                        network_adapters: strings(s.network_adapters@),
                    })
                    &&& state.stats.cpu_governor@.len() == 0
                    &&& state.stats.tcp_connections == 0
                    &&& state.cpu == (CpuRates {
                        prev: no_stats(),
                        ctx_switches_rate: 0,
                        interrupts_rate: 0,
                        softirqs_rate: 0,
                        user_pct: Binary { mant: 0, exp: 0 },
                        system_pct: Binary { mant: 0, exp: 0 },
                        iowait_pct: Binary { mant: 0, exp: 0 },
                        idle_pct: Binary { mant: 0, exp: 0 },
                        running_procs: 0,
                        blocked_procs: 0,
                    })
                    &&& state.history.cpu@.len() == 0
                    &&& state.history.gpu@.len() == 0
                    &&& state.history.npu@.len() == 0
                    &&& state.controls@ == (ControlsView {
                        process_sort_mode: ProcessSortMode::CpuDesc,
                        filter_text: Seq::empty(),
                        filter_mode: false,
                    })
                },
                None => library_version(
                    optional_bytes(s.rknn_library),
                    "librknnrt version:"@,
                ) is None || library_version(
                    optional_bytes(s.rkllm_library),
                    "RKLLM SDK (version:"@,
                ) is None,
            },
    {
        let board_name = get_board_name(&s.model_files);
        let rk_model = get_rk_model(board_name.as_str());
        let rknn_version = match get_librknnrt_version(bytes_of(&s.rknn_library)) {
            Some(v) => v,
            None => {
                return None;
            },
        };
        let rkllm_version = match get_librkllmrt_version(bytes_of(&s.rkllm_library)) {
            Some(v) => v,
            None => {
                return None;
            },
        };
        let npu_version = get_npu_driver_version(text_of(&s.npu_version));
        let rga_version = get_rga_version(text_of(&s.rga_version));
        let has_gpu = get_gpu_usage(text_of(&s.gpu)).is_some();
        let has_npu = get_npu_load(text_of(&s.npu_load)).len() > 0;
        let has_rga = get_rga_load(&s.rga_entries, &s.rga_loads).is_some();
        let cpu_freq_ranges = get_cpu_freq_ranges(&s.frequencies);
        let identity = Identity {
            board_name,
            rk_model,
            cpu_arch: s.cpu_arch,
            npu_version,
            rga_version,
            rknn_version,
            rkllm_version,
            has_gpu,
            has_npu,
            has_rga,
            cpu_freq_ranges,
        };
        Some(
            AppState {
                io: IoRates::new(s.network_adapters),
                identity,
                stats: SystemStats::new(),
                cpu: CpuRates::new(),
                history: History::new(),
                controls: Controls::new(),
            },
        )
    }

    /// Adds the usages of one second to the histories: single precision numbers
    /// in percent, as 32-bit patterns.
    pub fn update_history(&mut self, total_cpu: u32, gpu: Option<u32>, npu: &Vec<u8>)
        requires
            old(self).wf(),
        ensures
            final(self).wf(),
            final(self).history.cpu@ == remembered(old(self).history.cpu@, total_cpu),
            final(self).history.gpu@ == gpu_after(old(self).history.gpu@, gpu),
            final(self).history.npu@ == npu_after(old(self).history.npu@, npu@),
            *final(self) == (AppState { history: final(self).history, ..*old(self) }),
    {
        self.history.update(total_cpu, gpu, npu);
    }

    /// Takes a reading of the counters of the processors, and tells whether it
    /// was taken, which it is a second after the last.
    pub fn update_cpu_stats(&mut self, now: CpuStats, seconds: u64) -> (taken: bool)
        requires
            old(self).wf(),
            is_duration(seconds),
            second_passed(seconds) ==> not_below(now, old(self).cpu.prev) && total_time(
                now,
                old(self).cpu.prev,
            ) <= u64::MAX,
        ensures
            final(self).wf(),
            taken == second_passed(seconds),
            *final(self) == (AppState {
                cpu: next_cpu(old(self).cpu, now, seconds),
                ..*old(self)
            }),
    {
        self.cpu.update(now, seconds)
    }

    /// Takes a reading of the governor and the connections, and tells whether
    /// it was taken, which it is five seconds after the last.
    pub fn update_stats(
        &mut self,
        governor: Option<&str>,
        tcp: Option<&str>,
        tcp6: Option<&str>,
        seconds: u64,
    ) -> (taken: bool)
        requires
            old(self).wf(),
            connections_v4(text_in(tcp)) + connections_v6(text_in(tcp6)) <= usize::MAX,
        ensures
            final(self).wf(),
            taken == (seconds >= 5),
            !taken ==> *final(self) == *old(self),
            taken ==> final(self).stats.cpu_governor@ == governor_in(text_in(governor))
                && final(self).stats.tcp_connections == connections_v4(text_in(tcp))
                + connections_v6(text_in(tcp6)),
            *final(self) == (AppState { stats: final(self).stats, ..*old(self) }),
    {
        self.stats.update(governor, tcp, tcp6, seconds)
    }

    /// Takes a reading of the network adapters, so many seconds after the last.
    pub fn update_io_rates(&mut self, list: &Vec<Adapter>, seconds: u64)
        requires
            old(self).wf(),
            is_duration(seconds),
            total_received(old(self).io@.network_adapters, adapters_in(list@)) <= u64::MAX,
            total_transmitted(old(self).io@.network_adapters, adapters_in(list@)) <= u64::MAX,
        ensures
            final(self).wf(),
            final(self).io@ == next_io(old(self).io@, adapters_in(list@), seconds),
            *final(self) == (AppState { io: final(self).io, ..*old(self) }),
    {
        self.io.update(list, seconds);
    }

    /// Does what a key does, and tells whether it ends the program.
    pub fn press(&mut self, key: KeyPress) -> (quit: bool)
        requires
            old(self).wf(),
        ensures
            final(self).wf(),
            quit == quits(old(self).controls@, key),
            final(self).controls@ == after_key(old(self).controls@, key),
            *final(self) == (AppState { controls: final(self).controls, ..*old(self) }),
    {
        self.controls.press(key)
    }
}

/// The lines behind the heading that are established connections from an address
/// which is neither the loopback address, nor, in the table of IPv6, that of IPv4,
/// nor none.
pub open spec fn outside_connections(ls: Seq<Seq<char>>, family: Family) -> spec_fn(int) -> bool {
    |i: int|
        i >= 1 && has_part(ls[i], seq![' ', '0', '1', ' ']) && words(ls[i]).len() > 1 && match family {
            Family::V4 => !begins(words(ls[i])[1], "0100007F"@) && !begins(
                words(ls[i])[1],
                "00000000"@,
            ),
            Family::V6 => !begins(words(ls[i])[1], "00000000000000000000000001000000"@) && !begins(
                words(ls[i])[1],
                "00000000000000000000000000000000"@,
            ) && !begins(words(ls[i])[1], "0000000000000000FFFF00000100007F"@),
        }
}

proof fn lemma_outside(ls: Seq<Seq<char>>, family: Family, i: int)
    requires
        1 <= i < ls.len(),
    ensures
        is_connection(ls[i], family) <==> outside_connections(ls, family)(i),
{
    reveal_strlit(" 01 ");
    assert(" 01 "@ =~= seq![' ', '0', '1', ' ']);
    a_text_holds_its_parts(ls[i], " 01 "@);
    if words(ls[i]).len() > 1 {
        let a = words(ls[i])[1];
        lemma_starts_begins(a, "0100007F"@);
        lemma_starts_begins(a, "00000000"@);
        lemma_starts_begins(a, "00000000000000000000000001000000"@);
        lemma_starts_begins(a, "00000000000000000000000000000000"@);
        lemma_starts_begins(a, "0000000000000000FFFF00000100007F"@);
    }
}

proof fn lemma_count(ls: Seq<Seq<char>>, family: Family, n: nat) -> (at: Seq<int>)
    requires
        n < ls.len(),
    ensures
        are_the_places(at, n as int + 1, outside_connections(ls, family)),
        connections(ls, family, n) == at.len(),
    decreases n,
{
    if n == 0 {
        let none = Seq::<int>::empty();
        assert(!outside_connections(ls, family)(0));
        none
    } else {
        let at = lemma_count(ls, family, (n - 1) as nat);
        lemma_outside(ls, family, n as int);
        lemma_places_extend(at, n as int, outside_connections(ls, family));
        if outside_connections(ls, family)(n as int) {
            at.push(n as int)
        } else {
            at
        }
    }
}

/// Each line behind the heading that is an established connection from outside counts
/// once, and no other line counts.
pub proof fn every_outside_connection_counts(content: Seq<char>, family: Family) -> (at: Seq<int>)
    ensures
        are_the_places(
            at,
            lines(content).len() as int,
            outside_connections(lines(content), family),
        ),
        connections_in(Some(content), family) == at.len(),
        connections_in(None, family) == 0,
{
    if lines(content).len() > 0 {
        lemma_count(lines(content), family, (lines(content).len() - 1) as nat)
    } else {
        Seq::empty()
    }
}

/// The governor is what its file holds without the white space around it, and is not
/// available where the file was not read.
pub proof fn the_governor_is_what_the_file_holds(s: Seq<char>)
    ensures
        governor_in(Some(s)) == trim(s),
        governor_in(None) == seq!['N', '/', 'A'],
{
    reveal_strlit("N/A");
    assert("N/A"@ =~= seq!['N', '/', 'A']);
    assert(!is_white('N') && !is_white('A'));
    reveal_with_fuel(crate::text::trim_start, 2);
    reveal_with_fuel(crate::text::trim_end, 2);
}

/// The chip is named by the first group of the first match in the name of the board, in
/// capital letters.
pub proof fn the_chip_is_in_capital_letters(board: Seq<char>, groups: Seq<Option<Seq<char>>>)
    ensures
        regex_first(RK_PATTERN@, board) == Some(Some(groups)) && groups.len() > 1 && groups[1] is Some
            ==> chip_of(board) == uppercase(groups[1]->0),
        regex_first(RK_PATTERN@, board) == Some(Some(groups)) && (groups.len() < 2 || groups[1]
            is None) ==> chip_of(board) == "Unknown RK"@,
        regex_first(RK_PATTERN@, board) == Some(None::<Seq<Option<Seq<char>>>>) ==> chip_of(board)
            == "Unknown RK"@,
{
}

/// What is known of the board from the start on is what each of the files tells: an
/// accelerator is there if and only if its reading is, and nothing is mixed up.
pub proof fn the_board_is_what_its_files_tell(id: Identity, s: Startup)
    requires
        identifies(id, s),
    ensures
        id.board_name@ == board_name(lossy_texts(s.model_files@)),
        id.rk_model@ == chip_of(id.board_name@),
        id.cpu_arch@ == s.cpu_arch@,
        s.npu_version matches Some(t) ==> id.npu_version@ == version_in(Some(t@)),
        s.npu_version is None ==> id.npu_version@ == version_in(None),
        s.rga_version matches Some(t) ==> id.rga_version@ == version_in(Some(t@)),
        s.rga_version is None ==> id.rga_version@ == version_in(None),
        s.rknn_library matches Some(b) ==> library_version(Some(b@), "librknnrt version:"@) == Some(
            id.rknn_version@,
        ),
        s.rkllm_library matches Some(b) ==> library_version(Some(b@), "RKLLM SDK (version:"@)
            == Some(id.rkllm_version@),
        s.rknn_library is None ==> id.rknn_version@ == "Not Detected"@,
        s.rkllm_library is None ==> id.rkllm_version@ == "Not Detected"@,
        s.gpu is None ==> !id.has_gpu,
        s.gpu matches Some(t) ==> id.has_gpu == (gpu_times_in(t@) matches Some((busy, idle)) && busy
            + idle > 0),
        s.npu_load is None ==> !id.has_npu,
        s.npu_load matches Some(t) ==> (regex_matches(NPU_CORE_PATTERN@, t@) matches Some(found)
            ==> id.has_npu == (core_loads(found).len() > 0)),
        id.has_rga == (known_loads(pairs(s.rga_entries@), s.rga_loads@).len() > 0),
        id.cpu_freq_ranges@ == ranges_after(pairs(s.frequencies@), Seq::empty()),
{
}

/// A reading is due when so much time as is set for it has passed, and not earlier. What
/// is due stays due. The screen is drawn with each reading of the processors, and
/// otherwise when a second has passed.
pub proof fn readings_are_due_when_their_time_is_up(
    config: RefreshConfig,
    since: Since,
    later: Since,
)
    ensures
        due_after(config, since).cpu_memory <==> !(since.cpu_memory < config.cpu_memory),
        due_after(config, since).network_disk <==> !(since.network_disk < config.network_disk),
        due_after(config, since).processes <==> !(since.processes < config.processes),
        due_after(config, since).cpu_memory ==> due_after(config, since).render,
        !due_after(config, since).cpu_memory ==> (due_after(config, since).render <==> since.render
            > 0),
        due_after(config, since).processes && later.processes >= since.processes ==> due_after(
            config,
            later,
        ).processes,
{
}

/// The facts are read again when five seconds have passed, and not earlier.
pub proof fn facts_are_due_after_five_seconds(seconds: u64)
    ensures
        seconds < 5 ==> !stats_are_due(seconds),
        seconds > 4 ==> stats_are_due(seconds),
{
}

/// Each connection from outside in either table counts once, and nothing else counts. A
/// table that was not read has none.
pub proof fn both_tables_count(tcp: Seq<char>, tcp6: Seq<char>) -> (at: (Seq<int>, Seq<int>))
    ensures
        are_the_places(
            at.0,
            lines(tcp).len() as int,
            outside_connections(lines(tcp), Family::V4),
        ),
        are_the_places(
            at.1,
            lines(tcp6).len() as int,
            outside_connections(lines(tcp6), Family::V6),
        ),
        all_connections(Some(tcp), Some(tcp6)) == at.0.len() + at.1.len(),
        all_connections(Some(tcp), None) == at.0.len(),
        all_connections(None, Some(tcp6)) == at.1.len(),
        all_connections(None, None) == 0,
{
    let four = every_outside_connection_counts(tcp, Family::V4);
    let six = every_outside_connection_counts(tcp6, Family::V6);
    (four, six)
}

} // verus!
