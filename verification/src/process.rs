//! The processes at the top of the list: their order, their details and the
//! rows in which they are shown.

use std::collections::HashSet;

use vstd::arithmetic::power2::pow2;
use vstd::prelude::*;

use crate::bounds::lemma_share_exponents;
use crate::hardware::{optional_texts, strings};
use crate::nearness::{a_share_is_the_part_of_the_total, in_units, near};
use crate::order::{
    comparable, first_items_stay, is_order, key_views, lemma_first_difference,
    lemma_text_less_asymmetric, order_by, precedes, stands_after, text_less,
    texts_compare_where_they_differ, Key, KeyView,
};
use crate::outside::{lowercase, lowercase_of, optional_text};
use crate::rounding::{
    number_at_most, places_follow_values, single, single_bits, single_rank, single_rank_of, Binary,
    Single, SINGLE,
};
use crate::sysinfo_ext::{proc_stat_in, read_proc_stat, ProcStat};
use crate::text::chars_of;
use crate::units::{lemma_precisions, lemma_share_positive, share, share_of};

verus! {

/// What the list of processes is ordered by, and in which direction.
#[derive(Debug, Clone, Copy, PartialEq, Eq, Structural)]
pub enum ProcessSortMode {
    CpuAsc,
    CpuDesc,
    MemoryAsc,
    MemoryDesc,
    PidAsc,
    PidDesc,
    NameAsc,
    NameDesc,
}

/// What is known of a process before its details are read. Usages are single
/// precision numbers in percent, as 32-bit patterns.
pub struct ProcessSample {
    pub pid: u32,
    pub name: String,
    pub cpu: u32,
    pub mem: u32,
    /// In seconds.
    pub runtime: u64,
    pub parent: Option<u32>,
}

/// The values of a [`ProcessSample`].
pub struct SampleView {
    pub pid: u32,
    pub name: Seq<char>,
    pub cpu: u32,
    pub mem: u32,
    pub runtime: u64,
    pub parent: Option<u32>,
}

impl View for ProcessSample {
    type V = SampleView;

    open spec fn view(&self) -> SampleView {
        SampleView {
            pid: self.pid,
            name: self.name@,
            cpu: self.cpu,
            mem: self.mem,
            runtime: self.runtime,
            parent: self.parent,
        }
    }
}

/// The values of several samples.
pub open spec fn samples_in(samples: Seq<ProcessSample>) -> Seq<SampleView> {
    samples.map_values(|s: ProcessSample| s@)
}

/// The part of the memory that a process uses, in percent. Of no memory at all
/// nothing is no number, and anything else is infinite.
pub open spec fn memory_share(memory: u64, total: u64) -> Single {
    if total == 0 {
        if memory == 0 {
            Single::NotANumber
        } else {
            Single::Infinite { negative: false }
        }
    } else if memory == 0 {
        single(0)
    } else {
        let (m, e) = share(memory as nat, total as nat, SINGLE as nat);
        Single::Finite { negative: false, magnitude: Binary { mant: m as u64, exp: e as i32 } }
    }
}

/// The part of the memory that a process uses, as a single precision pattern.
pub fn memory_usage(memory: u64, total: u64) -> (bits: u32)
    ensures
        single(bits) == memory_share(memory, total),
{
    if total == 0 {
        if memory == 0 {
            0x7fc0_0000
        } else {
            0x7f80_0000
        }
    } else if memory == 0 {
        0
    } else {
        let b = share_of(memory, total, SINGLE);
        proof {
            lemma_share_positive(memory as nat, total as nat, SINGLE as nat);
        }
        single_bits(b)
    }
}

/// Whether a mode puts what is greatest first.
pub open spec fn falling(mode: ProcessSortMode) -> bool {
    mode == ProcessSortMode::CpuDesc || mode == ProcessSortMode::MemoryDesc || mode
        == ProcessSortMode::PidDesc || mode == ProcessSortMode::NameDesc
}

/// What a process is ordered by: its usage, its number, or its name without
/// regard to case.
pub open spec fn sort_key(sample: SampleView, mode: ProcessSortMode) -> KeyView {
    match mode {
        ProcessSortMode::CpuAsc | ProcessSortMode::CpuDesc => KeyView::Number(
            single_rank(sample.cpu),
        ),
        ProcessSortMode::MemoryAsc | ProcessSortMode::MemoryDesc => KeyView::Number(
            single_rank(sample.mem),
        ),
        ProcessSortMode::PidAsc | ProcessSortMode::PidDesc => KeyView::Number(
            Some(sample.pid as int),
        ),
        ProcessSortMode::NameAsc | ProcessSortMode::NameDesc => KeyView::Text(
            lowercase(sample.name),
        ),
    }
}

/// What each of several processes is ordered by.
pub open spec fn sort_keys(samples: Seq<SampleView>, mode: ProcessSortMode) -> Seq<KeyView> {
    samples.map_values(|s: SampleView| sort_key(s, mode))
}

fn sort_key_of(sample: &ProcessSample, mode: ProcessSortMode) -> (key: Key)
    ensures
        key@ == sort_key(sample@, mode),
{
    match mode {
        ProcessSortMode::CpuAsc | ProcessSortMode::CpuDesc => Key::Number(
            single_rank_of(sample.cpu),
        ),
        ProcessSortMode::MemoryAsc | ProcessSortMode::MemoryDesc => Key::Number(
            single_rank_of(sample.mem),
        ),
        ProcessSortMode::PidAsc | ProcessSortMode::PidDesc => Key::Number(Some(sample.pid as i64)),
        ProcessSortMode::NameAsc | ProcessSortMode::NameDesc => {
            let name = lowercase_of(sample.name.as_str());
            Key::Text(chars_of(name.as_str()))
        },
    }
}

fn is_falling(mode: ProcessSortMode) -> (r: bool)
    ensures
        r == falling(mode),
{
    mode == ProcessSortMode::CpuDesc || mode == ProcessSortMode::MemoryDesc || mode
        == ProcessSortMode::PidDesc || mode == ProcessSortMode::NameDesc
}

/// Whether `chosen` are the positions of the first `count` processes in the
/// order of the mode, or of all where there are fewer.
pub open spec fn is_top(
    chosen: Seq<usize>,
    samples: Seq<SampleView>,
    count: nat,
    mode: ProcessSortMode,
) -> bool {
    &&& chosen.len() == if count <= samples.len() {
        count
    } else {
        samples.len()
    }
    &&& exists|order: Seq<usize>| #[trigger]
        is_order(order, sort_keys(samples, mode), falling(mode)) && chosen == order.take(
            chosen.len() as int,
        )
}

/// The positions of the first `count` processes in the order of the mode.
pub fn select_top(samples: &Vec<ProcessSample>, count: usize, mode: ProcessSortMode) -> (chosen:
    Vec<usize>)
    ensures
        is_top(chosen@, samples_in(samples@), count as nat, mode),
        forall|i: int| 0 <= i < chosen@.len() ==> #[trigger] chosen@[i] < samples@.len(),
{
    let mut keys: Vec<Key> = Vec::new();
    let ghost wanted = sort_keys(samples_in(samples@), mode);
    let mut i: usize = 0;
    while i < samples.len()
        invariant
            i <= samples@.len(),
            keys@.len() == i,
            wanted == sort_keys(samples_in(samples@), mode),
            forall|k: int| 0 <= k < i ==> (#[trigger] keys@[k])@ == wanted[k],
        decreases samples.len() - i,
    {
        let key = sort_key_of(&samples[i], mode);
        assert(wanted[i as int] == key@);
        keys.push(key);
        i += 1;
    }
    assert(key_views(keys@) =~= wanted);
    let mut chosen = order_by(&keys, is_falling(mode));
    let ghost order = chosen@;
    assert(order.take(order.len() as int) =~= order);
    chosen.truncate(count);
    assert(chosen@ =~= order.take(chosen@.len() as int));
    assert(is_order(order, wanted, falling(mode)));
    assert forall|i: int| 0 <= i < chosen@.len() implies #[trigger] chosen@[i]
        < samples@.len() by {
        assert(order[i] == chosen@[i]);
    }
    chosen
}

/// A process as it is shown. Usages are single precision numbers in percent, as
/// 32-bit patterns.
#[derive(Debug, Clone)]
pub struct ProcessInfo {
    pub pid: u32,
    pub name: String,
    pub user: String,
    pub cpu: u32,
    pub mem: u32,
    pub nice: i32,
    /// In seconds.
    pub runtime: u64,
    /// The processor on which the process runs.
    pub cpu_core: u32,
    /// Whether this is a thread of another process.
    pub is_thread: bool,
    /// The main process of a thread.
    pub thread_group_id: u32,
    pub state: char,
    pub num_threads: u32,
}

/// The values of a [`ProcessInfo`].
pub struct InfoView {
    pub pid: u32,
    pub name: Seq<char>,
    pub user: Seq<char>,
    pub cpu: u32,
    pub mem: u32,
    pub nice: i32,
    pub runtime: u64,
    pub cpu_core: u32,
    pub is_thread: bool,
    pub thread_group_id: u32,
    pub state: char,
    pub num_threads: u32,
}

impl View for ProcessInfo {
    type V = InfoView;

    open spec fn view(&self) -> InfoView {
        InfoView {
            pid: self.pid,
            name: self.name@,
            user: self.user@,
            cpu: self.cpu,
            mem: self.mem,
            nice: self.nice,
            runtime: self.runtime,
            cpu_core: self.cpu_core,
            is_thread: self.is_thread,
            thread_group_id: self.thread_group_id,
            state: self.state,
            num_threads: self.num_threads,
        }
    }
}

/// The values of several processes.
pub open spec fn infos_in(infos: Seq<ProcessInfo>) -> Seq<InfoView> {
    infos.map_values(|p: ProcessInfo| p@)
}

/// The main process of a process: itself where it leads a thread group, its
/// parent otherwise, and again itself where it has none.
pub open spec fn main_process(pid: u32, parent: Option<u32>, leaders: Set<u32>) -> u32 {
    if leaders.contains(pid) {
        pid
    } else {
        match parent {
            Some(p) => p,
            None => pid,
        }
    }
}

/// The state to show for a process whose state could not be read.
pub open spec fn default_stat() -> ProcStat {
    ProcStat { state: 'U', nice: 0, num_threads: 1, processor: 0 }
}

/// A process with its details.
pub open spec fn with_details(
    sample: SampleView,
    user: Seq<char>,
    stat: Option<Seq<char>>,
    leaders: Set<u32>,
) -> InfoView {
    let read = match proc_stat_in(stat) {
        Some(s) => s,
        None => default_stat(),
    };
    let main = main_process(sample.pid, sample.parent, leaders);
    InfoView {
        pid: sample.pid,
        name: sample.name,
        user,
        cpu: sample.cpu,
        mem: sample.mem,
        nice: read.nice,
        runtime: sample.runtime,
        cpu_core: read.processor,
        is_thread: sample.pid != main,
        thread_group_id: main,
        state: read.state,
        num_threads: read.num_threads,
    }
}

/// A process with its details: the user's name, what its state file holds, and
/// whether it leads a thread group.
pub fn process_info(
    sample: &ProcessSample,
    user: &str,
    stat: Option<&str>,
    leaders: &HashSet<u32>,
) -> (info: ProcessInfo)
    ensures
        info@ == with_details(sample@, user@, crate::file_cache::text_in(stat), leaders@),
{
    broadcast use vstd::std_specs::hash::group_hash_axioms;

    let read: ProcStat = match read_proc_stat(stat) {
        Some(s) => s,
        None => ProcStat { state: 'U', nice: 0, num_threads: 1, processor: 0 },
    };
    let main: u32 = if leaders.contains(&sample.pid) {
        sample.pid
    } else {
        match sample.parent {
            Some(p) => p,
            None => sample.pid,
        }
    };
    ProcessInfo {
        pid: sample.pid,
        name: sample.name.clone(),
        user: user.to_owned(),
        cpu: sample.cpu,
        mem: sample.mem,
        nice: read.nice,
        runtime: sample.runtime,
        cpu_core: read.processor,
        is_thread: sample.pid != main,
        thread_group_id: main,
        state: read.state,
        num_threads: read.num_threads,
    }
}

/// The chosen processes with their details, in the order in which they were
/// chosen.
pub open spec fn chosen_infos(
    chosen: Seq<usize>,
    samples: Seq<SampleView>,
    users: Seq<Seq<char>>,
    stats: Seq<Option<Seq<char>>>,
    leaders: Set<u32>,
) -> Seq<InfoView> {
    Seq::new(
        chosen.len(),
        |i: int|
            with_details(
                samples[chosen[i] as int],
                users[chosen[i] as int],
                stats[chosen[i] as int],
                leaders,
            ),
    )
}

/// The first `count` processes in the order of the mode, with their details.
/// Names of users and state files are given for each process; those of
/// processes that are not among the first are not looked at.
pub fn get_top_processes(
    samples: &Vec<ProcessSample>,
    count: usize,
    sort_mode: ProcessSortMode,
    users: &Vec<String>,
    stats: &Vec<Option<String>>,
    leaders: &HashSet<u32>,
) -> (infos: Vec<ProcessInfo>)
    requires
        users@.len() == samples@.len(),
        stats@.len() == samples@.len(),
    ensures
        exists|chosen: Seq<usize>| #[trigger]
            is_top(chosen, samples_in(samples@), count as nat, sort_mode) && infos_in(infos@)
                == chosen_infos(
                chosen,
                samples_in(samples@),
                strings(users@),
                optional_texts(stats@),
                leaders@,
            ),
{
    let chosen = select_top(samples, count, sort_mode);
    let ghost all = chosen_infos(
        chosen@,
        samples_in(samples@),
        strings(users@),
        optional_texts(stats@),
        leaders@,
    );
    let mut infos: Vec<ProcessInfo> = Vec::new();
    let mut i: usize = 0;
    while i < chosen.len()
        invariant
            i <= chosen@.len(),
            users@.len() == samples@.len(),
            stats@.len() == samples@.len(),
            forall|k: int| 0 <= k < chosen@.len() ==> #[trigger] chosen@[k] < samples@.len(),
            infos@.len() == i,
            all == chosen_infos(
                chosen@,
                samples_in(samples@),
                strings(users@),
                optional_texts(stats@),
                leaders@,
            ),
            forall|k: int| 0 <= k < i ==> (#[trigger] infos@[k])@ == all[k],
        decreases chosen.len() - i,
    {
        let at = chosen[i];
        let stat: Option<&str> = match &stats[at] {
            Some(s) => Some(s.as_str()),
            None => None,
        };
        assert(crate::file_cache::text_in(stat) == optional_text(stats@[at as int]));
        let info = process_info(&samples[at], users[at].as_str(), stat, leaders);
        assert(all[i as int] == info@);
        infos.push(info);
        i += 1;
    }
    assert(infos_in(infos@) =~= all);
    infos
}

/// Numbers and names of processes can always be compared, and usages where all
/// of them are numbers.
pub proof fn when_processes_compare(samples: Seq<SampleView>, mode: ProcessSortMode)
    requires
        usages_are_numbers(samples, mode),
    ensures
        comparable(sort_keys(samples, mode)),
{
    let keys = sort_keys(samples, mode);
    match mode {
        ProcessSortMode::NameAsc | ProcessSortMode::NameDesc => {
            assert(forall|i: int|
                0 <= i < keys.len() ==> (#[trigger] keys[i] matches KeyView::Text(_)));
        },
        _ => {
            assert forall|i: int| 0 <= i < keys.len() implies (
            #[trigger] keys[i] matches KeyView::Number(Some(_))) by {
                assert(keys[i] == sort_key(samples[i], mode));
            }
        },
    }
}

/// No process that was left out comes before one that was taken.
pub proof fn the_first_are_taken(
    samples: Seq<SampleView>,
    count: nat,
    mode: ProcessSortMode,
    chosen: Seq<usize>,
    k: int,
    other: usize,
)
    requires
        comparable(sort_keys(samples, mode)),
        is_top(chosen, samples, count, mode),
        0 <= k < chosen.len(),
        other < samples.len(),
        !chosen.contains(other),
    ensures
        precedes(sort_keys(samples, mode), falling(mode), chosen[k] as int, other as int),
{
    let keys = sort_keys(samples, mode);
    let n = chosen.len() as int;
    let order = choose|order: Seq<usize>| #[trigger]
        is_order(order, keys, falling(mode)) && chosen == order.take(n);
    assert(order.contains(other));
    let p = choose|p: int| 0 <= p < order.len() && order[p] == other;
    if p < n {
        assert(order.take(n)[p] == other);
    }
    assert(order.take(n)[k] == order[k]);
    assert(precedes(keys, falling(mode), order[k] as int, order[p] as int));
}

/// Taking the first processes out beforehand, and asking for the first of them
/// only, changes nothing.
pub proof fn the_first_may_be_taken_beforehand(
    samples: Seq<SampleView>,
    users: Seq<Seq<char>>,
    stats: Seq<Option<Seq<char>>>,
    leaders: Set<u32>,
    count: nat,
    mode: ProcessSortMode,
    chosen: Seq<usize>,
    again: Seq<usize>,
)
    requires
        samples.len() <= usize::MAX,
        comparable(sort_keys(samples, mode)),
        is_top(chosen, samples, count, mode),
        is_top(
            again,
            Seq::new(chosen.len(), |i: int| samples[chosen[i] as int]),
            count,
            mode,
        ),
    ensures
        chosen_infos(
            again,
            Seq::new(chosen.len(), |i: int| samples[chosen[i] as int]),
            Seq::new(chosen.len(), |i: int| users[chosen[i] as int]),
            Seq::new(chosen.len(), |i: int| stats[chosen[i] as int]),
            leaders,
        ) == chosen_infos(chosen, samples, users, stats, leaders),
{
    let keys = sort_keys(samples, mode);
    let first = Seq::new(chosen.len(), |i: int| samples[chosen[i] as int]);
    let n = chosen.len() as int;
    let order = choose|order: Seq<usize>| #[trigger]
        is_order(order, keys, falling(mode)) && chosen == order.take(n);
    let second = choose|second: Seq<usize>| #[trigger]
        is_order(second, sort_keys(first, mode), falling(mode)) && again == second.take(
            again.len() as int,
        );
    assert(second.take(again.len() as int) =~= second);
    assert forall|i: int| 0 <= i < n implies chosen[i] == order[i] && order[i] < samples.len() by {
        assert(order.take(n)[i] == order[i]);
    }
    assert(sort_keys(first, mode) =~= Seq::new(n as nat, |i: int| keys[order[i] as int]));
    first_items_stay(order, keys, falling(mode), n, again);
    assert(chosen_infos(
        again,
        first,
        Seq::new(chosen.len(), |i: int| users[chosen[i] as int]),
        Seq::new(chosen.len(), |i: int| stats[chosen[i] as int]),
        leaders,
    ) =~= chosen_infos(chosen, samples, users, stats, leaders));
}

/// A process that leads a thread group is never shown as a thread, and one that
/// is shown as a thread belongs to another process, its parent.
pub proof fn threads_belong_to_their_parent(
    sample: SampleView,
    user: Seq<char>,
    stat: Option<Seq<char>>,
    leaders: Set<u32>,
)
    ensures
        leaders.contains(sample.pid) ==> !with_details(sample, user, stat, leaders).is_thread,
        with_details(sample, user, stat, leaders).is_thread ==> sample.parent == Some(
            with_details(sample, user, stat, leaders).thread_group_id,
        ) && with_details(sample, user, stat, leaders).thread_group_id != sample.pid,
{
}

/// Whether the text `s` stands before the text `t` in a dictionary: they agree up
/// to some position, at which `s` ends or has the lesser character.
pub open spec fn before_in_dictionary(s: Seq<char>, t: Seq<char>) -> bool {
    exists|k: int|
        0 <= k <= s.len() && k < t.len() && #[trigger] s.take(k) == t.take(k) && (k == s.len()
            || s[k] < t[k])
}

/// Whether the one process has to stand before the other: because its number is
/// less or greater, as the mode has it, because more or less is used, or because
/// its name, without regard to case, comes first or last.
pub open spec fn has_to_stand_before(
    one: SampleView,
    other: SampleView,
    mode: ProcessSortMode,
) -> bool {
    match mode {
        ProcessSortMode::CpuAsc => !number_at_most(single(other.cpu), single(one.cpu)),
        ProcessSortMode::CpuDesc => !number_at_most(single(one.cpu), single(other.cpu)),
        ProcessSortMode::MemoryAsc => !number_at_most(single(other.mem), single(one.mem)),
        ProcessSortMode::MemoryDesc => !number_at_most(single(one.mem), single(other.mem)),
        ProcessSortMode::PidAsc => one.pid < other.pid,
        ProcessSortMode::PidDesc => one.pid > other.pid,
        ProcessSortMode::NameAsc => before_in_dictionary(
            lowercase(one.name),
            lowercase(other.name),
        ),
        ProcessSortMode::NameDesc => before_in_dictionary(
            lowercase(other.name),
            lowercase(one.name),
        ),
    }
}

/// Whether the usages that the mode orders by are all numbers.
pub open spec fn usages_are_numbers(samples: Seq<SampleView>, mode: ProcessSortMode) -> bool {
    match mode {
        ProcessSortMode::CpuAsc | ProcessSortMode::CpuDesc => forall|i: int|
            0 <= i < samples.len() ==> !(single((#[trigger] samples[i]).cpu) is NotANumber),
        ProcessSortMode::MemoryAsc | ProcessSortMode::MemoryDesc => forall|i: int|
            0 <= i < samples.len() ==> !(single((#[trigger] samples[i]).mem) is NotANumber),
        _ => true,
    }
}

proof fn lemma_dictionary(s: Seq<char>, t: Seq<char>)
    ensures
        before_in_dictionary(s, t) <==> text_less(s, t),
{
    let k = lemma_first_difference(s, t);
    texts_compare_where_they_differ(s, t, k);
    if text_less(s, t) {
        assert(s.take(k) == t.take(k));
    }
    if before_in_dictionary(s, t) {
        let j = choose|j: int|
            0 <= j <= s.len() && j < t.len() && #[trigger] s.take(j) == t.take(j) && (j == s.len()
                || s[j] < t[j]);
        texts_compare_where_they_differ(s, t, j);
    }
}

proof fn lemma_keys_follow_processes(
    samples: Seq<SampleView>,
    mode: ProcessSortMode,
    a: int,
    b: int,
)
    requires
        usages_are_numbers(samples, mode),
        0 <= a < samples.len(),
        0 <= b < samples.len(),
    ensures
        ({
            let keys = sort_keys(samples, mode);
            stands_after(keys[a], keys[b], falling(mode)) <==> has_to_stand_before(
                samples[b],
                samples[a],
                mode,
            )
        }),
{
    let x = samples[a];
    let y = samples[b];
    places_follow_values(x.cpu, y.cpu);
    places_follow_values(y.cpu, x.cpu);
    places_follow_values(x.mem, y.mem);
    places_follow_values(y.mem, x.mem);
    lemma_dictionary(lowercase(x.name), lowercase(y.name));
    lemma_dictionary(lowercase(y.name), lowercase(x.name));
}

/// The processes that are taken stand in the order of the mode, and no other one
/// would have to stand before one of them: of two processes the one that uses
/// more, has the greater number or the later name comes first in falling order,
/// and last in rising order. Those that are equal keep their positions.
pub proof fn the_top_stands_in_order(
    samples: Seq<SampleView>,
    count: nat,
    mode: ProcessSortMode,
    chosen: Seq<usize>,
    i: int,
    later: usize,
)
    requires
        usages_are_numbers(samples, mode),
        is_top(chosen, samples, count, mode),
        0 <= i < chosen.len(),
        later < samples.len(),
        forall|k: int| 0 <= k <= i ==> #[trigger] chosen[k] != later,
    ensures
        chosen.len() == if count < samples.len() {
            count
        } else {
            samples.len()
        },
        chosen.no_duplicates(),
        chosen[i] < samples.len(),
        !has_to_stand_before(samples[later as int], samples[chosen[i] as int], mode),
        has_to_stand_before(samples[chosen[i] as int], samples[later as int], mode) || chosen[i] < later,
{
    let keys = sort_keys(samples, mode);
    let n = chosen.len() as int;
    when_processes_compare(samples, mode);
    let order = choose|order: Seq<usize>| #[trigger]
        is_order(order, keys, falling(mode)) && chosen == order.take(n);
    assert forall|a: int, b: int| 0 <= a < n && 0 <= b < n && a != b implies chosen[a]
        != chosen[b] by {
        assert(order.take(n)[a] == order[a]);
        assert(order.take(n)[b] == order[b]);
    }
    assert(order.take(n)[i] == order[i]);
    assert(order.contains(later));
    let p = choose|p: int| 0 <= p < order.len() && order[p] == later;
    if p <= i {
        assert(order.take(n)[p] == order[p]);
        assert(chosen[p] == later);
    }
    assert(precedes(keys, falling(mode), order[i] as int, order[p] as int));
    lemma_keys_follow_processes(samples, mode, later as int, chosen[i] as int);
    lemma_keys_follow_processes(samples, mode, chosen[i] as int, later as int);
    match keys[chosen[i] as int] {
        KeyView::Text(s) => {
            match keys[later as int] {
                KeyView::Text(t) => {
                    lemma_text_less_asymmetric(s, t);
                },
                _ => {},
            }
        },
        _ => {},
    }
}

/// What is shown of the processes that are taken are their own details, in order.
pub proof fn the_details_are_those_of_the_process(
    chosen: Seq<usize>,
    samples: Seq<SampleView>,
    users: Seq<Seq<char>>,
    stats: Seq<Option<Seq<char>>>,
    leaders: Set<u32>,
    i: int,
)
    requires
        0 <= i < chosen.len(),
    ensures
        chosen_infos(chosen, samples, users, stats, leaders).len() == chosen.len(),
        ({
            let p = samples[chosen[i] as int];
            let shown = chosen_infos(chosen, samples, users, stats, leaders)[i];
            &&& shown.pid == p.pid && shown.name == p.name && shown.cpu == p.cpu
            &&& shown.mem == p.mem && shown.runtime == p.runtime
            &&& shown.user == users[chosen[i] as int]
            &&& match proc_stat_in(stats[chosen[i] as int]) {
                Some(s) => shown.state == s.state && shown.nice == s.nice && shown.num_threads
                    == s.num_threads && shown.cpu_core == s.processor,
                None => shown.state == 'U' && shown.nice == 0 && shown.num_threads == 1
                    && shown.cpu_core == 0,
            }
            &&& shown.is_thread <==> !leaders.contains(p.pid) && (p.parent matches Some(parent)
                && parent != p.pid)
            &&& shown.thread_group_id == if shown.is_thread {
                p.parent.unwrap()
            } else {
                p.pid
            }
        }),
{
}

/// The memory that a process uses is its part of all memory in percent, and off by at
/// most eight parts in `2^24`. Of no memory at all, nothing is no number and anything
/// is infinite.
pub proof fn memory_is_shared_by_size(memory: u64, total: u64, k: nat)
    requires
        k >= 149,
    ensures
        total == 0 && memory == 0 ==> memory_share(memory, total) is NotANumber,
        total == 0 && memory > 0 ==> memory_share(memory, total) == (Single::Infinite {
            negative: false,
        }),
        total > 0 ==> (memory_share(memory, total) matches Single::Finite { negative, magnitude }
            && !negative && near(
            in_units(magnitude@, k) * total,
            (100 * memory * pow2(k)) as int,
            8,
            0x100_0000,
        )),
{
    if total > 0 {
        if memory == 0 {
            assert(single(0) == (Single::Finite {
                negative: false,
                magnitude: Binary { mant: 0, exp: (-149) as i32 },
            }));
            let p = pow2((k - 149) as nat);
            assert(0 * p == 0 && 0 * total == 0 && 0 * pow2(k) == 0) by (nonlinear_arith);
            assert(near(0, 0, 8, 0x100_0000));
        } else {
            lemma_precisions();
            lemma_share_exponents(memory as nat, total as nat, 23);
            a_share_is_the_part_of_the_total(memory as nat, total as nat, SINGLE as nat, k);
        }
    }
}

/// As many processes are chosen as are asked for, and all where there are no more.
pub proof fn as_many_are_chosen_as_asked_for(
    samples: Seq<SampleView>,
    count: nat,
    mode: ProcessSortMode,
    chosen: Seq<usize>,
)
    requires
        is_top(chosen, samples, count, mode),
    ensures
        count < samples.len() ==> chosen.len() == count,
        count >= samples.len() ==> chosen.len() == samples.len(),
        chosen.no_duplicates(),
        forall|i: int| 0 <= i < chosen.len() ==> #[trigger] chosen[i] < samples.len(),
{
}

} // verus!
