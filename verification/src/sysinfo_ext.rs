//! Readings of the kernel: compressed swap, processor statistics, the state of
//! a process and the user it belongs to.

use std::collections::{HashMap, HashSet};

use vstd::arithmetic::power2::pow2;
use vstd::prelude::*;

use crate::file_cache::text_in;
use crate::bounds::{lemma_quotient_exponents, lemma_whole_exponents};
use crate::nearness::{a_ratio_is_of_its_parts, in_units, near};
use crate::number::{integer_within, natural, natural_up_to, read_i32, read_u32, read_u64};
use crate::rounding::{binary_of, divide, quotient, rounded, Binary, DOUBLE};
use crate::text::{
    begins, begins_with, chars_of, copy_range, last_index, last_position, lines, lines_of, pieces,
    pieces_of, pieces_stand_between_separators, starts, string_of, texts,
    the_last_place_has_none_behind_it, words, words_of,
};
use crate::units::lemma_precisions;

pub use crate::process::{get_top_processes, ProcessInfo};

verus! {

/// The state of the compressed swap device, in bytes.
#[derive(Debug, Clone, Copy, PartialEq, Eq, Structural)]
pub struct ZramInfo {
    pub orig_data_size: u64,
    pub compr_data_size: u64,
    pub used: u64,
    pub limit: u64,
}

impl ZramInfo {
    /// The size of the data divided by its compressed size, in double
    /// precision; zero where nothing is compressed.
    pub open spec fn ratio(&self) -> (nat, int) {
        if self.compr_data_size > 0 {
            quotient(
                rounded(self.orig_data_size as nat, 1, DOUBLE as nat),
                rounded(self.compr_data_size as nat, 1, DOUBLE as nat),
                DOUBLE as nat,
            )
        } else {
            (0, 0)
        }
    }

    /// The compression ratio: the size of the data divided by its compressed size.
    pub fn compression_ratio(&self) -> (r: Binary)
        ensures
            r@ == self.ratio(),
            -1000 <= r.exp <= 1000,
    {
        if self.compr_data_size > 0 {
            let n = binary_of(self.orig_data_size, DOUBLE);
            let d = binary_of(self.compr_data_size, DOUBLE);
            proof {
                crate::rounding::rounded_is_near(self.compr_data_size as nat, 1, DOUBLE as nat);
            }
            divide(n, d, DOUBLE)
        } else {
            Binary { mant: 0, exp: 0 }
        }
    }
}

/// The state of the compressed swap device that the first four words of its
/// statistics give; nothing where one is missing or no number.
pub open spec fn zram_in(content: Option<Seq<char>>) -> Option<ZramInfo> {
    match content {
        None => None,
        Some(s) => {
            let ws = words(s);
            if ws.len() >= 4 {
                match (
                    natural_up_to(ws[0], u64::MAX as nat),
                    natural_up_to(ws[1], u64::MAX as nat),
                    natural_up_to(ws[2], u64::MAX as nat),
                    natural_up_to(ws[3], u64::MAX as nat),
                ) {
                    (Some(orig), Some(compr), Some(used), Some(limit)) => Some(
                        ZramInfo {
                            orig_data_size: orig as u64,
                            compr_data_size: compr as u64,
                            used: used as u64,
                            limit: limit as u64,
                        },
                    ),
                    _ => None,
                }
            } else {
                None
            }
        },
    }
}

/// Reads the statistics of the compressed swap device.
pub fn get_zram_info(content: Option<&str>) -> (r: Option<ZramInfo>)
    ensures
        r == zram_in(text_in(content)),
{
    match content {
        None => None,
        Some(s) => {
            let cs = chars_of(s);
            let parts = words_of(cs.as_slice());
            if parts.len() >= 4 {
                assert(texts(parts@)[0] == parts@[0]@);
                assert(texts(parts@)[1] == parts@[1]@);
                assert(texts(parts@)[2] == parts@[2]@);
                assert(texts(parts@)[3] == parts@[3]@);
                let orig = read_u64(parts[0].as_slice());
                let compr = read_u64(parts[1].as_slice());
                let used = read_u64(parts[2].as_slice());
                let limit = read_u64(parts[3].as_slice());
                match (orig, compr, used, limit) {
                    (Some(orig), Some(compr), Some(used), Some(limit)) => Some(
                        ZramInfo {
                            orig_data_size: orig,
                            compr_data_size: compr,
                            used,
                            limit,
                        },
                    ),
                    _ => None,
                }
            } else {
                None
            }
        },
    }
}

/// Counters of the kernel since the start: processor time by use, events, and
/// how many processes run or wait.
#[derive(Debug, Clone, Copy, PartialEq, Eq, Structural)]
pub struct CpuStats {
    pub context_switches: u64,
    pub interrupts: u64,
    pub softirqs: u64,
    pub user: u64,
    pub nice: u64,
    pub system: u64,
    pub idle: u64,
    pub iowait: u64,
    pub irq: u64,
    pub softirq: u64,
    pub running_procs: u64,
    pub blocked_procs: u64,
}

/// Counters that are all zero.
pub open spec fn no_stats() -> CpuStats {
    CpuStats {
        context_switches: 0,
        interrupts: 0,
        softirqs: 0,
        user: 0,
        nice: 0,
        system: 0,
        idle: 0,
        iowait: 0,
        irq: 0,
        softirq: 0,
        running_procs: 0,
        blocked_procs: 0,
    }
}

impl Default for CpuStats {
    fn default() -> (r: CpuStats)
        ensures
            r == no_stats(),
    {
        CpuStats {
            context_switches: 0,
            interrupts: 0,
            softirqs: 0,
            user: 0,
            nice: 0,
            system: 0,
            idle: 0,
            iowait: 0,
            irq: 0,
            softirq: 0,
            running_procs: 0,
            blocked_procs: 0,
        }
    }
}

/// The counter that a word spells, zero where it spells none.
pub open spec fn counter(w: Seq<char>) -> u64 {
    match natural_up_to(w, u64::MAX as nat) {
        Some(v) => v as u64,
        None => 0,
    }
}

fn counter_of(w: &Vec<char>) -> (r: u64)
    ensures
        r == counter(w@),
{
    match read_u64(w.as_slice()) {
        Some(v) => v,
        None => 0,
    }
}

/// The counter in the second word of a line; `old` where there is no second
/// word.
pub open spec fn second_counter(line: Seq<char>, old: u64) -> u64 {
    if words(line).len() > 1 {
        counter(words(line)[1])
    } else {
        old
    }
}

fn second_counter_of(line: &Vec<char>, old: u64) -> (r: u64)
    ensures
        r == second_counter(line@, old),
{
    let parts = words_of(line.as_slice());
    if parts.len() > 1 {
        assert(texts(parts@)[1] == parts@[1]@);
        counter_of(&parts[1])
    } else {
        old
    }
}

/// The counters after one more line of the statistics: the line of all
/// processors together gives the times, others give one counter each, and the
/// rest is passed over.
pub open spec fn stat_line(stats: CpuStats, line: Seq<char>) -> CpuStats {
    if starts(line, "cpu "@) {
        let ws = words(line);
        if ws.len() >= 8 {
            CpuStats {
                user: counter(ws[1]),
                nice: counter(ws[2]),
                system: counter(ws[3]),
                idle: counter(ws[4]),
                iowait: counter(ws[5]),
                irq: counter(ws[6]),
                softirq: counter(ws[7]),
                ..stats
            }
        } else {
            stats
        }
    } else if starts(line, "ctxt "@) {
        CpuStats { context_switches: second_counter(line, stats.context_switches), ..stats }
    } else if starts(line, "intr "@) {
        CpuStats { interrupts: second_counter(line, stats.interrupts), ..stats }
    } else if starts(line, "softirq "@) {
        CpuStats { softirqs: second_counter(line, stats.softirqs), ..stats }
    } else if starts(line, "procs_running "@) {
        CpuStats { running_procs: second_counter(line, stats.running_procs), ..stats }
    } else if starts(line, "procs_blocked "@) {
        CpuStats { blocked_procs: second_counter(line, stats.blocked_procs), ..stats }
    } else {
        stats
    }
}

/// The counters in the lines of the statistics.
pub open spec fn stat_lines(ls: Seq<Seq<char>>) -> CpuStats
    decreases ls.len(),
{
    if ls.len() == 0 {
        no_stats()
    } else {
        stat_line(stat_lines(ls.drop_last()), ls.last())
    }
}

/// The counters of the kernel in its file; they are all zero where it was not read.
pub open spec fn cpu_stats_in(content: Option<Seq<char>>) -> CpuStats {
    match content {
        Some(s) => stat_lines(lines(s)),
        None => no_stats(),
    }
}

/// Reads the counters of the kernel; they are all zero where the file was not
/// read.
pub fn get_cpu_stats(content: Option<&str>) -> (r: CpuStats)
    ensures
        r == match content {
            Some(s) => stat_lines(lines(s@)),
            None => no_stats(),
        },
        r == cpu_stats_in(text_in(content)),
{
    let mut stats = CpuStats::default();
    match content {
        None => stats,
        Some(s) => {
            let cs = chars_of(s);
            let ls = lines_of(cs.as_slice());
            let ghost all = lines(s@);
            let mut i: usize = 0;
            while i < ls.len()
                invariant
                    i <= ls@.len(),
                    all == texts(ls@),
                    stats == stat_lines(all.take(i as int)),
                decreases ls.len() - i,
            {
                assert(all.take(i + 1).drop_last() == all.take(i as int));
                assert(all.take(i + 1).last() == ls@[i as int]@);
                let line = &ls[i];
                if begins_with(line.as_slice(), "cpu ") {
                    let parts = words_of(line.as_slice());
                    if parts.len() >= 8 {
                        assert(forall|k: int|
                            0 <= k < parts@.len() ==> texts(parts@)[k] == #[trigger] parts@[k]@);
                        stats.user = counter_of(&parts[1]);
                        stats.nice = counter_of(&parts[2]);
                        stats.system = counter_of(&parts[3]);
                        stats.idle = counter_of(&parts[4]);
                        stats.iowait = counter_of(&parts[5]);
                        stats.irq = counter_of(&parts[6]);
                        stats.softirq = counter_of(&parts[7]);
                    }
                } else if begins_with(line.as_slice(), "ctxt ") {
                    stats.context_switches = second_counter_of(line, stats.context_switches);
                } else if begins_with(line.as_slice(), "intr ") {
                    stats.interrupts = second_counter_of(line, stats.interrupts);
                } else if begins_with(line.as_slice(), "softirq ") {
                    stats.softirqs = second_counter_of(line, stats.softirqs);
                } else if begins_with(line.as_slice(), "procs_running ") {
                    stats.running_procs = second_counter_of(line, stats.running_procs);
                } else if begins_with(line.as_slice(), "procs_blocked ") {
                    stats.blocked_procs = second_counter_of(line, stats.blocked_procs);
                }
                i += 1;
            }
            assert(all.take(i as int) == all);
            stats
        },
    }
}

/// The fields of the state of a process that are of interest.
#[derive(Debug, Clone, Copy, PartialEq, Eq, Structural)]
pub struct ProcStat {
    pub state: char,
    pub nice: i32,
    pub num_threads: u32,
    pub processor: u32,
}

/// The fields in the words after the name of the command: the first is field
/// three of the state. What is missing or cannot be read has its default.
pub open spec fn stat_fields(ws: Seq<Seq<char>>) -> ProcStat {
    ProcStat {
        state: if ws.len() > 0 && ws[0].len() > 0 {
            ws[0][0]
        } else {
            'U'
        },
        nice: if ws.len() > 16 {
            match integer_within(ws[16], i32::MIN as int, i32::MAX as int) {
                Some(v) => v as i32,
                None => 0,
            }
        } else {
            0
        },
        num_threads: if ws.len() > 17 {
            match natural_up_to(ws[17], u32::MAX as nat) {
                Some(v) => v as u32,
                None => 1,
            }
        } else {
            1
        },
        processor: if ws.len() > 36 {
            match natural_up_to(ws[36], u32::MAX as nat) {
                Some(v) => v as u32,
                None => 0,
            }
        } else {
            0
        },
    }
}

/// The state of a process: the fields after the last closing parenthesis.
/// There is none where the file was not read or holds no parenthesis.
pub open spec fn proc_stat_in(content: Option<Seq<char>>) -> Option<ProcStat> {
    match content {
        None => None,
        Some(s) => match last_index(s, ')') {
            Some(i) => Some(stat_fields(words(s.skip(i + 1)))),
            None => None,
        },
    }
}

/// Reads the state of a process. The fields are located from the last closing
/// parenthesis on: the name of the command stands in parentheses and may itself
/// contain spaces and parentheses.
pub fn read_proc_stat(content: Option<&str>) -> (r: Option<ProcStat>)
    ensures
        r == proc_stat_in(text_in(content)),
{
    match content {
        None => None,
        Some(s) => {
            let cs = chars_of(s);
            match last_position(cs.as_slice(), ')') {
                None => None,
                Some(i) => {
                    let rest = copy_range(cs.as_slice(), i + 1, cs.len());
                    assert(rest@ == s@.skip(i + 1));
                    let fields = words_of(rest.as_slice());
                    assert(forall|k: int|
                        0 <= k < fields@.len() ==> texts(fields@)[k] == #[trigger] fields@[k]@);
                    let state: char = if fields.len() > 0 && fields[0].len() > 0 {
                        fields[0][0]
                    } else {
                        'U'
                    };
                    let nice: i32 = if fields.len() > 16 {
                        match read_i32(fields[16].as_slice()) {
                            Some(v) => v,
                            None => 0,
                        }
                    } else {
                        0
                    };
                    let num_threads: u32 = if fields.len() > 17 {
                        match read_u32(fields[17].as_slice()) {
                            Some(v) => v,
                            None => 1,
                        }
                    } else {
                        1
                    };
                    let processor: u32 = if fields.len() > 36 {
                        match read_u32(fields[36].as_slice()) {
                            Some(v) => v,
                            None => 0,
                        }
                    } else {
                        0
                    };
                    Some(ProcStat { state, nice, num_threads, processor })
                },
            }
        },
    }
}

/// Whatever the number and the name of a process are, and whatever spaces and
/// parentheses the name contains, its state is read from the fields that
/// follow the name.
pub proof fn proc_stat_ignores_the_name(head: Seq<char>, name: Seq<char>, rest: Seq<char>)
    requires
        !rest.contains(')'),
    ensures
        proc_stat_in(Some(head + seq!['('] + name + seq![')'] + rest)) == Some(
            stat_fields(words(rest)),
        ),
{
    let before = head + seq!['('] + name;
    let s = before + seq![')'] + rest;
    the_last_place_has_none_behind_it(before, ')', rest);
    assert(s.skip(before.len() as int + 1) =~= rest);
}

/// The process numbers among a list of names.
pub open spec fn pids_among(names: Seq<Seq<char>>) -> Set<u32> {
    Set::new(
        |pid: u32|
            exists|i: int|
                0 <= i < names.len() && natural_up_to(#[trigger] names[i], u32::MAX as nat)
                    == Some(pid as nat),
    )
}

/// The numbers of the thread group leaders: those among the names of the
/// entries of the process directory.
pub fn thread_group_leaders(names: &Vec<String>) -> (leaders: HashSet<u32>)
    ensures
        leaders@ == pids_among(crate::hardware::strings(names@)),
{
    broadcast use vstd::std_specs::hash::group_hash_axioms;

    let ghost all = crate::hardware::strings(names@);
    let mut leaders: HashSet<u32> = HashSet::new();
    let mut i: usize = 0;
    assert(leaders@ =~= pids_among(all.take(0)));
    while i < names.len()
        invariant
            i <= names@.len(),
            all == crate::hardware::strings(names@),
            leaders@ == pids_among(all.take(i as int)),
        decreases names.len() - i,
    {
        let cs = chars_of(names[i].as_str());
        let ghost now = all.take(i + 1);
        assert(now[i as int] == cs@);
        let ghost before = leaders@;
        match read_u32(cs.as_slice()) {
            Some(pid) => {
                leaders.insert(pid);
                assert(leaders@ == before.insert(pid));
                assert forall|p: u32| before.insert(pid).contains(p) implies pids_among(
                    now,
                ).contains(p) by {
                    if before.contains(p) {
                        let k = choose|k: int|
                            0 <= k < all.take(i as int).len() && natural_up_to(
                                #[trigger] all.take(i as int)[k],
                                u32::MAX as nat,
                            ) == Some(p as nat);
                        assert(now[k] == all.take(i as int)[k]);
                    }
                }
            },
            None => {
                assert forall|p: u32| before.contains(p) implies pids_among(now).contains(p) by {
                    let k = choose|k: int|
                        0 <= k < all.take(i as int).len() && natural_up_to(
                            #[trigger] all.take(i as int)[k],
                            u32::MAX as nat,
                        ) == Some(p as nat);
                    assert(now[k] == all.take(i as int)[k]);
                }
            },
        }
        assert forall|p: u32| pids_among(now).contains(p) implies leaders@.contains(p) by {
            let k = choose|k: int|
                0 <= k < now.len() && natural_up_to(#[trigger] now[k], u32::MAX as nat) == Some(
                    p as nat,
                );
            if k < i {
                assert(all.take(i as int)[k] == now[k]);
            }
        }
        assert(leaders@ =~= pids_among(now));
        i += 1;
    }
    assert(all.take(i as int) == all);
    leaders
}

/// The names of the users that were looked up, by user number.
pub struct UserCache {
    users: HashMap<u32, String>,
}

impl View for UserCache {
    type V = Map<u32, Seq<char>>;

    closed spec fn view(&self) -> Map<u32, Seq<char>> {
        self.users@.map_values(|name: String| name@)
    }
}

impl UserCache {
    /// A cache without users.
    pub fn new() -> (cache: UserCache)
        ensures
            cache@ == Map::<u32, Seq<char>>::empty(),
    {
        let cache = UserCache { users: HashMap::new() };
        assert(cache@ =~= Map::<u32, Seq<char>>::empty());
        cache
    }
}

/// The user number that a text spells, zero where it spells none.
pub open spec fn user_number(uid: Seq<char>) -> u32 {
    match natural_up_to(uid, u32::MAX as nat) {
        Some(v) => v as u32,
        None => 0,
    }
}

fn user_number_of(uid: &str) -> (r: u32)
    ensures
        r == user_number(uid@),
{
    let cs = chars_of(uid);
    match read_u32(cs.as_slice()) {
        Some(v) => v,
        None => 0,
    }
}

/// The user name in a line of the user list, where its third field is the
/// given number.
pub open spec fn name_in_line(line: Seq<char>, uid: u32) -> Option<Seq<char>> {
    let parts = pieces(line, ':');
    if parts.len() >= 3 && natural_up_to(parts[2], u32::MAX as nat) == Some(uid as nat) {
        Some(parts[0])
    } else {
        None
    }
}

/// The name of a user: that of the first line with the user's number.
pub open spec fn name_in_lines(ls: Seq<Seq<char>>, uid: u32) -> Option<Seq<char>>
    decreases ls.len(),
{
    if ls.len() == 0 {
        None
    } else {
        match name_in_line(ls.first(), uid) {
            Some(name) => Some(name),
            None => name_in_lines(ls.drop_first(), uid),
        }
    }
}

/// The name to show for a user who was not looked up before: that in the user
/// list, or else the text of the number.
pub open spec fn looked_up(uid: Seq<char>, passwd: Option<Seq<char>>) -> Seq<char> {
    match passwd {
        Some(list) => match name_in_lines(lines(list), user_number(uid)) {
            Some(name) => name,
            None => uid,
        },
        None => uid,
    }
}

/// The name to show for the user of a process.
pub open spec fn user_shown(
    known: Map<u32, Seq<char>>,
    uid: Option<Seq<char>>,
    passwd: Option<Seq<char>>,
) -> Seq<char> {
    match uid {
        None => "unknown"@,
        Some(uid) => if known.contains_key(user_number(uid)) {
            known[user_number(uid)]
        } else {
            looked_up(uid, passwd)
        },
    }
}

/// The users known after the user of a process was shown.
pub open spec fn users_known(
    known: Map<u32, Seq<char>>,
    uid: Option<Seq<char>>,
    passwd: Option<Seq<char>>,
) -> Map<u32, Seq<char>> {
    match uid {
        None => known,
        Some(uid) => if known.contains_key(user_number(uid)) {
            known
        } else {
            known.insert(user_number(uid), looked_up(uid, passwd))
        },
    }
}

/// Whether the name of a user can be shown without the user list.
pub fn user_is_known(cache: &UserCache, uid: Option<&str>) -> (r: bool)
    ensures
        r == (uid matches Some(u) ==> cache@.contains_key(user_number(u@))),
{
    broadcast use vstd::std_specs::hash::group_hash_axioms;

    match uid {
        None => true,
        Some(u) => {
            let n = user_number_of(u);
            cache.users.contains_key(&n)
        },
    }
}

fn find_name(list: &str, uid: u32) -> (r: Option<String>)
    ensures
        match r {
            Some(name) => name_in_lines(lines(list@), uid) == Some(name@),
            None => name_in_lines(lines(list@), uid) is None,
        },
{
    let cs = chars_of(list);
    let ls = lines_of(cs.as_slice());
    let ghost all = lines(list@);
    let mut i: usize = 0;
    assert(all.skip(0) == all);
    while i < ls.len()
        invariant
            i <= ls@.len(),
            all == texts(ls@),
            all == lines(list@),
            name_in_lines(all, uid) == name_in_lines(all.skip(i as int), uid),
        decreases ls.len() - i,
    {
        let ghost rest = all.skip(i as int);
        assert(rest.first() == ls@[i as int]@);
        assert(rest.drop_first() == all.skip(i + 1));
        let parts = pieces_of(ls[i].as_slice(), ':');
        if parts.len() >= 3 {
            assert(texts(parts@)[0] == parts@[0]@);
            assert(texts(parts@)[2] == parts@[2]@);
            match read_u32(parts[2].as_slice()) {
                Some(n) => {
                    if n == uid {
                        return Some(string_of(parts[0].as_slice()));
                    }
                },
                None => {},
            }
        }
        i += 1;
    }
    None
}

/// The name of the user of a process, from the text of the user's number and
/// the user list; the list is only looked at for users that are not known yet.
pub fn get_process_user(cache: &mut UserCache, uid: Option<&str>, passwd: Option<&str>) -> (r:
    String)
    ensures
        r@ == user_shown(old(cache)@, text_in(uid), text_in(passwd)),
        final(cache)@ == users_known(old(cache)@, text_in(uid), text_in(passwd)),
{
    broadcast use vstd::std_specs::hash::group_hash_axioms;

    match uid {
        None => "unknown".to_owned(),
        Some(u) => {
            let n = user_number_of(u);
            match cache.users.get(&n) {
                Some(name) => {
                    return name.clone();
                },
                None => {},
            }
            let found: Option<String> = match passwd {
                Some(list) => find_name(list, n),
                None => None,
            };
            let name: String = match found {
                Some(name) => name,
                None => u.to_owned(),
            };
            let ghost before = cache@;
            cache.users.insert(n, name.clone());
            assert(cache@ =~= before.insert(n, name@));
            name
        },
    }
}

/// A user who was shown once is shown under the same name from then on,
/// whatever becomes of the user list.
pub proof fn users_keep_their_names(
    known: Map<u32, Seq<char>>,
    uid: Seq<char>,
    passwd: Option<Seq<char>>,
    later: Option<Seq<char>>,
)
    ensures
        user_shown(users_known(known, Some(uid), passwd), Some(uid), later) == user_shown(
            known,
            Some(uid),
            passwd,
        ),
        users_known(users_known(known, Some(uid), passwd), Some(uid), later) == users_known(
            known,
            Some(uid),
            passwd,
        ),
{
}

/// Whether a word spells a number up to `max`.
pub open spec fn is_number(w: Seq<char>, v: nat, max: nat) -> bool {
    natural(w) == Some(v) && v <= max
}

/// The first four words of the statistics are the sizes, in order, and there are
/// none where one of them is missing or no number.
pub proof fn the_sizes_are_the_first_words(
    s: Seq<char>,
    orig: nat,
    compr: nat,
    used: nat,
    limit: nat,
)
    ensures
        zram_in(None) is None,
        words(s).len() < 4 ==> zram_in(Some(s)) is None,
        words(s).len() >= 4 && is_number(words(s)[0], orig, u64::MAX as nat) && is_number(
            words(s)[1],
            compr,
            u64::MAX as nat,
        ) && is_number(words(s)[2], used, u64::MAX as nat) && is_number(
            words(s)[3],
            limit,
            u64::MAX as nat,
        ) ==> (zram_in(Some(s)) matches Some(z) && z.orig_data_size == orig && z.compr_data_size
            == compr && z.used == used && z.limit == limit),
        zram_in(Some(s)) is Some ==> words(s).len() >= 4 && forall|k: int|
            0 <= k < 4 ==> (natural(#[trigger] words(s)[k]) matches Some(v) && v <= u64::MAX),
{
}

/// The compression ratio times the compressed size is the size of the data, but
/// for at most eight parts in `2^53`; it is zero where nothing is compressed.
pub proof fn the_ratio_is_of_the_sizes(z: ZramInfo, k: nat)
    requires
        k >= 200,
    ensures
        z.compr_data_size == 0 ==> z.ratio().0 == 0,
        z.compr_data_size > 0 ==> near(
            in_units(z.ratio(), k) * z.compr_data_size,
            (z.orig_data_size * pow2(k)) as int,
            8,
            0x20_0000_0000_0000,
        ),
{
    if z.compr_data_size > 0 {
        let a = z.orig_data_size as nat;
        let b = z.compr_data_size as nat;
        lemma_precisions();
        lemma_whole_exponents(b, 52);
        if a > 0 {
            lemma_whole_exponents(a, 52);
            lemma_quotient_exponents(
                rounded(a, 1, DOUBLE as nat).0,
                rounded(b, 1, DOUBLE as nat).0,
                52,
            );
        }
        a_ratio_is_of_its_parts(a, b, DOUBLE as nat, k);
    }
}

/// A line of the statistics sets the counters that its first word names to the
/// numbers behind it and leaves the others; a line with another first word says
/// nothing. The line of all processors together has the times.
pub proof fn a_line_sets_its_counters(ls: Seq<Seq<char>>, l: Seq<char>, v: nat)
    requires
        v <= u64::MAX,
    ensures
        stat_lines(Seq::empty()) == no_stats(),
        ({
            let before = stat_lines(ls);
            let after = stat_lines(ls.push(l));
            let given = words(l).len() > 1 && natural(words(l)[1]) == Some(v);
            &&& begins(l, seq!['c', 't', 'x', 't', ' ']) && given ==> after == (CpuStats {
                context_switches: v as u64,
                ..before
            })
            &&& begins(l, seq!['i', 'n', 't', 'r', ' ']) && given ==> after == (CpuStats {
                interrupts: v as u64,
                ..before
            })
            &&& begins(l, seq!['s', 'o', 'f', 't', 'i', 'r', 'q', ' ']) && given ==> after == (
            CpuStats { softirqs: v as u64, ..before })
            &&& begins(
                l,
                seq!['p', 'r', 'o', 'c', 's', '_', 'r', 'u', 'n', 'n', 'i', 'n', 'g', ' '],
            ) && given ==> after == (CpuStats { running_procs: v as u64, ..before })
            &&& begins(
                l,
                seq!['p', 'r', 'o', 'c', 's', '_', 'b', 'l', 'o', 'c', 'k', 'e', 'd', ' '],
            ) && given ==> after == (CpuStats { blocked_procs: v as u64, ..before })
            &&& begins(l, seq!['c', 'p', 'u', ' ']) && words(l).len() >= 8 ==> after == (CpuStats {
                user: number_or_zero(words(l)[1]),
                nice: number_or_zero(words(l)[2]),
                system: number_or_zero(words(l)[3]),
                idle: number_or_zero(words(l)[4]),
                iowait: number_or_zero(words(l)[5]),
                irq: number_or_zero(words(l)[6]),
                softirq: number_or_zero(words(l)[7]),
                ..before
            })
            &&& begins(l, seq!['c', 'p', 'u', ' ']) && words(l).len() < 8 ==> after == before
            &&& l.len() > 0 && !(seq!['c', 'i', 's', 'p'].contains(l[0])) ==> after == before
            &&& l.len() > 3 && l[0] == 'c' && l[1] == 'p' && l[3] != ' ' ==> after == before
            &&& words(l).len() <= 1 ==> after == before
            &&& !begins(l, "cpu "@) && words(l).len() > 1 ==> {
                let n = number_or_zero(words(l)[1]);
                &&& after.context_switches == if begins(l, "ctxt "@) {
                    n
                } else {
                    before.context_switches
                }
                &&& after.interrupts == if begins(l, "intr "@) {
                    n
                } else {
                    before.interrupts
                }
                &&& after.softirqs == if begins(l, "softirq "@) {
                    n
                } else {
                    before.softirqs
                }
                &&& after.running_procs == if begins(l, "procs_running "@) {
                    n
                } else {
                    before.running_procs
                }
                &&& after.blocked_procs == if begins(l, "procs_blocked "@) {
                    n
                } else {
                    before.blocked_procs
                }
                &&& after.user == before.user && after.nice == before.nice && after.system
                    == before.system && after.idle == before.idle
                &&& after.iowait == before.iowait && after.irq == before.irq && after.softirq
                    == before.softirq
            }
        }),
{
    reveal_strlit("cpu ");
    reveal_strlit("ctxt ");
    reveal_strlit("intr ");
    reveal_strlit("softirq ");
    reveal_strlit("procs_running ");
    reveal_strlit("procs_blocked ");
    assert(ls.push(l).drop_last() =~= ls);
    lemma_begins(l, "cpu "@, seq!['c', 'p', 'u', ' ']);
    lemma_begins(l, "ctxt "@, seq!['c', 't', 'x', 't', ' ']);
    lemma_begins(l, "intr "@, seq!['i', 'n', 't', 'r', ' ']);
    lemma_begins(l, "softirq "@, seq!['s', 'o', 'f', 't', 'i', 'r', 'q', ' ']);
    lemma_begins(
        l,
        "procs_running "@,
        seq!['p', 'r', 'o', 'c', 's', '_', 'r', 'u', 'n', 'n', 'i', 'n', 'g', ' '],
    );
    lemma_begins(
        l,
        "procs_blocked "@,
        seq!['p', 'r', 'o', 'c', 's', '_', 'b', 'l', 'o', 'c', 'k', 'e', 'd', ' '],
    );
    let first = seq!['c', 'i', 's', 'p'];
    assert(first[0] == 'c' && first[1] == 'i' && first[2] == 's' && first[3] == 'p');
    if l.len() > 0 && !first.contains(l[0]) {
        assert(l[0] != first[0] && l[0] != first[1] && l[0] != first[2] && l[0] != first[3]);
    }
}

/// The number that a word spells, as far as 64 bits hold it, and else zero.
pub open spec fn number_or_zero(w: Seq<char>) -> u64 {
    match natural(w) {
        Some(v) => if v <= u64::MAX {
            v as u64
        } else {
            0
        },
        None => 0,
    }
}

proof fn lemma_begins(l: Seq<char>, p: Seq<char>, q: Seq<char>)
    requires
        p =~= q,
    ensures
        starts(l, p) <==> begins(l, q),
        starts(l, p) && p.len() > 0 ==> l.len() > 0 && l[0] == q[0],
        starts(l, p) && p.len() > 1 ==> l.len() > 1 && l[1] == q[1],
        starts(l, p) && p.len() > 3 ==> l.len() > 3 && l[2] == q[2] && l[3] == q[3],
        starts(l, p) && p.len() > 6 ==> l.len() > 6 && l[6] == q[6],
{
    if starts(l, p) {
        assert forall|i: int| 0 <= i < p.len() implies #[trigger] l[i] == q[i] by {
            assert(l.subrange(0, p.len() as int)[i] == p[i]);
        }
    }
    if begins(l, q) {
        assert(l.subrange(0, p.len() as int) =~= p);
    }
}

/// Behind the name of a process stand its fields: the first is the state, of which
/// the first letter counts, the seventeenth the nice value, the eighteenth the
/// number of threads and the thirty-seventh the processor. What is missing or no
/// number has its default.
pub proof fn the_fields_have_their_places(ws: Seq<Seq<char>>)
    ensures
        ({
            let f = stat_fields(ws);
            &&& ws.len() > 0 && ws[0].len() > 0 ==> f.state == ws[0][0]
            &&& ws.len() == 0 || ws[0].len() == 0 ==> f.state == 'U'
            &&& ws.len() > 16 && integer_within(ws[16], i32::MIN as int, i32::MAX as int) is Some
                ==> Some(f.nice as int) == integer_within(
                ws[16],
                i32::MIN as int,
                i32::MAX as int,
            )
            &&& ws.len() <= 16 || integer_within(ws[16], i32::MIN as int, i32::MAX as int) is None
                ==> f.nice == 0
            &&& f.num_threads == if ws.len() > 17 && (natural(ws[17]) matches Some(v) && v
                <= u32::MAX) {
                natural(ws[17])->0
            } else {
                1
            }
            &&& f.processor == if ws.len() > 36 && (natural(ws[36]) matches Some(v) && v
                <= u32::MAX) {
                natural(ws[36])->0
            } else {
                0
            }
        }),
{
}

/// The name of a user stands before the first colon of the first line whose third
/// field is the number of the user; where no line has it, the number itself is
/// shown.
pub proof fn users_have_the_name_in_their_line(
    ls: Seq<Seq<char>>,
    i: int,
    name: Seq<char>,
    word: Seq<char>,
    number: Seq<char>,
    rest: Seq<char>,
    uid: u32,
)
    requires
        0 <= i <= ls.len(),
        forall|j: int| 0 <= j < i ==> name_in_line(#[trigger] ls[j], uid) is None,
    ensures
        i == ls.len() ==> name_in_lines(ls, uid) is None,
        i < ls.len() && ls[i] == name + seq![':'] + word + seq![':'] + number + rest
            && !name.contains(':') && !word.contains(':') && !number.contains(':') && (rest.len()
            == 0 || rest[0] == ':') && natural(number) == Some(uid as nat) ==> name_in_lines(ls, uid)
            == Some(name),
    decreases i,
{
    if i > 0 {
        let later = ls.drop_first();
        assert(ls[0] == ls.first());
        assert(name_in_line(ls[0], uid) is None);
        assert forall|j: int| 0 <= j < i - 1 implies name_in_line(
            #[trigger] later[j],
            uid,
        ) is None by {
            assert(later[j] == ls[j + 1]);
        }
        users_have_the_name_in_their_line(later, i - 1, name, word, number, rest, uid);
    } else if ls.len() > 0 && ls[0] == name + seq![':'] + word + seq![':'] + number + rest
        && !name.contains(':') && !word.contains(':') && !number.contains(':') && (rest.len() == 0
        || rest[0] == ':') {
        let tail = word + seq![':'] + number + rest;
        let line = ls[0];
        assert(line =~= name + seq![':'] + tail);
        pieces_stand_between_separators(name, ':', tail);
        assert(tail =~= word + seq![':'] + (number + rest));
        pieces_stand_between_separators(word, ':', number + rest);
        if rest.len() == 0 {
            assert(number + rest =~= number);
            pieces_stand_between_separators(number, ':', Seq::empty());
        } else {
            assert(number + rest =~= number + seq![':'] + rest.drop_first());
            pieces_stand_between_separators(number, ':', rest.drop_first());
        }
        let ps = pieces(line, ':');
        assert(ps == seq![name] + (seq![word] + pieces(number + rest, ':')));
        assert(ps[0] == name && ps[2] == pieces(number + rest, ':')[0]);
        assert(pieces(number + rest, ':')[0] == number);
        assert(ps.len() >= 3);
    }
}

/// A user who is not known is shown by the name in the list, or by the number as
/// it is written; a process without user number has no known user, and a text that
/// is no number stands for the user zero.
pub proof fn unknown_users_are_looked_up(
    known: Map<u32, Seq<char>>,
    uid: Seq<char>,
    list: Seq<char>,
    n: u32,
)
    requires
        natural(uid) == Some(n as nat) || (n == 0 && natural(uid) is None),
        !known.contains_key(n),
    ensures
        user_shown(known, None, Some(list)) == "unknown"@,
        user_shown(known, Some(uid), None) == uid,
        user_shown(known, Some(uid), Some(list)) == match name_in_lines(lines(list), n) {
            Some(name) => name,
            None => uid,
        },
        users_known(known, Some(uid), Some(list)) == known.insert(
            n,
            user_shown(known, Some(uid), Some(list)),
        ),
{
}

/// The leaders of thread groups are the numbers among the names, and no others.
pub proof fn the_leaders_are_the_numbers(names: Seq<Seq<char>>, pid: u32)
    ensures
        pids_among(names).contains(pid) <==> exists|i: int|
            0 <= i < names.len() && natural(#[trigger] names[i]) == Some(pid as nat),
{
    if exists|i: int| 0 <= i < names.len() && natural(#[trigger] names[i]) == Some(pid as nat) {
        let i = choose|i: int|
            0 <= i < names.len() && natural(#[trigger] names[i]) == Some(pid as nat);
        assert(natural_up_to(names[i], u32::MAX as nat) == Some(pid as nat));
    }
}

/// The counters in a file are those that its lines set one after the other, from the
/// first to the last; before the first line, and without a file, all are zero.
pub proof fn the_counters_are_those_of_the_lines(s: Seq<char>)
    ensures
        cpu_stats_in(Some(s)) == lines(s).fold_left(
            cpu_stats_in(None),
            |stats: CpuStats, line: Seq<char>| stat_line(stats, line),
        ),
        cpu_stats_in(None).user == 0 && cpu_stats_in(None).nice == 0 && cpu_stats_in(None).system
            == 0 && cpu_stats_in(None).idle == 0 && cpu_stats_in(None).iowait == 0 && cpu_stats_in(
            None,
        ).irq == 0 && cpu_stats_in(None).softirq == 0,
        cpu_stats_in(None).context_switches == 0 && cpu_stats_in(None).interrupts == 0
            && cpu_stats_in(None).softirqs == 0 && cpu_stats_in(None).running_procs == 0
            && cpu_stats_in(None).blocked_procs == 0,
{
    lemma_lines_folded(lines(s));
}

proof fn lemma_lines_folded(ls: Seq<Seq<char>>)
    ensures
        stat_lines(ls) == ls.fold_left(
            no_stats(),
            |stats: CpuStats, line: Seq<char>| stat_line(stats, line),
        ),
    decreases ls.len(),
{
    if ls.len() > 0 {
        lemma_lines_folded(ls.drop_last());
    }
}

/// The fields of a process are the words behind the last closing bracket; where there is
/// none, and where the file was not read, there are no fields.
pub proof fn the_fields_stand_behind_the_last_bracket(a: Seq<char>, rest: Seq<char>)
    requires
        !rest.contains(')'),
    ensures
        proc_stat_in(Some(a + seq![')'] + rest)) == Some(stat_fields(words(rest))),
        proc_stat_in(Some(rest)) is None,
        proc_stat_in(None) is None,
{
    the_last_place_has_none_behind_it(a, ')', rest);
    assert((a + seq![')'] + rest).skip(a.len() as int + 1) =~= rest);
}

/// A line of the user list names a user if and only if its third field is the number of
/// the user, and the name is the first field.
pub proof fn a_line_names_the_user_with_its_number(line: Seq<char>, uid: u32)
    ensures
        name_in_line(line, uid) is Some <==> pieces(line, ':').len() > 2 && natural(
            pieces(line, ':')[2],
        ) == Some(uid as nat),
        name_in_line(line, uid) matches Some(name) ==> name == pieces(line, ':')[0],
{
}

/// A user who is known is shown by the known name, and nothing is noted then. Nothing is
/// noted either of a process without user number. A number that is too large stands for
/// the user zero, as a text does that is no number.
pub proof fn known_users_are_shown_by_their_names(
    known: Map<u32, Seq<char>>,
    uid: Seq<char>,
    passwd: Option<Seq<char>>,
    n: u32,
)
    requires
        natural(uid) == Some(n as nat) || (n == 0 && (natural(uid) matches Some(v) ==> v
            > u32::MAX)),
    ensures
        known.contains_key(n) ==> user_shown(known, Some(uid), passwd) == known[n],
        known.contains_key(n) ==> users_known(known, Some(uid), passwd) == known,
        users_known(known, None, passwd) == known,
        user_shown(known, None, passwd) == "unknown"@,
        !known.contains_key(n) ==> users_known(known, Some(uid), passwd) == known.insert(
            n,
            user_shown(known, Some(uid), passwd),
        ),
        !known.contains_key(n) && passwd is None ==> user_shown(known, Some(uid), passwd) == uid,
{
}

} // verus!
