//! Readings of the board: processors, graphics unit, neural unit and scaler,
//! from the contents of the files that hold them.

use vstd::arithmetic::power2::pow2;
use vstd::prelude::*;

use crate::bounds::{at_most, cells_fit_the_bar, hundred, share_is_at_most_hundred};
use crate::file_cache::{number_in, read_cached_u32, read_cached_u64, text_in};
use crate::nearness::{a_share_is_the_part_of_the_total, in_units, near};
use crate::number::{
    decimal, decimal_of, is_digit, lemma_decimal_digits, natural, natural_reads_decimal,
    natural_up_to, read_u64, read_u8, read_usize,
};
use crate::order::{are_the_places, lemma_places_extend};
use crate::outside::{captures_iter, groups_in, matches_in, optional_text, regex_matches};
use crate::rounding::{single_bits, single_pattern, stands_for, SINGLE};
use crate::text::{
    a_text_holds_its_parts, begins, begins_with, chars_of, contains, copy_range, equals,
    every_place_is_replaced, has_part, holds, index_from, lemma_index_from, lemma_starts_begins,
    lines, lines_of, pieces, pieces_stand_between_separators, position_from, push_all, push_str,
    replace, replaced, second_piece, second_piece_of, stands_at, starts, string_of, texts, trim,
    trim_end_of, trimmed, trimmed_end_of, trimming_takes_a_character_away, words, words_of,
};
use crate::units::{lemma_precisions, share, share_of};
use crate::usage::bar_fits;

pub use crate::thermal::get_thermal;
pub use crate::versions::{
    get_board_name, get_librkllmrt_version, get_librknnrt_version, get_npu_driver_version,
    get_rga_version, get_rk_model,
};

verus! {

/// Busy and idle time in a list of alternating names and numbers, from
/// position `i` on; nothing where a number cannot be read. A name may end in
/// colons, other names are passed over, and a name without number is ignored.
pub open spec fn gpu_times_from(ws: Seq<Seq<char>>, i: int, busy: nat, idle: nat) -> Option<
    (nat, nat),
>
    decreases ws.len() - i,
{
    if i + 1 >= ws.len() {
        Some((busy, idle))
    } else {
        match natural_up_to(ws[i + 1], u64::MAX as nat) {
            None => None,
            Some(v) => {
                let key = trim_end_of(ws[i], ':');
                if key == "busy_time"@ {
                    gpu_times_from(ws, i + 2, v, idle)
                } else if key == "idle_time"@ {
                    gpu_times_from(ws, i + 2, busy, v)
                } else {
                    gpu_times_from(ws, i + 2, busy, idle)
                }
            },
        }
    }
}

/// The busy and the idle time in the utilization file of the graphics unit.
pub open spec fn gpu_times_in(content: Seq<char>) -> Option<(nat, nat)> {
    gpu_times_from(words(content), 0, 0, 0)
}

/// Reads the busy and the idle time of the graphics unit.
pub fn gpu_times(content: &str) -> (r: Option<(u64, u64)>)
    ensures
        match r {
            Some((busy, idle)) => gpu_times_in(content@) == Some((busy as nat, idle as nat)),
            None => gpu_times_in(content@) is None,
        },
{
    let cs = chars_of(content);
    let parts = words_of(cs.as_slice());
    let mut busy: u64 = 0;
    let mut idle: u64 = 0;
    let mut i: usize = 0;
    while i < parts.len() && parts.len() - i > 1
        invariant
            i <= parts@.len(),
            texts(parts@) == words(content@),
            gpu_times_in(content@) == gpu_times_from(
                texts(parts@),
                i as int,
                busy as nat,
                idle as nat,
            ),
        decreases parts.len() - i,
    {
        assert(texts(parts@)[i as int] == parts@[i as int]@);
        assert(texts(parts@)[i + 1] == parts@[i + 1]@);
        let key = trimmed_end_of(parts[i].as_slice(), ':');
        match read_u64(parts[i + 1].as_slice()) {
            None => {
                return None;
            },
            Some(value) => {
                if equals(key.as_slice(), "busy_time") {
                    busy = value;
                } else if equals(key.as_slice(), "idle_time") {
                    idle = value;
                }
            },
        }
        i += 2;
    }
    Some((busy, idle))
}

/// The usage of the graphics unit in percent: the busy share of the whole
/// time, in single precision. There is none where the file was not read, where
/// a number in it cannot be read, and where no time has passed.
pub open spec fn gpu_usage(content: Option<Seq<char>>) -> Option<(nat, int)> {
    match content {
        None => None,
        Some(s) => match gpu_times_in(s) {
            None => None,
            Some((busy, idle)) => if busy + idle > 0 {
                Some(share(busy, busy + idle, SINGLE as nat))
            } else {
                None
            },
        },
    }
}

/// The usage of the graphics unit in percent, from its utilization file: a single
/// precision number up to a hundred, as a 32-bit pattern.
pub fn get_gpu_usage(content: Option<&str>) -> (r: Option<u32>)
    requires
        content matches Some(s) ==> (gpu_times_in(s@) matches Some((busy, idle)) ==> busy + idle
            <= u64::MAX),
    ensures
        match r {
            Some(bits) => gpu_usage(text_in(content)) matches Some(v) && bits == single_pattern(v)
                && stands_for(bits, v) && at_most(v, hundred(23)) && bar_fits(bits, 30),
            None => gpu_usage(text_in(content)) is None,
        },
{
    match content {
        None => None,
        Some(s) => match gpu_times(s) {
            None => None,
            Some((busy, idle)) => {
                let total: u64 = busy + idle;
                if total > 0 {
                    proof {
                        lemma_precisions();
                        vstd::arithmetic::power2::lemma2_to64();
                        let v = share(busy as nat, total as nat, SINGLE as nat);
                        share_is_at_most_hundred(busy as nat, total as nat, 23);
                        cells_fit_the_bar(v, 30, 4, 23);
                        cells_fit_the_bar((0, -149), 30, 4, 23);
                    }
                    Some(single_bits(share_of(busy, total, SINGLE)))
                } else {
                    None
                }
            },
        },
    }
}

/// The texts of a list of strings.
pub open spec fn strings(v: Seq<String>) -> Seq<Seq<char>> {
    v.map_values(|s: String| s@)
}

/// The frequencies in MHz of the processors whose files hold kHz, up to the
/// first file that holds no number.
pub open spec fn frequencies(contents: Seq<Seq<char>>) -> Seq<u32>
    decreases contents.len(),
{
    if contents.len() == 0 {
        Seq::empty()
    } else {
        match number_in(Some(contents.first()), u32::MAX as nat) {
            Some(khz) => seq![(khz / 1000) as u32] + frequencies(contents.drop_first()),
            None => Seq::empty(),
        }
    }
}

/// The frequencies of the processors in MHz. The files of the processors are
/// given in order, up to the first that could not be read.
pub fn get_cpu_frequencies(contents: &Vec<String>) -> (r: Vec<u32>)
    ensures
        r@ == frequencies(strings(contents@)),
{
    let mut freqs: Vec<u32> = Vec::new();
    let mut i: usize = 0;
    let ghost all = strings(contents@);
    assert(all.skip(0) == all);
    assert(freqs@ + frequencies(all) =~= frequencies(all));
    while i < contents.len()
        invariant
            i <= contents@.len(),
            all == strings(contents@),
            freqs@ + frequencies(all.skip(i as int)) == frequencies(all),
        decreases contents.len() - i,
    {
        let ghost rest = all.skip(i as int);
        assert(rest.first() == contents@[i as int]@);
        match read_cached_u32(Some(contents[i].as_str())) {
            None => {
                assert(freqs@ + Seq::<u32>::empty() =~= freqs@);
                return freqs;
            },
            Some(khz) => {
                let ghost before = freqs@;
                freqs.push(khz / 1000);
                assert(rest.drop_first() == all.skip(i + 1));
                assert(before.push(khz / 1000) + frequencies(all.skip(i + 1)) =~= before + (seq![
                    khz / 1000,
                ] + frequencies(all.skip(i + 1))));
            },
        }
        i += 1;
    }
    assert(all.skip(i as int) =~= Seq::empty());
    assert(freqs@ + Seq::<u32>::empty() =~= freqs@);
    freqs
}

/// The texts of a list of pairs of strings.
pub open spec fn pairs(v: Seq<(String, String)>) -> Seq<(Seq<char>, Seq<char>)> {
    v.map_values(|p: (String, String)| (p.0@, p.1@))
}

/// The range in MHz of a processor whose files hold kHz.
pub open spec fn freq_range(files: (Seq<char>, Seq<char>)) -> Option<(u32, u32)> {
    match (number_in(Some(files.0), u32::MAX as nat), number_in(Some(files.1), u32::MAX as nat)) {
        (Some(min), Some(max)) => Some(((min / 1000) as u32, (max / 1000) as u32)),
        _ => None,
    }
}

/// The ranges of the processors up to the first that has none, each range
/// once, in the order in which they come up; `seen` are those already found.
pub open spec fn ranges_after(
    contents: Seq<(Seq<char>, Seq<char>)>,
    seen: Seq<(u32, u32)>,
) -> Seq<(u32, u32)>
    decreases contents.len(),
{
    if contents.len() == 0 {
        seen
    } else {
        match freq_range(contents.first()) {
            Some(range) => ranges_after(
                contents.drop_first(),
                if seen.contains(range) {
                    seen
                } else {
                    seen.push(range)
                },
            ),
            None => seen,
        }
    }
}

/// The distinct frequency ranges of the processors in MHz, lowest and highest
/// frequency of each. The files of the processors are given in order, up to the
/// first processor of which one could not be read.
pub fn get_cpu_freq_ranges(contents: &Vec<(String, String)>) -> (r: Vec<(u32, u32)>)
    ensures
        r@ == ranges_after(pairs(contents@), Seq::empty()),
{
    let mut ranges: Vec<(u32, u32)> = Vec::new();
    let mut i: usize = 0;
    let ghost all = pairs(contents@);
    assert(all.skip(0) == all);
    while i < contents.len()
        invariant
            i <= contents@.len(),
            all == pairs(contents@),
            ranges_after(all, Seq::empty()) == ranges_after(all.skip(i as int), ranges@),
        decreases contents.len() - i,
    {
        let ghost rest = all.skip(i as int);
        let files = &contents[i];
        assert(rest.first() == (files.0@, files.1@));
        assert(rest.drop_first() == all.skip(i + 1));
        let min = read_cached_u32(Some(files.0.as_str()));
        let max = read_cached_u32(Some(files.1.as_str()));
        match (min, max) {
            (Some(min), Some(max)) => {
                let range: (u32, u32) = (min / 1000, max / 1000);
                if !has_range(&ranges, range) {
                    ranges.push(range);
                }
            },
            _ => {
                return ranges;
            },
        }
        i += 1;
    }
    ranges
}

fn has_range(ranges: &Vec<(u32, u32)>, range: (u32, u32)) -> (r: bool)
    ensures
        r == ranges@.contains(range),
{
    let mut i: usize = 0;
    while i < ranges.len()
        invariant
            i <= ranges@.len(),
            forall|k: int| 0 <= k < i ==> ranges@[k] != range,
        decreases ranges.len() - i,
    {
        if ranges[i].0 == range.0 && ranges[i].1 == range.1 {
            assert(ranges@[i as int] == range);
            return true;
        }
        i += 1;
    }
    false
}

/// No frequency range is listed twice, and the range of every processor before
/// the first that has none is listed.
pub proof fn ranges_are_distinct_and_complete(contents: Seq<(Seq<char>, Seq<char>)>, k: int)
    ensures
        ranges_after(contents, Seq::empty()).no_duplicates(),
        0 <= k < contents.len() && (forall|j: int|
            0 <= j <= k ==> freq_range(#[trigger] contents[j]) is Some) ==> ranges_after(
            contents,
            Seq::empty(),
        ).contains(freq_range(contents[k]).unwrap()),
{
    lemma_ranges(contents, Seq::empty(), k);
}

proof fn lemma_ranges(contents: Seq<(Seq<char>, Seq<char>)>, seen: Seq<(u32, u32)>, k: int)
    requires
        seen.no_duplicates(),
    ensures
        ranges_after(contents, seen).no_duplicates(),
        forall|r: (u32, u32)|
            seen.contains(r) ==> #[trigger] ranges_after(contents, seen).contains(r),
        0 <= k < contents.len() && (forall|j: int|
            0 <= j <= k ==> freq_range(#[trigger] contents[j]) is Some) ==> ranges_after(
            contents,
            seen,
        ).contains(freq_range(contents[k]).unwrap()),
    decreases contents.len(),
{
    if contents.len() > 0 {
        match freq_range(contents.first()) {
            Some(range) => {
                let next = if seen.contains(range) {
                    seen
                } else {
                    seen.push(range)
                };
                assert(next.contains(range)) by {
                    if !seen.contains(range) {
                        assert(next.last() == range);
                    }
                }
                assert forall|r: (u32, u32)| seen.contains(r) implies next.contains(r) by {
                    let i = choose|i: int| 0 <= i < seen.len() && seen[i] == r;
                    assert(next[i] == r);
                }
                lemma_ranges(contents.drop_first(), next, k - 1);
                if 0 < k < contents.len() && (forall|j: int|
                    0 <= j <= k ==> freq_range(#[trigger] contents[j]) is Some) {
                    assert forall|j: int| 0 <= j <= k - 1 implies freq_range(
                        #[trigger] contents.drop_first()[j],
                    ) is Some by {
                        assert(contents.drop_first()[j] == contents[j + 1]);
                    }
                    assert(contents.drop_first()[k - 1] == contents[k]);
                }
            },
            None => {},
        }
    }
}

/// A frequency in Hz as MHz, as far as 32 bits hold it.
pub open spec fn megahertz(hz: nat) -> nat {
    (hz / 1_000_000) % 0x1_0000_0000
}

fn megahertz_of(hz: u64) -> (r: u32)
    ensures
        r == megahertz(hz as nat),
{
    let mhz: u64 = hz / 1_000_000;
    assert(mhz as u32 == mhz % 0x1_0000_0000) by (bit_vector);
    mhz as u32
}

/// The contents of files, as far as they could be read.
pub open spec fn optional_texts(v: Seq<Option<String>>) -> Seq<Option<Seq<char>>> {
    v.map_values(|o: Option<String>| optional_text(o))
}

/// The frequency in MHz in the first of the files that was read and holds a
/// number of Hz.
pub open spec fn first_frequency(contents: Seq<Option<Seq<char>>>) -> Option<nat>
    decreases contents.len(),
{
    if contents.len() == 0 {
        None
    } else {
        match number_in(contents.first(), u64::MAX as nat) {
            Some(hz) => Some(megahertz(hz)),
            None => first_frequency(contents.drop_first()),
        }
    }
}

/// The frequency of the graphics unit in MHz. The files that may hold it are
/// given in the order in which they are tried.
pub fn get_gpu_frequency(contents: &Vec<Option<String>>) -> (r: Option<u32>)
    ensures
        match r {
            Some(v) => first_frequency(optional_texts(contents@)) == Some(v as nat),
            None => first_frequency(optional_texts(contents@)) is None,
        },
{
    let ghost all = optional_texts(contents@);
    let mut i: usize = 0;
    assert(all.skip(0) == all);
    while i < contents.len()
        invariant
            i <= contents@.len(),
            all == optional_texts(contents@),
            first_frequency(all) == first_frequency(all.skip(i as int)),
        decreases contents.len() - i,
    {
        let ghost rest = all.skip(i as int);
        assert(rest.first() == optional_text(contents@[i as int]));
        assert(rest.drop_first() == all.skip(i + 1));
        match &contents[i] {
            Some(content) => {
                match read_cached_u64(Some(content.as_str())) {
                    Some(hz) => {
                        return Some(megahertz_of(hz));
                    },
                    None => {},
                }
            },
            None => {},
        }
        i += 1;
    }
    None
}

/// The frequency of the neural unit in MHz, from the file that holds it in Hz.
pub open spec fn npu_frequency_in(content: Option<Seq<char>>) -> Option<nat> {
    match number_in(content, u64::MAX as nat) {
        Some(hz) => Some(megahertz(hz)),
        None => None,
    }
}

/// The frequency of the neural unit in MHz, from the file that holds it in Hz.
pub fn get_npu_frequency(content: Option<&str>) -> (r: Option<u32>)
    ensures
        match r {
            Some(v) => number_in(text_in(content), u64::MAX as nat) matches Some(hz) && v
                == megahertz(hz),
            None => number_in(text_in(content), u64::MAX as nat) is None,
        },
        match r {
            Some(v) => npu_frequency_in(text_in(content)) == Some(v as nat),
            None => npu_frequency_in(text_in(content)) is None,
        },
{
    match read_cached_u64(content) {
        Some(hz) => Some(megahertz_of(hz)),
        None => None,
    }
}

/// What the load of a core of the neural unit looks like.
pub const NPU_CORE_PATTERN: &'static str = r"Core(\d+):\s*(\d+)%";

/// The text of group `k` of a match.
pub open spec fn group(groups: Seq<Option<Seq<char>>>, k: int) -> Option<Seq<char>> {
    if 0 <= k < groups.len() {
        groups[k]
    } else {
        None
    }
}

/// The load that the second group of a match holds.
pub open spec fn core_load(groups: Seq<Option<Seq<char>>>) -> Option<nat> {
    match group(groups, 2) {
        Some(t) => natural_up_to(t, u8::MAX as nat),
        None => None,
    }
}

/// The loads in the matches that hold one, in order.
pub open spec fn core_loads(found: Seq<Seq<Option<Seq<char>>>>) -> Seq<u8>
    decreases found.len(),
{
    if found.len() == 0 {
        Seq::empty()
    } else {
        match core_load(found.last()) {
            Some(v) => core_loads(found.drop_last()).push(v as u8),
            None => core_loads(found.drop_last()),
        }
    }
}

/// The loads of the cores, from the matches of [`NPU_CORE_PATTERN`].
pub fn npu_loads(found: &Vec<Vec<Option<String>>>) -> (r: Vec<u8>)
    ensures
        r@ == core_loads(matches_in(found@)),
{
    let ghost all = matches_in(found@);
    let mut loads: Vec<u8> = Vec::new();
    let mut i: usize = 0;
    while i < found.len()
        invariant
            i <= found@.len(),
            all == matches_in(found@),
            loads@ == core_loads(all.take(i as int)),
        decreases found.len() - i,
    {
        let groups = &found[i];
        assert(all.take(i + 1).drop_last() == all.take(i as int));
        assert(all.take(i + 1).last() == groups_in(groups@));
        if groups.len() > 2 {
            assert(groups_in(groups@)[2] == optional_text(groups@[2]));
            match &groups[2] {
                Some(t) => {
                    let cs = chars_of(t.as_str());
                    match read_u8(cs.as_slice()) {
                        Some(v) => loads.push(v),
                        None => {},
                    }
                },
                None => {},
            }
        }
        i += 1;
    }
    assert(all.take(i as int) == all);
    loads
}

/// The loads of the cores of the neural unit in its load file.
pub open spec fn npu_loads_in(content: Option<Seq<char>>) -> Seq<u8> {
    match content {
        Some(s) => match regex_matches(NPU_CORE_PATTERN@, s) {
            Some(found) => core_loads(found),
            None => Seq::empty(),
        },
        None => Seq::empty(),
    }
}

/// The loads of the cores of the neural unit in percent, from its load file.
pub fn get_npu_load(content: Option<&str>) -> (r: Vec<u8>)
    ensures
        r@ == match content {
            Some(s) => match regex_matches(NPU_CORE_PATTERN@, s@) {
                Some(found) => core_loads(found),
                None => Seq::empty(),
            },
            None => Seq::empty(),
        },
        r@ == npu_loads_in(text_in(content)),
{
    match content {
        Some(s) => match captures_iter(NPU_CORE_PATTERN, s) {
            Some(found) => npu_loads(&found),
            None => Vec::new(),
        },
        None => Vec::new(),
    }
}

/// What has been read of the load file of the scaler: the scheduler that the
/// following loads belong to, the last index read, and the loads found, each
/// with its scheduler.
pub struct RgaView {
    pub scheduler: Seq<char>,
    pub index: nat,
    pub loads: Seq<(Seq<char>, Seq<char>)>,
}

/// The index between the brackets after `scheduler`, zero where it is no
/// number; nothing where the bracket is not closed.
pub open spec fn scheduler_index(line: Seq<char>) -> Option<nat> {
    let end = index_from(line, ']', 0);
    if end < line.len() {
        Some(
            match natural_up_to(line.subrange(10, end), usize::MAX as nat) {
                Some(v) => v,
                None => 0,
            },
        )
    } else {
        None
    }
}

/// The effect of one line of the load file. Lines with a dash and the heading
/// say nothing; a scheduler line names the scheduler, with its index; a load
/// line gives the load of the scheduler named last.
pub open spec fn rga_line(state: RgaView, raw: Seq<char>) -> RgaView {
    let line = trim(raw);
    if contains(line, "-"@) || contains(line, "= load ="@) {
        state
    } else if starts(line, "scheduler["@) {
        let index = match scheduler_index(line) {
            Some(v) => v,
            None => state.index,
        };
        let scheduler = match second_piece(line, ':') {
            Some(name) => trim(name) + "_"@ + decimal(index),
            None => state.scheduler,
        };
        RgaView { scheduler, index, loads: state.loads }
    } else if starts(line, "load ="@) {
        match second_piece(line, '=') {
            Some(load) => if state.scheduler.len() > 0 {
                RgaView {
                    scheduler: state.scheduler,
                    index: state.index,
                    loads: state.loads.push(
                        (state.scheduler, trim(replaced(load, "%"@, Seq::empty()))),
                    ),
                }
            } else {
                state
            },
            None => state,
        }
    } else {
        state
    }
}

/// The effect of several lines.
pub open spec fn rga_lines(ls: Seq<Seq<char>>) -> RgaView
    decreases ls.len(),
{
    if ls.len() == 0 {
        RgaView { scheduler: Seq::empty(), index: 0, loads: Seq::empty() }
    } else {
        rga_line(rga_lines(ls.drop_last()), ls.last())
    }
}

/// Every load belongs to a scheduler that has a name.
pub proof fn loads_have_schedulers(ls: Seq<Seq<char>>, i: int)
    requires
        0 <= i < rga_lines(ls).loads.len(),
    ensures
        rga_lines(ls).loads[i].0.len() > 0,
    decreases ls.len(),
{
    let before = rga_lines(ls.drop_last());
    if i < before.loads.len() {
        loads_have_schedulers(ls.drop_last(), i);
    }
}

/// The schedulers of the scaler with their loads as the load file spells them.
pub fn rga_load_texts(content: &str) -> (r: Vec<(String, String)>)
    ensures
        pairs(r@) == rga_lines(lines(content@)).loads,
{
    let cs = chars_of(content);
    let ls = lines_of(cs.as_slice());
    let ghost all = lines(content@);
    let mut scheduler: Vec<char> = Vec::new();
    let mut index: usize = 0;
    let mut loads: Vec<(String, String)> = Vec::new();
    let mut i: usize = 0;
    assert(all.take(0) =~= Seq::empty());
    assert(pairs(loads@) =~= Seq::empty());
    while i < ls.len()
        invariant
            i <= ls@.len(),
            all == texts(ls@),
            scheduler@ == rga_lines(all.take(i as int)).scheduler,
            index == rga_lines(all.take(i as int)).index,
            pairs(loads@) == rga_lines(all.take(i as int)).loads,
        decreases ls.len() - i,
    {
        let ghost state = rga_lines(all.take(i as int));
        assert(all.take(i + 1).drop_last() == all.take(i as int));
        assert(all.take(i + 1).last() == ls@[i as int]@);
        let line = trimmed(ls[i].as_slice());
        if holds(line.as_slice(), "-") || holds(line.as_slice(), "= load =") {
        } else if begins_with(line.as_slice(), "scheduler[") {
            let end = position_from(line.as_slice(), ']', 0);
            if end < line.len() {
                proof {
                    reveal_strlit("scheduler[");
                    lemma_index_from(line@, ']', 0);
                    let head = line@.subrange(0, "scheduler["@.len() as int);
                    assert forall|k: int| 0 <= k < 10 implies line@[k] != ']' by {
                        assert(head[k] == "scheduler["@[k]);
                    }
                }
                let number = copy_range(line.as_slice(), 10, end);
                index = match read_usize(number.as_slice()) {
                    Some(v) => v,
                    None => 0,
                };
            }
            match second_piece_of(line.as_slice(), ':') {
                Some(name) => {
                    scheduler = trimmed(name.as_slice());
                    push_str(&mut scheduler, "_");
                    let number = decimal_of(index as u128);
                    push_all(&mut scheduler, number.as_slice());
                },
                None => {},
            }
        } else if begins_with(line.as_slice(), "load =") {
            match second_piece_of(line.as_slice(), '=') {
                Some(load) => {
                    if scheduler.len() > 0 {
                        proof {
                            reveal_strlit("%");
                            reveal_strlit("");
                            assert(""@ =~= Seq::<char>::empty());
                        }
                        let load = replace(load.as_slice(), "%", "");
                        let load = trimmed(load.as_slice());
                        let entry = (string_of(scheduler.as_slice()), string_of(load.as_slice()));
                        let ghost before = loads@;
                        loads.push(entry);
                        assert(pairs(loads@) =~= pairs(before).push((entry.0@, entry.1@)));
                    }
                },
                None => {},
            }
        }
        i += 1;
    }
    assert(all.take(i as int) == all);
    loads
}

/// The entries whose load is a number, in order.
pub open spec fn known_loads(
    entries: Seq<(Seq<char>, Seq<char>)>,
    loads: Seq<Option<u32>>,
) -> Seq<(Seq<char>, u32)>
    decreases entries.len(),
{
    if entries.len() == 0 {
        Seq::empty()
    } else {
        let before = known_loads(entries.drop_last(), loads);
        match loads[entries.len() - 1] {
            Some(bits) => before.push((entries.last().0, bits)),
            None => before,
        }
    }
}

/// The texts and numbers of a list of named numbers.
pub open spec fn named_numbers(v: Seq<(String, u32)>) -> Seq<(Seq<char>, u32)> {
    v.map_values(|p: (String, u32)| (p.0@, p.1))
}

/// The loads of the schedulers of the scaler: the entries that
/// [`rga_load_texts`] found, with the single precision numbers that their
/// texts spell, as far as they spell one. There is nothing where none does.
pub fn get_rga_load(entries: &Vec<(String, String)>, loads: &Vec<Option<u32>>) -> (r: Option<
    Vec<(String, u32)>,
>)
    requires
        entries@.len() == loads@.len(),
    ensures
        match r {
            Some(v) => v@.len() > 0 && named_numbers(v@) == known_loads(pairs(entries@), loads@),
            None => known_loads(pairs(entries@), loads@).len() == 0,
        },
{
    let ghost all = pairs(entries@);
    let mut out: Vec<(String, u32)> = Vec::new();
    let mut i: usize = 0;
    assert(named_numbers(out@) =~= known_loads(all.take(0), loads@));
    while i < entries.len()
        invariant
            i <= entries@.len(),
            entries@.len() == loads@.len(),
            all == pairs(entries@),
            named_numbers(out@) == known_loads(all.take(i as int), loads@),
        decreases entries.len() - i,
    {
        assert(all.take(i + 1).drop_last() == all.take(i as int));
        assert(all.take(i + 1).last() == (entries@[i as int].0@, entries@[i as int].1@));
        match loads[i] {
            Some(bits) => {
                let ghost before = out@;
                out.push((entries[i].0.clone(), bits));
                assert(named_numbers(out@) =~= named_numbers(before).push(
                    (entries@[i as int].0@, bits),
                ));
            },
            None => {},
        }
        i += 1;
    }
    assert(all.take(i as int) == all);
    assert(named_numbers(out@).len() == out@.len());
    if out.len() > 0 {
        Some(out)
    } else {
        None
    }
}

/// Whether a text, white space around it aside, spells a number up to `max`.
pub open spec fn spells(text: Seq<char>, v: nat, max: nat) -> bool {
    natural(trim(text)) == Some(v) && v <= max
}

/// The matches whose second group spells a load of up to 255 percent.
pub open spec fn with_load(found: Seq<Seq<Option<Seq<char>>>>) -> spec_fn(int) -> bool {
    |i: int|
        found[i].len() > 2 && (found[i][2] matches Some(t) && (natural(t) matches Some(v) && v
            <= 255))
}

proof fn lemma_core_loads(found: Seq<Seq<Option<Seq<char>>>>, n: int) -> (at: Seq<int>)
    requires
        0 <= n <= found.len(),
    ensures
        are_the_places(at, n, with_load(found)),
        core_loads(found.take(n)).len() == at.len(),
        forall|k: int|
            0 <= k < at.len() ==> natural(found[#[trigger] at[k]][2]->0) == Some(
                core_loads(found.take(n))[k] as nat,
            ),
    decreases n,
{
    if n == 0 {
        Seq::empty()
    } else {
        let at = lemma_core_loads(found, n - 1);
        assert(found.take(n).drop_last() =~= found.take(n - 1));
        assert(found.take(n).last() == found[n - 1]);
        lemma_places_extend(at, n - 1, with_load(found));
        if with_load(found)(n - 1) {
            at.push(n - 1)
        } else {
            at
        }
    }
}

/// Each match that spells a load gives one load, in order, and the others give
/// none: each load is the number that the second group of its match spells.
pub proof fn every_match_gives_its_load(found: Seq<Seq<Option<Seq<char>>>>) -> (at: Seq<int>)
    ensures
        are_the_places(at, found.len() as int, with_load(found)),
        core_loads(found).len() == at.len(),
        forall|k: int|
            0 <= k < at.len() ==> natural(found[#[trigger] at[k]][2]->0) == Some(
                core_loads(found)[k] as nat,
            ),
{
    assert(found.take(found.len() as int) =~= found);
    lemma_core_loads(found, found.len() as int)
}

/// Where every match spells a load there are as many loads as matches, and the
/// load at a position is the one that the match at that position spells.
pub proof fn as_many_loads_as_matches(found: Seq<Seq<Option<Seq<char>>>>, k: int)
    requires
        forall|i: int|
            0 <= i < found.len() ==> (#[trigger] found[i]).len() > 2 && (found[i][2] matches Some(t)
                && (natural(t) matches Some(v) && v <= 255)),
        0 <= k < found.len(),
    ensures
        core_loads(found).len() == found.len(),
        natural(found[k][2]->0) == Some(core_loads(found)[k] as nat),
    decreases found.len(),
{
    let rest = found.drop_last();
    assert(found.last() == found[found.len() - 1]);
    if rest.len() > 0 {
        assert forall|i: int| 0 <= i < rest.len() implies (#[trigger] rest[i]).len() > 2 && (
        rest[i][2] matches Some(t) && (natural(t) matches Some(v) && v <= 255)) by {
            assert(rest[i] == found[i]);
        }
        if k < rest.len() {
            as_many_loads_as_matches(rest, k);
            assert(rest[k] == found[k]);
        } else {
            as_many_loads_as_matches(rest, 0);
        }
    } else {
        assert(core_loads(rest) =~= Seq::empty());
    }
}

/// The entries whose load is known.
pub open spec fn with_number(loads: Seq<Option<u32>>) -> spec_fn(int) -> bool {
    |i: int| loads[i] is Some
}

proof fn lemma_known_loads(
    entries: Seq<(Seq<char>, Seq<char>)>,
    loads: Seq<Option<u32>>,
    n: int,
) -> (at: Seq<int>)
    requires
        0 <= n <= entries.len(),
    ensures
        are_the_places(at, n, with_number(loads)),
        known_loads(entries.take(n), loads).len() == at.len(),
        forall|k: int|
            0 <= k < at.len() ==> known_loads(entries.take(n), loads)[k] == (
                entries[#[trigger] at[k]].0,
                loads[at[k]]->0,
            ),
    decreases n,
{
    if n == 0 {
        Seq::empty()
    } else {
        let at = lemma_known_loads(entries, loads, n - 1);
        assert(entries.take(n).drop_last() =~= entries.take(n - 1));
        assert(entries.take(n).last() == entries[n - 1]);
        lemma_places_extend(at, n - 1, with_number(loads));
        if with_number(loads)(n - 1) {
            at.push(n - 1)
        } else {
            at
        }
    }
}

/// Each scheduler whose load is a number is listed with it, in order, and no
/// other one.
pub proof fn every_known_load_is_listed(
    entries: Seq<(Seq<char>, Seq<char>)>,
    loads: Seq<Option<u32>>,
) -> (at: Seq<int>)
    ensures
        are_the_places(at, entries.len() as int, with_number(loads)),
        known_loads(entries, loads).len() == at.len(),
        forall|k: int|
            0 <= k < at.len() ==> known_loads(entries, loads)[k] == (
                entries[#[trigger] at[k]].0,
                loads[at[k]]->0,
            ),
{
    assert(entries.take(entries.len() as int) =~= entries);
    lemma_known_loads(entries, loads, entries.len() as int)
}

/// The frequencies are thousandths of the numbers in the files, one for each file
/// up to the first that spells none.
pub proof fn frequencies_are_thousandths(contents: Seq<Seq<char>>, k: int)
    ensures
        frequencies(contents).len() <= contents.len(),
        0 <= k < frequencies(contents).len() ==> exists|v: nat| #[trigger]
            spells(contents[k], v, u32::MAX as nat) && frequencies(contents)[k] == v / 1000,
        frequencies(contents).len() < contents.len() ==> forall|v: nat|
            !#[trigger] spells(contents[frequencies(contents).len() as int], v, u32::MAX as nat),
    decreases contents.len(),
{
    if contents.len() > 0 {
        let rest = contents.drop_first();
        frequencies_are_thousandths(rest, k - 1);
        match number_in(Some(contents.first()), u32::MAX as nat) {
            Some(khz) => {
                assert(spells(contents[0], khz, u32::MAX as nat));
                let n = frequencies(rest).len();
                if n < rest.len() {
                    assert(rest[n as int] == contents[n as int + 1]);
                }
                if 0 < k < frequencies(contents).len() {
                    assert(rest[k - 1] == contents[k]);
                    assert(frequencies(contents)[k] == frequencies(rest)[k - 1]);
                    let v = choose|v: nat| #[trigger]
                        spells(rest[k - 1], v, u32::MAX as nat) && frequencies(rest)[k - 1] == v
                            / 1000;
                    assert(spells(contents[k], v, u32::MAX as nat));
                }
            },
            None => {},
        }
    }
}

/// A frequency in Hz is shown in MHz: that in the first file that spells one.
pub proof fn the_first_frequency_counts(
    contents: Seq<Option<Seq<char>>>,
    before: int,
    v: nat,
    text: Seq<char>,
)
    requires
        0 <= before <= contents.len(),
        forall|i: int, w: nat|
            0 <= i < before && (#[trigger] contents[i]) is Some ==> !#[trigger] spells(
                contents[i]->0,
                w,
                u64::MAX as nat,
            ),
    ensures
        before == contents.len() ==> first_frequency(contents) is None,
        before < contents.len() && contents[before] == Some(text) && spells(
            text,
            v,
            u64::MAX as nat,
        ) ==> first_frequency(contents) == Some((v / 1_000_000) % 0x1_0000_0000),
    decreases contents.len(),
{
    if contents.len() > 0 && before > 0 {
        let rest = contents.drop_first();
        assert(contents[0] == contents.first());
        if contents[0] is Some {
            match natural(trim(contents[0]->0)) {
                Some(w) => {
                    assert(!spells(contents[0]->0, w, u64::MAX as nat));
                },
                None => {},
            }
        }
        assert forall|i: int, w: nat| 0 <= i < before - 1 && (
        #[trigger] rest[i]) is Some implies !#[trigger] spells(rest[i]->0, w, u64::MAX as nat) by {
            assert(rest[i] == contents[i + 1]);
            assert(!spells(contents[i + 1]->0, w, u64::MAX as nat));
        }
        the_first_frequency_counts(rest, before - 1, v, text);
    }
}

/// A range of frequencies has the thousandths of the numbers in both files, and
/// there is none where one of them spells no number.
pub proof fn a_range_has_thousandths(low: Seq<char>, high: Seq<char>, v: nat, w: nat)
    ensures
        spells(low, v, u32::MAX as nat) && spells(high, w, u32::MAX as nat) ==> freq_range(
            (low, high),
        ) == Some(((v / 1000) as u32, (w / 1000) as u32)),
        freq_range((low, high)) is Some ==> exists|a: nat, b: nat| #[trigger]
            spells(low, a, u32::MAX as nat) && #[trigger] spells(high, b, u32::MAX as nat),
{
    if freq_range((low, high)) is Some {
        assert(spells(low, natural(trim(low))->0, u32::MAX as nat));
        assert(spells(high, natural(trim(high))->0, u32::MAX as nat));
    }
}

/// Every range that is listed is that of a processor before the first that has
/// none.
pub proof fn every_range_is_of_a_processor(contents: Seq<(Seq<char>, Seq<char>)>, r: (u32, u32))
    requires
        ranges_after(contents, Seq::empty()).contains(r),
    ensures
        exists|k: int|
            0 <= k < contents.len() && freq_range(#[trigger] contents[k]) == Some(r) && forall|j: int|
                0 <= j <= k ==> freq_range(#[trigger] contents[j]) is Some,
{
    let k = lemma_range_source(contents, Seq::empty(), r);
    assert(freq_range(contents[k]) == Some(r));
}

proof fn lemma_range_source(
    contents: Seq<(Seq<char>, Seq<char>)>,
    seen: Seq<(u32, u32)>,
    r: (u32, u32),
) -> (k: int)
    requires
        ranges_after(contents, seen).contains(r),
        !seen.contains(r),
    ensures
        0 <= k < contents.len(),
        freq_range(contents[k]) == Some(r),
        forall|j: int| 0 <= j <= k ==> freq_range(#[trigger] contents[j]) is Some,
    decreases contents.len(),
{
    let range = freq_range(contents.first())->0;
    let rest = contents.drop_first();
    assert(contents[0] == contents.first());
    if range == r {
        0
    } else {
        let next = if seen.contains(range) {
            seen
        } else {
            seen.push(range)
        };
        assert(!next.contains(r)) by {
            if next.contains(r) {
                let i = choose|i: int| 0 <= i < next.len() && next[i] == r;
                assert(i < seen.len() && seen[i] == r);
            }
        }
        let k = lemma_range_source(rest, next, r);
        assert(contents[k + 1] == rest[k]);
        assert forall|j: int| 0 <= j <= k + 1 implies freq_range(#[trigger] contents[j]) is Some by {
            if j > 0 {
                assert(contents[j] == rest[j - 1]);
            }
        }
        k + 1
    }
}

proof fn lemma_times_step(
    ws: Seq<Seq<char>>,
    key: Seq<char>,
    value: Seq<char>,
    i: int,
    busy: nat,
    idle: nat,
)
    requires
        0 <= i <= ws.len(),
        (ws.len() - i) % 2 == 0,
    ensures
        gpu_times_from(ws.push(key).push(value), i, busy, idle) == (match gpu_times_from(
            ws,
            i,
            busy,
            idle,
        ) {
            None => None,
            Some((b, d)) => match natural_up_to(value, u64::MAX as nat) {
                None => None,
                Some(v) => if trim_end_of(key, ':') == "busy_time"@ {
                    Some((v, d))
                } else if trim_end_of(key, ':') == "idle_time"@ {
                    Some((b, v))
                } else {
                    Some((b, d))
                },
            },
        }),
        gpu_times_from(ws.push(key), i, busy, idle) == gpu_times_from(ws, i, busy, idle),
    decreases ws.len() - i,
{
    let all = ws.push(key).push(value);
    if i == ws.len() {
        reveal_with_fuel(gpu_times_from, 2);
        reveal_strlit("busy_time");
        reveal_strlit("idle_time");
        assert(all[i] == key && all[i + 1] == value);
    } else {
        assert(all[i] == ws[i] && all[i + 1] == ws[i + 1]);
        assert(ws.push(key)[i] == ws[i] && ws.push(key)[i + 1] == ws[i + 1]);
        match natural_up_to(ws[i + 1], u64::MAX as nat) {
            None => {},
            Some(v) => {
                lemma_times_step(ws, key, value, i + 2, v, idle);
                lemma_times_step(ws, key, value, i + 2, busy, v);
                lemma_times_step(ws, key, value, i + 2, busy, idle);
            },
        }
    }
}

/// The times are the numbers behind their names, the last of each, whatever else
/// stands in the list; a word without partner says nothing, and where one of the
/// numbers cannot be read there are no times.
pub proof fn the_times_stand_behind_their_names(
    ws: Seq<Seq<char>>,
    name: Seq<char>,
    colons: nat,
    value: Seq<char>,
)
    requires
        ws.len() % 2 == 0,
        name.len() == 0 || name.last() != ':',
    ensures
        gpu_times_from(Seq::empty(), 0, 0, 0) == Some((0nat, 0nat)),
        ({
            let key = name + Seq::new(colons, |i: int| ':');
            let before = gpu_times_from(ws, 0, 0, 0);
            let after = gpu_times_from(ws.push(key).push(value), 0, 0, 0);
            &&& gpu_times_from(ws.push(key), 0, 0, 0) == before
            &&& before is None ==> after is None
            &&& before matches Some((busy, idle)) ==> (match natural(value) {
                Some(v) => if v > u64::MAX {
                    after is None
                } else if name == "busy_time"@ {
                    after == Some((v, idle))
                } else if name == "idle_time"@ {
                    after == Some((busy, v))
                } else {
                    after == before
                },
                None => after is None,
            })
        }),
{
    let key = name + Seq::new(colons, |i: int| ':');
    trimming_takes_a_character_away(name, ':', colons);
    lemma_times_step(ws, key, value, 0, 0, 0);
    reveal_strlit("busy_time");
    reveal_strlit("idle_time");
    assert("busy_time"@[0] != "idle_time"@[0]);
}

/// The usage of the graphics unit is the busy time of both times together, in
/// percent, and off by at most eight parts in `2^24`; there is none where there
/// are no times or both are zero.
pub proof fn the_usage_is_the_busy_share(content: Seq<char>, busy: nat, idle: nat, k: nat)
    requires
        busy + idle <= u64::MAX,
        k >= 88,
    ensures
        gpu_usage(None) is None,
        gpu_times_in(content) is None ==> gpu_usage(Some(content)) is None,
        gpu_times_in(content) == Some((busy, idle)) && busy + idle == 0 ==> gpu_usage(
            Some(content),
        ) is None,
        gpu_times_in(content) == Some((busy, idle)) && busy + idle > 0 ==> (gpu_usage(
            Some(content),
        ) matches Some(v) && near(
            in_units(v, k) * (busy + idle),
            (100 * busy * pow2(k)) as int,
            8,
            0x100_0000,
        )),
{
    if busy + idle > 0 {
        lemma_precisions();
        crate::bounds::lemma_share_exponents(busy, busy + idle, 23);
        a_share_is_the_part_of_the_total(busy, busy + idle, SINGLE as nat, k);
    }
}

proof fn lemma_holds_character(s: Seq<char>, c: char)
    ensures
        contains(s, seq![c]) <==> s.contains(c),
{
    if contains(s, seq![c]) {
        let i = choose|i: int| stands_at(s, seq![c], i);
        assert(s.subrange(i, i + 1)[0] == c);
        assert(s[i] == c);
    }
    if s.contains(c) {
        let i = choose|i: int| 0 <= i < s.len() && s[i] == c;
        assert(s.subrange(i, i + 1) =~= seq![c]);
        assert(stands_at(s, seq![c], i));
    }
}

/// A line that names a scheduler, with its index in brackets and its name behind
/// a colon, sets what the loads that follow belong to, and gives no load itself.
pub proof fn a_scheduler_line_names_it(
    ls: Seq<Seq<char>>,
    index: nat,
    name: Seq<char>,
    raw: Seq<char>,
)
    requires
        index <= usize::MAX,
        !name.contains('-') && !name.contains(':') && !name.contains('='),
        trim(raw) == "scheduler["@ + decimal(index) + "]:"@ + name,
    ensures
        rga_lines(ls.push(raw)).scheduler == trim(name) + "_"@ + decimal(index),
        rga_lines(ls.push(raw)).loads == rga_lines(ls).loads,
{
    reveal_strlit("scheduler[");
    reveal_strlit("]:");
    reveal_strlit("-");
    reveal_strlit("= load =");
    assert(ls.push(raw).drop_last() =~= ls);
    let line = trim(raw);
    let head = "scheduler["@;
    let d = decimal(index);
    lemma_decimal_digits(index);
    assert("-"@ =~= seq!['-']);
    lemma_holds_character(line, '-');
    assert forall|i: int| 0 <= i < line.len() implies line[i] != '-' && line[i] != '=' by {
        let at = head.len() + d.len();
        if head.len() <= i < at {
            assert(is_digit(d[i - head.len()]));
        } else if i >= at + 2 {
            assert(name.contains(name[i - at - 2]));
            assert(line[i] == name[i - at - 2]);
        }
    }
    assert(!line.contains('-'));
    assert(!contains(line, "= load ="@)) by {
        if contains(line, "= load ="@) {
            let i = choose|i: int| stands_at(line, "= load ="@, i);
            assert(line.subrange(i, i + "= load ="@.len())[0] == '=');
            assert(line[i] == '=');
        }
    }
    assert(starts(line, head)) by {
        assert(line.subrange(0, 10) =~= head);
    }
    let end = (10 + d.len()) as int;
    assert(line[end] == ']');
    lemma_index_from(line, ']', 0);
    let found = index_from(line, ']', 0);
    if found < end {
        if found >= 10 {
            assert(is_digit(d[found - 10]));
        }
    }
    assert(line.subrange(10, end) =~= d);
    natural_reads_decimal(index);
    let first = head + d + seq![']'];
    assert(!first.contains(':')) by {
        if first.contains(':') {
            let i = choose|i: int| 0 <= i < first.len() && first[i] == ':';
            if 10 <= i < end {
                assert(is_digit(d[i - 10]));
            }
        }
    }
    assert(line =~= first + seq![':'] + name);
    pieces_stand_between_separators(first, ':', name);
    pieces_stand_between_separators(name, ':', Seq::empty());
    assert(pieces(line, ':')[1] == name);
}

/// A load line gives the scheduler named last the load that it spells, without the
/// sign of percent and the white space around it; without a scheduler it says
/// nothing.
pub proof fn a_load_line_gives_the_load(ls: Seq<Seq<char>>, load: Seq<char>, raw: Seq<char>)
    requires
        !load.contains('-') && !load.contains('=') && !load.contains('%'),
        trim(raw) == "load ="@ + load + "%"@,
    ensures
        rga_lines(ls).scheduler.len() > 0 ==> rga_lines(ls.push(raw)).loads == rga_lines(
            ls,
        ).loads.push((rga_lines(ls).scheduler, trim(load))),
        rga_lines(ls).scheduler.len() == 0 ==> rga_lines(ls.push(raw)).loads == rga_lines(ls).loads,
        rga_lines(ls.push(raw)).scheduler == rga_lines(ls).scheduler,
{
    reveal_strlit("scheduler[");
    reveal_strlit("load =");
    reveal_strlit("%");
    reveal_strlit("-");
    reveal_strlit("= load =");
    assert(ls.push(raw).drop_last() =~= ls);
    let line = trim(raw);
    assert("-"@ =~= seq!['-']);
    lemma_holds_character(line, '-');
    assert forall|i: int| 0 <= i < line.len() implies line[i] != '-' && (line[i] == '=' ==> i
        == 5) by {
        if 6 <= i < 6 + load.len() {
            assert(load.contains(load[i - 6]));
            assert(line[i] == load[i - 6]);
        }
    }
    assert(!line.contains('-'));
    assert(!contains(line, "= load ="@)) by {
        if contains(line, "= load ="@) {
            let i = choose|i: int| stands_at(line, "= load ="@, i);
            assert(line.subrange(i, i + 8)[0] == '=');
            assert(line.subrange(i, i + 8)[7] == '=');
            assert(line[i] == '=' && line[i + 7] == '=');
        }
    }
    assert(!starts(line, "scheduler["@)) by {
        if starts(line, "scheduler["@) {
            assert(line.subrange(0, 10)[0] == 's');
            assert(line[0] == 'l');
        }
    }
    assert(starts(line, "load ="@)) by {
        assert(line.subrange(0, 6) =~= "load ="@);
    }
    let first = line.take(5);
    let rest = load + "%"@;
    assert(!first.contains('=')) by {
        if first.contains('=') {
            let i = choose|i: int| 0 <= i < first.len() && first[i] == '=';
            assert(line[i] == '=');
        }
    }
    assert(!rest.contains('=')) by {
        if rest.contains('=') {
            let i = choose|i: int| 0 <= i < rest.len() && rest[i] == '=';
            assert(line[i + 6] == '=');
        }
    }
    assert(line =~= first + seq!['='] + rest);
    pieces_stand_between_separators(first, '=', rest);
    pieces_stand_between_separators(rest, '=', Seq::empty());
    assert(pieces(line, '=')[1] == rest);
    let sign = "%"@;
    assert(rest =~= load + sign + Seq::<char>::empty());
    assert forall|k: int| 0 <= k < load.len() implies !stands_at(
        load + sign + Seq::<char>::empty(),
        sign,
        k,
    ) by {
        if stands_at(load + sign + Seq::<char>::empty(), sign, k) {
            assert((load + sign + Seq::<char>::empty()).subrange(k, k + 1)[0] == '%');
            assert(load[k] == '%');
            assert(load.contains('%'));
        }
    }
    every_place_is_replaced(load, sign, Seq::empty(), Seq::empty());
    assert(replaced(rest, sign, Seq::empty()) =~= load);
}

/// A line with a dash, one that holds the heading, and one that begins neither as a
/// scheduler line nor as a load line say nothing.
pub proof fn other_lines_say_nothing(ls: Seq<Seq<char>>, raw: Seq<char>)
    requires
        trim(raw).contains('-') || has_part(trim(raw), "= load ="@) || (!begins(
            trim(raw),
            "scheduler["@,
        ) && !begins(trim(raw), "load ="@)),
    ensures
        rga_lines(ls.push(raw)) == rga_lines(ls),
        rga_lines(Seq::empty()).loads.len() == 0,
        rga_lines(Seq::empty()).scheduler.len() == 0,
{
    reveal_strlit("-");
    assert(ls.push(raw).drop_last() =~= ls);
    let line = trim(raw);
    assert("-"@ =~= seq!['-']);
    lemma_holds_character(line, '-');
    a_text_holds_its_parts(line, "= load ="@);
    lemma_starts_begins(line, "scheduler["@);
    lemma_starts_begins(line, "load ="@);
}

/// The load file of the neural unit gives, in order, the loads of all matches of the
/// pattern for a core in it that hold one, and no others. It gives none where it was
/// not read.
pub proof fn the_cores_have_their_loads(s: Seq<char>, found: Seq<Seq<Option<Seq<char>>>>) -> (at: Seq<
    int,
>)
    requires
        regex_matches(NPU_CORE_PATTERN@, s) == Some(found),
    ensures
        are_the_places(at, found.len() as int, with_load(found)),
        npu_loads_in(Some(s)).len() == at.len(),
        forall|k: int|
            0 <= k < at.len() ==> natural(found[#[trigger] at[k]][2]->0) == Some(
                npu_loads_in(Some(s))[k] as nat,
            ),
        npu_loads_in(None).len() == 0,
{
    every_match_gives_its_load(found)
}

/// The frequency of the neural unit is that in its file in whole MHz, as far as 32 bits
/// hold it, and is not known where the file holds no number of 64 bits.
pub proof fn the_neural_unit_has_its_frequency(s: Seq<char>, hz: nat)
    ensures
        natural(trim(s)) == Some(hz) && hz <= u64::MAX ==> npu_frequency_in(Some(s)) == Some(
            (hz / 1_000_000) % 0x1_0000_0000,
        ),
        natural(trim(s)) == Some(hz) && hz > u64::MAX ==> npu_frequency_in(Some(s)) is None,
        natural(trim(s)) is None ==> npu_frequency_in(Some(s)) is None,
        npu_frequency_in(None) is None,
{
}

/// The ranges stand in the order of the processors: one more processor adds its range
/// behind the others, if it has one that is not there yet and all processors before it
/// have one, and else adds nothing.
pub proof fn ranges_stand_in_order(
    contents: Seq<(Seq<char>, Seq<char>)>,
    more: (Seq<char>, Seq<char>),
)
    ensures
        ranges_after(Seq::empty(), Seq::empty()).len() == 0,
        ({
            let before = ranges_after(contents, Seq::empty());
            let all = forall|j: int|
                0 <= j < contents.len() ==> freq_range(#[trigger] contents[j]) is Some;
            ranges_after(contents.push(more), Seq::empty()) == match freq_range(more) {
                Some(r) => if all && !before.contains(r) {
                    before.push(r)
                } else {
                    before
                },
                None => before,
            }
        }),
{
    lemma_one_more_range(contents, more, Seq::empty());
}

proof fn lemma_one_more_range(
    contents: Seq<(Seq<char>, Seq<char>)>,
    more: (Seq<char>, Seq<char>),
    seen: Seq<(u32, u32)>,
)
    ensures
        ({
            let before = ranges_after(contents, seen);
            let all = forall|j: int|
                0 <= j < contents.len() ==> freq_range(#[trigger] contents[j]) is Some;
            ranges_after(contents.push(more), seen) == match freq_range(more) {
                Some(r) => if all && !before.contains(r) {
                    before.push(r)
                } else {
                    before
                },
                None => before,
            }
        }),
    decreases contents.len(),
{
    let longer = contents.push(more);
    if contents.len() == 0 {
        assert(longer.first() == more);
        assert(longer.drop_first() =~= contents);
        reveal_with_fuel(ranges_after, 2);
    } else {
        let rest = contents.drop_first();
        assert(longer.first() == contents.first() && contents.first() == contents[0]);
        assert(longer.drop_first() =~= rest.push(more));
        match freq_range(contents[0]) {
            Some(range) => {
                let next = if seen.contains(range) {
                    seen
                } else {
                    seen.push(range)
                };
                lemma_one_more_range(rest, more, next);
                let all = forall|j: int|
                    0 <= j < contents.len() ==> freq_range(#[trigger] contents[j]) is Some;
                let others = forall|j: int|
                    0 <= j < rest.len() ==> freq_range(#[trigger] rest[j]) is Some;
                if all {
                    assert forall|j: int| 0 <= j < rest.len() implies freq_range(
                        #[trigger] rest[j],
                    ) is Some by {
                        assert(rest[j] == contents[j + 1]);
                    }
                }
                if others {
                    assert forall|j: int| 0 <= j < contents.len() implies freq_range(
                        #[trigger] contents[j],
                    ) is Some by {
                        if j > 0 {
                            assert(contents[j] == rest[j - 1]);
                        }
                    }
                }
                assert(all == others);
            },
            None => {},
        }
    }
}

/// Whether `at` is the first position at or behind `from` that has the character, or
/// the end of the text where none has it.
pub open spec fn is_next(s: Seq<char>, c: char, from: int, at: int) -> bool {
    &&& from <= at <= s.len()
    &&& forall|j: int| from <= j < at ==> #[trigger] s[j] != c
    &&& at < s.len() ==> s[at] == c
}

proof fn lemma_second_piece(s: Seq<char>, c: char, at: int, end: int)
    requires
        is_next(s, c, 0, at),
        at < s.len() ==> is_next(s, c, at + 1, end),
    ensures
        index_from(s, c, 0) == at,
        at == s.len() ==> second_piece(s, c) is None,
        at < s.len() ==> second_piece(s, c) == Some(s.subrange(at + 1, end)),
{
    lemma_index_from(s, c, 0);
    let found = index_from(s, c, 0);
    assert(found == at) by {
        if found < at {
            assert(s[found] != c);
        } else if at < found {
            assert(s[at] != c);
        }
    }
    reveal_with_fuel(crate::text::pieces_from, 3);
    if at < s.len() {
        lemma_index_from(s, c, at + 1);
        let then = index_from(s, c, at + 1);
        assert(then == end) by {
            if then < end {
                assert(s[then] != c);
            } else if end < then {
                assert(s[end] != c);
            }
        }
    }
}

/// What any line that begins as a scheduler line says: the index is the number before
/// the first closing bracket, zero where there is no such number, and stays where there
/// is no bracket; the name stands behind the first colon, up to the next one, and stays
/// where there is no colon. No load is given.
pub proof fn scheduler_lines_in_full(
    ls: Seq<Seq<char>>,
    raw: Seq<char>,
    bracket: int,
    colon: int,
    end: int,
)
    requires
        !trim(raw).contains('-'),
        !has_part(trim(raw), "= load ="@),
        begins(trim(raw), "scheduler["@),
        is_next(trim(raw), ']', 0, bracket),
        is_next(trim(raw), ':', 0, colon),
        colon < trim(raw).len() ==> is_next(trim(raw), ':', colon + 1, end),
    ensures
        ({
            let line = trim(raw);
            let before = rga_lines(ls);
            let after = rga_lines(ls.push(raw));
            &&& after.loads == before.loads
            &&& bracket == line.len() ==> after.index == before.index
            &&& bracket < line.len() ==> after.index == match natural(line.subrange(10, bracket)) {
                Some(v) => if v <= usize::MAX {
                    v
                } else {
                    0
                },
                None => 0,
            }
            &&& colon == line.len() ==> after.scheduler == before.scheduler
            &&& colon < line.len() ==> after.scheduler == trim(line.subrange(colon + 1, end))
                + seq!['_'] + decimal(after.index)
        }),
{
    let line = trim(raw);
    lemma_line_is_read(ls, raw);
    lemma_starts_begins(line, "scheduler["@);
    reveal_strlit("_");
    assert("_"@ =~= seq!['_']);
    lemma_second_piece(line, ':', colon, end);
    lemma_index_from(line, ']', 0);
    let found = index_from(line, ']', 0);
    assert(found == bracket) by {
        if found < bracket {
            assert(line[found] != ']');
        } else if bracket < found {
            assert(line[bracket] != ']');
        }
    }
}

/// What any line that begins as a load line says: the load is what stands behind the
/// first equals sign, up to the next one, without percent signs. It belongs to the
/// scheduler that was named last, and says nothing before one is named.
pub proof fn load_lines_in_full(ls: Seq<Seq<char>>, raw: Seq<char>, end: int)
    requires
        !trim(raw).contains('-'),
        !has_part(trim(raw), "= load ="@),
        begins(trim(raw), "load ="@),
        is_next(trim(raw), '=', 6, end),
    ensures
        ({
            let before = rga_lines(ls);
            let after = rga_lines(ls.push(raw));
            let load = trim(raw).subrange(6, end);
            &&& before.scheduler.len() == 0 ==> after == before
            &&& before.scheduler.len() > 0 ==> after.loads == before.loads.push(
                (before.scheduler, trim(replaced(load, seq!['%'], Seq::empty()))),
            ) && after.scheduler == before.scheduler && after.index == before.index
        }),
{
    let line = trim(raw);
    lemma_line_is_read(ls, raw);
    lemma_starts_begins(line, "scheduler["@);
    lemma_starts_begins(line, "load ="@);
    reveal_strlit("load =");
    reveal_strlit("scheduler[");
    reveal_strlit("%");
    assert("%"@ =~= seq!['%']);
    let p = "load ="@;
    assert(line[0] == p[0] && line[1] == p[1] && line[2] == p[2] && line[3] == p[3] && line[4]
        == p[4] && line[5] == p[5]);
    assert(!begins(line, "scheduler["@)) by {
        if begins(line, "scheduler["@) {
            assert(line[0] == "scheduler["@[0]);
        }
    }
    lemma_second_piece(line, '=', 5, end);
}

proof fn lemma_line_is_read(ls: Seq<Seq<char>>, raw: Seq<char>)
    requires
        !trim(raw).contains('-'),
        !has_part(trim(raw), "= load ="@),
    ensures
        rga_lines(ls.push(raw)) == rga_line(rga_lines(ls), raw),
        !contains(trim(raw), "-"@),
        !contains(trim(raw), "= load ="@),
{
    reveal_strlit("-");
    assert(ls.push(raw).drop_last() =~= ls);
    assert("-"@ =~= seq!['-']);
    lemma_holds_character(trim(raw), '-');
    a_text_holds_its_parts(trim(raw), "= load ="@);
}

} // verus!
