//! Which files are kept open, and numbers read from their contents.
//!
//! Files that are read again and again are opened once: the cache knows under
//! which handle each path was opened. Opening, rewinding and reading are the
//! caller's part.

use vstd::prelude::*;
use vstd::utf8::{decode_utf8, valid_utf8};

use crate::number::{
    decimal, decimal_int, integer_reads_decimal, integer_within, is_digit, lemma_decimal_digits,
    natural, natural_reads_decimal, natural_up_to, read_i32, read_u32, read_u64,
};
use crate::text::{
    chars_of, is_blank, is_dense, is_white, trim, trim_end, trim_start, trimmed,
    trimming_takes_the_white_space_away,
};

verus! {

/// What has to be done to read a file.
#[derive(Debug, Clone, Copy, PartialEq, Eq, Structural)]
pub enum FileStep {
    /// Open the file and keep it open.
    Open,
    /// Go to the offset `from` of the open file with this handle, and read it to
    /// its end.
    Read { handle: u64, from: u64 },
}

/// The paths of the files that are open, each with its handle.
pub struct FileCache {
    entries: Vec<(String, u64)>,
}

/// The handles by path.
spec fn handles(entries: Seq<(String, u64)>) -> Map<Seq<char>, u64>
    decreases entries.len(),
{
    if entries.len() == 0 {
        Map::empty()
    } else {
        handles(entries.drop_last()).insert(entries.last().0@, entries.last().1)
    }
}

impl View for FileCache {
    type V = Map<Seq<char>, u64>;

    closed spec fn view(&self) -> Map<Seq<char>, u64> {
        handles(self.entries@)
    }
}

impl FileCache {
    /// A cache without files.
    pub fn new() -> (cache: FileCache)
        ensures
            cache@ == Map::<Seq<char>, u64>::empty(),
    {
        FileCache { entries: Vec::new() }
    }
}

/// A file that is open is read again from its beginning; any other has to be
/// opened.
pub open spec fn file_step(open: Map<Seq<char>, u64>, path: Seq<char>) -> FileStep {
    if open.contains_key(path) {
        FileStep::Read { handle: open[path], from: 0 }
    } else {
        FileStep::Open
    }
}

/// What has to be done to read the file at `path`.
pub fn read_cached_file(cache: &FileCache, path: &str) -> (step: FileStep)
    ensures
        step == file_step(cache@, path@),
{
    let wanted = chars_of(path);
    let mut n: usize = cache.entries.len();
    assert(cache.entries@.take(n as int) == cache.entries@);
    while 0 < n
        invariant
            n <= cache.entries@.len(),
            wanted@ == path@,
            file_step(cache@, path@) == file_step(
                handles(cache.entries@.take(n as int)),
                path@,
            ),
        decreases n,
    {
        let ghost seen = cache.entries@.take(n as int);
        let entry = &cache.entries[n - 1];
        assert(seen.last() == *entry);
        assert(seen.drop_last() == cache.entries@.take(n - 1));
        if crate::text::equals(wanted.as_slice(), entry.0.as_str()) {
            return FileStep::Read { handle: entry.1, from: 0 };
        }
        n -= 1;
    }
    FileStep::Open
}

/// Notes that the file at `path` was opened under `handle`, and tells what has
/// to be done then.
pub fn keep_open(cache: &mut FileCache, path: &str, handle: u64) -> (step: FileStep)
    ensures
        final(cache)@ == old(cache)@.insert(path@, handle),
        step == file_step(final(cache)@, path@),
        step == (FileStep::Read { handle, from: 0 }),
{
    let ghost before = cache.entries@;
    cache.entries.push((path.to_owned(), handle));
    assert(cache.entries@.drop_last() == before);
    FileStep::Read { handle, from: 0 }
}

/// Forgets all open files.
pub fn clear_cache(cache: &mut FileCache)
    ensures
        final(cache)@ == Map::<Seq<char>, u64>::empty(),
{
    cache.entries.clear();
}

/// A file that was opened is read through its handle from then on, and no
/// other file is affected.
pub proof fn opened_files_stay_open(
    open: Map<Seq<char>, u64>,
    path: Seq<char>,
    handle: u64,
    other: Seq<char>,
)
    ensures
        file_step(open.insert(path, handle), path) == (FileStep::Read { handle, from: 0 }),
        other != path ==> file_step(open.insert(path, handle), other) == file_step(open, other),
{
}

/// After the cache was cleared every file is opened again.
pub proof fn cleared_files_are_reopened(path: Seq<char>)
    ensures
        file_step(Map::empty(), path) == FileStep::Open,
{
}

/// A file that is open: what it holds, and the offset up to which it was read.
pub struct OpenFile {
    pub content: Seq<u8>,
    pub position: nat,
}

/// What is left of a file up to its end.
pub open spec fn rest(file: OpenFile) -> Seq<u8> {
    if file.position <= file.content.len() {
        file.content.skip(file.position as int)
    } else {
        Seq::empty()
    }
}

/// Bytes as a text; nothing where they are not UTF-8.
pub open spec fn decoded(bytes: Seq<u8>) -> Option<Seq<char>> {
    if valid_utf8(bytes) {
        Some(decode_utf8(bytes))
    } else {
        None
    }
}

/// What is open: the handles by path, and the files by handle.
#[verifier::ext_equal]
pub struct Opened {
    pub handles: Map<Seq<char>, u64>,
    pub files: Seq<OpenFile>,
}

/// Nothing is open.
pub open spec fn none_open() -> Opened {
    Opened { handles: Map::empty(), files: Seq::empty() }
}

/// What is open after a step was carried out, where the files at the paths hold
/// `disk`. Opening gives the next handle and starts at the beginning, and fails
/// for a file that is not there; reading goes to the end.
pub open spec fn carried_out(
    o: Opened,
    disk: Map<Seq<char>, Seq<u8>>,
    path: Seq<char>,
    step: FileStep,
) -> Opened {
    match step {
        FileStep::Open => if disk.contains_key(path) {
            Opened {
                handles: o.handles.insert(path, o.files.len() as u64),
                files: o.files.push(OpenFile { content: disk[path], position: 0 }),
            }
        } else {
            o
        },
        FileStep::Read { handle, from } => {
            let file = o.files[handle as int];
            Opened {
                files: o.files.update(
                    handle as int,
                    OpenFile { position: file.content.len(), ..file },
                ),
                ..o
            }
        },
    }
}

/// The text that a step gives: none where the file was only opened.
pub open spec fn step_text(o: Opened, step: FileStep) -> Option<Seq<char>> {
    match step {
        FileStep::Open => None,
        FileStep::Read { handle, from } => decoded(
            rest(OpenFile { position: from as nat, ..o.files[handle as int] }),
        ),
    }
}

/// What is open once the file is, where it can be opened.
pub open spec fn opened(o: Opened, disk: Map<Seq<char>, Seq<u8>>, path: Seq<char>) -> Opened {
    let step = file_step(o.handles, path);
    if step == FileStep::Open {
        carried_out(o, disk, path, step)
    } else {
        o
    }
}

/// What a reading of the file at `path` gives: the text of the step that is due
/// once the file is open.
pub open spec fn reading(
    o: Opened,
    disk: Map<Seq<char>, Seq<u8>>,
    path: Seq<char>,
) -> Option<Seq<char>> {
    let now = opened(o, disk, path);
    step_text(now, file_step(now.handles, path))
}

/// What is open after a reading of the file at `path`.
pub open spec fn after_reading(
    o: Opened,
    disk: Map<Seq<char>, Seq<u8>>,
    path: Seq<char>,
) -> Opened {
    let now = opened(o, disk, path);
    let step = file_step(now.handles, path);
    if step == FileStep::Open {
        now
    } else {
        carried_out(now, disk, path, step)
    }
}

/// What is open after several readings, each with what the files held then and
/// the path that was read.
pub open spec fn after_readings(
    o: Opened,
    readings: Seq<(Map<Seq<char>, Seq<u8>>, Seq<char>)>,
) -> Opened
    decreases readings.len(),
{
    if readings.len() == 0 {
        o
    } else {
        let (disk, path) = readings.last();
        after_reading(after_readings(o, readings.drop_last()), disk, path)
    }
}

/// Whether each handle is that of an open file.
pub open spec fn all_open(o: Opened) -> bool {
    forall|path: Seq<char>| #[trigger]
        o.handles.contains_key(path) ==> o.handles[path] < o.files.len()
}

/// Whether the file at `path`, where it is open, holds what `disk` has there,
/// whatever was read of it.
pub open spec fn is_current(o: Opened, disk: Map<Seq<char>, Seq<u8>>, path: Seq<char>) -> bool {
    o.handles.contains_key(path) ==> disk.contains_key(path)
        && o.files[o.handles[path] as int].content == disk[path]
}

/// A reading gives the whole content of a file, however far it was read before.
/// A file that is not there or holds no text gives nothing.
pub proof fn a_reading_gives_the_whole_file(
    o: Opened,
    disk: Map<Seq<char>, Seq<u8>>,
    path: Seq<char>,
)
    requires
        all_open(o),
        is_current(o, disk, path),
        o.files.len() < u64::MAX,
    ensures
        reading(o, disk, path) == if disk.contains_key(path) {
            decoded(disk[path])
        } else {
            None
        },
{
    let now = opened(o, disk, path);
    match file_step(now.handles, path) {
        FileStep::Open => {},
        FileStep::Read { handle, from } => {
            let content = now.files[handle as int].content;
            assert(content.skip(0) =~= content);
        },
    }
}

proof fn lemma_stays_current(
    o: Opened,
    now: Map<Seq<char>, Seq<u8>>,
    read: Seq<char>,
    disk: Map<Seq<char>, Seq<u8>>,
    path: Seq<char>,
)
    requires
        all_open(o),
        is_current(o, disk, path),
        o.files.len() < u64::MAX,
        now.contains_key(path) == disk.contains_key(path),
        now.contains_key(path) ==> now[path] == disk[path],
    ensures
        all_open(after_reading(o, now, read)),
        is_current(after_reading(o, now, read), disk, path),
        after_reading(o, now, read).files.len() <= o.files.len() + 1,
{
    let open = opened(o, now, read);
    assert(all_open(open));
    assert(is_current(open, disk, path));
}

proof fn lemma_stays_current_throughout(
    o: Opened,
    readings: Seq<(Map<Seq<char>, Seq<u8>>, Seq<char>)>,
    disk: Map<Seq<char>, Seq<u8>>,
    path: Seq<char>,
)
    requires
        all_open(o),
        is_current(o, disk, path),
        o.files.len() + readings.len() <= u64::MAX,
        forall|i: int|
            #![trigger readings[i]]
            0 <= i < readings.len() ==> readings[i].0.contains_key(path) == disk.contains_key(path)
                && (disk.contains_key(path) ==> readings[i].0[path] == disk[path]),
    ensures
        all_open(after_readings(o, readings)),
        is_current(after_readings(o, readings), disk, path),
        after_readings(o, readings).files.len() <= o.files.len() + readings.len(),
    decreases readings.len(),
{
    if readings.len() > 0 {
        let before = readings.drop_last();
        assert forall|i: int|
            #![trigger before[i]]
            0 <= i < before.len() implies before[i].0.contains_key(path) == disk.contains_key(path)
            && (disk.contains_key(path) ==> before[i].0[path] == disk[path]) by {
            assert(before[i] == readings[i]);
        }
        lemma_stays_current_throughout(o, before, disk, path);
        let (now, read) = readings[readings.len() - 1];
        lemma_stays_current(after_readings(o, before), now, read, disk, path);
    }
}

/// A file that has not changed gives its whole content again, however often it
/// was read meanwhile, and whatever other files were read and held.
pub proof fn unchanged_files_read_the_same(
    o: Opened,
    disk: Map<Seq<char>, Seq<u8>>,
    path: Seq<char>,
    between: Seq<(Map<Seq<char>, Seq<u8>>, Seq<char>)>,
    later: Map<Seq<char>, Seq<u8>>,
)
    requires
        all_open(o),
        is_current(o, disk, path),
        o.files.len() + 1 + between.len() < u64::MAX,
        disk.contains_key(path),
        forall|i: int|
            #![trigger between[i]]
            0 <= i < between.len() ==> between[i].0.contains_key(path) && between[i].0[path]
                == disk[path],
        later.contains_key(path) && later[path] == disk[path],
    ensures
        reading(o, disk, path) == decoded(disk[path]),
        reading(after_readings(after_reading(o, disk, path), between), later, path) == reading(
            o,
            disk,
            path,
        ),
{
    a_reading_gives_the_whole_file(o, disk, path);
    lemma_stays_current(o, disk, path, disk, path);
    let next = after_reading(o, disk, path);
    lemma_stays_current_throughout(next, between, disk, path);
    a_reading_gives_the_whole_file(after_readings(next, between), later, path);
}

/// From the start on, the conditions of these laws hold.
pub proof fn nothing_is_open_at_the_start(disk: Map<Seq<char>, Seq<u8>>, path: Seq<char>)
    ensures
        all_open(none_open()),
        is_current(none_open(), disk, path),
{
}

/// The text of a file that could be read.
pub open spec fn text_in(contents: Option<&str>) -> Option<Seq<char>> {
    match contents {
        Some(s) => Some(s@),
        None => None,
    }
}

/// The natural number up to `max` that a file holds, white space around it
/// aside; nothing where the file was not read or holds something else.
pub open spec fn number_in(contents: Option<Seq<char>>, max: nat) -> Option<nat> {
    match contents {
        Some(s) => natural_up_to(trim(s), max),
        None => None,
    }
}

/// The integer that a file holds, white space around it aside.
pub open spec fn integer_in(contents: Option<Seq<char>>, min: int, max: int) -> Option<int> {
    match contents {
        Some(s) => integer_within(trim(s), min, max),
        None => None,
    }
}

/// The contents of a file as a `u32`.
pub fn read_cached_u32(contents: Option<&str>) -> (r: Option<u32>)
    ensures
        match r {
            Some(v) => number_in(text_in(contents), u32::MAX as nat) == Some(v as nat),
            None => number_in(text_in(contents), u32::MAX as nat) is None,
        },
{
    match contents {
        Some(s) => {
            let cs = chars_of(s);
            let t = trimmed(cs.as_slice());
            read_u32(t.as_slice())
        },
        None => None,
    }
}

/// The contents of a file as a `u64`.
pub fn read_cached_u64(contents: Option<&str>) -> (r: Option<u64>)
    ensures
        match r {
            Some(v) => number_in(text_in(contents), u64::MAX as nat) == Some(v as nat),
            None => number_in(text_in(contents), u64::MAX as nat) is None,
        },
{
    match contents {
        Some(s) => {
            let cs = chars_of(s);
            let t = trimmed(cs.as_slice());
            read_u64(t.as_slice())
        },
        None => None,
    }
}

/// The contents of a file as an `i32`.
pub fn read_cached_i32(contents: Option<&str>) -> (r: Option<i32>)
    ensures
        match r {
            Some(v) => integer_in(text_in(contents), i32::MIN as int, i32::MAX as int) == Some(
                v as int,
            ),
            None => integer_in(text_in(contents), i32::MIN as int, i32::MAX as int) is None,
        },
{
    match contents {
        Some(s) => {
            let cs = chars_of(s);
            let t = trimmed(cs.as_slice());
            read_i32(t.as_slice())
        },
        None => None,
    }
}

proof fn lemma_line_trims(s: Seq<char>)
    requires
        s.len() > 0,
        !is_white(s.first()),
        !is_white(s.last()),
    ensures
        trim(s.push('\n')) == s,
{
    let line = s.push('\n');
    assert(line.first() == s.first());
    assert(trim_start(line) == line);
    assert(line.drop_last() =~= s);
    reveal_with_fuel(trim_end, 2);
}

/// A file that holds a number on a line of its own reads as that number.
pub proof fn a_number_on_a_line_is_read(n: nat, max: nat)
    requires
        n <= max,
    ensures
        number_in(Some(decimal(n).push('\n')), max) == Some(n),
{
    lemma_decimal_digits(n);
    assert(is_digit(decimal(n)[0]) && is_digit(decimal(n)[decimal(n).len() - 1]));
    lemma_line_trims(decimal(n));
    natural_reads_decimal(n);
}

/// A file that holds an integer on a line of its own reads as that integer.
pub proof fn an_integer_on_a_line_is_read(n: int, min: int, max: int)
    requires
        min <= n <= max,
    ensures
        integer_in(Some(decimal_int(n).push('\n')), min, max) == Some(n),
{
    let digits = decimal(
        (if n < 0 {
            -n
        } else {
            n
        }) as nat,
    );
    lemma_decimal_digits(
        (if n < 0 {
            -n
        } else {
            n
        }) as nat,
    );
    assert(is_digit(digits[0]) && is_digit(digits[digits.len() - 1]));
    assert(decimal_int(n).last() == digits.last());
    lemma_line_trims(decimal_int(n));
    integer_reads_decimal(n, min, max);
}

/// A file gives the number that it spells, white space around it aside, where the
/// number lies within the bounds, and nothing where the file was not read.
pub proof fn a_file_gives_the_number_it_spells(
    a: Seq<char>,
    word: Seq<char>,
    b: Seq<char>,
    max: nat,
    low: int,
    high: int,
)
    requires
        is_blank(a),
        is_blank(b),
        is_dense(word),
    ensures
        number_in(None, max) is None,
        integer_in(None, low, high) is None,
        number_in(Some(a + word + b), max) == (match natural(word) {
            Some(v) => if v <= max {
                Some(v)
            } else {
                None
            },
            None => None,
        }),
        integer_in(Some(a + word + b), low, high) == integer_within(word, low, high),
{
    if word.len() > 0 {
        assert(word.first() == word[0] && word.last() == word[word.len() - 1]);
    }
    trimming_takes_the_white_space_away(a, word, b);
}

/// The number in a file is the one that all of it spells, but for the white space around
/// it: nothing is read of a file that holds anything else beside a number.
pub proof fn the_whole_file_spells_the_number(s: Seq<char>, max: nat, low: int, high: int)
    ensures
        number_in(Some(s), max) == (match natural(trim(s)) {
            Some(v) => if v <= max {
                Some(v)
            } else {
                None
            },
            None => None,
        }),
        integer_in(Some(s), low, high) == integer_within(trim(s), low, high),
{
}

} // verus!
