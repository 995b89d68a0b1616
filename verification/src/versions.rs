//! What the board is called, and the versions of its drivers and libraries.

use vstd::prelude::*;
use vstd::slice::slice_subrange;

use crate::file_cache::text_in;
use crate::hardware::{group, optional_texts};
use crate::outside::{
    captures, elf_headers, elf_sections, elf_signature, groups_in, optional_text, regex_first,
    sections_in, uppercase, uppercase_of, utf8_lossy, utf8_lossy_of, Section, SectionView,
};
use crate::text::{
    chars_of, contains, copy_range, equals, find, first_of, first_of_is_first, holds, pieces,
    pieces_stand_between_separators, second_piece, second_piece_of, stands_at, string_of, trim,
    trim_end_of, trimmed, trimmed_end_of, trimming_takes_a_character_away,
};

verus! {

/// The name that a model file holds: its text without the zeros at the end and
/// without white space around it.
pub open spec fn model_name(text: Seq<char>) -> Seq<char> {
    trim(trim_end_of(text, '\u{0}'))
}

/// The first name that is not empty, if there is one.
pub open spec fn board_name(texts: Seq<Option<Seq<char>>>) -> Seq<char>
    decreases texts.len(),
{
    if texts.len() == 0 {
        "Unknown Board"@
    } else {
        match texts[0] {
            Some(t) => if model_name(t).len() > 0 {
                model_name(t)
            } else {
                board_name(texts.drop_first())
            },
            None => board_name(texts.drop_first()),
        }
    }
}

/// The name of the board, from the texts of the model files that could be read.
pub fn board_name_from(texts: &Vec<Option<String>>) -> (r: String)
    ensures
        r@ == board_name(optional_texts(texts@)),
{
    let ghost all = optional_texts(texts@);
    let mut i: usize = 0;
    assert(all.skip(0) == all);
    while i < texts.len()
        invariant
            i <= texts@.len(),
            all == optional_texts(texts@),
            board_name(all) == board_name(all.skip(i as int)),
        decreases texts.len() - i,
    {
        assert(all.skip(i as int)[0] == optional_text(texts@[i as int]));
        assert(all.skip(i as int).drop_first() == all.skip(i + 1));
        match &texts[i] {
            Some(t) => {
                let cs = chars_of(t.as_str());
                let cs = trimmed_end_of(cs.as_slice(), '\u{0}');
                let name = trimmed(cs.as_slice());
                if name.len() > 0 {
                    return string_of(name.as_slice());
                }
            },
            None => {},
        }
        i += 1;
    }
    "Unknown Board".to_owned()
}

/// The texts of files, with a mark in place of what is not UTF-8.
pub open spec fn lossy_texts(contents: Seq<Option<Vec<u8>>>) -> Seq<Option<Seq<char>>> {
    contents.map_values(
        |c: Option<Vec<u8>>|
            match c {
                Some(bytes) => Some(utf8_lossy(bytes@)),
                None => None,
            },
    )
}

/// The name of the board, from the contents of the model files that could be
/// read.
pub fn get_board_name(contents: &Vec<Option<Vec<u8>>>) -> (r: String)
    ensures
        r@ == board_name(lossy_texts(contents@)),
{
    let mut texts: Vec<Option<String>> = Vec::new();
    let mut i: usize = 0;
    while i < contents.len()
        invariant
            i <= contents@.len(),
            optional_texts(texts@) =~= lossy_texts(contents@).take(i as int),
        decreases contents.len() - i,
    {
        let text = match &contents[i] {
            Some(bytes) => Some(utf8_lossy_of(bytes.as_slice())),
            None => None,
        };
        assert(optional_text(text) == lossy_texts(contents@)[i as int]);
        let ghost before = texts@;
        texts.push(text);
        assert(optional_texts(texts@) =~= optional_texts(before).push(optional_text(text)));
        assert(lossy_texts(contents@).take(i + 1) =~= lossy_texts(contents@).take(i as int).push(
            lossy_texts(contents@)[i as int],
        ));
        i += 1;
    }
    assert(optional_texts(texts@) =~= lossy_texts(contents@));
    board_name_from(&texts)
}

/// What the name of a chip looks like.
pub const RK_PATTERN: &'static str = r"\b(RK\d+)\b";

/// The text of the first group of a match.
pub open spec fn first_group(found: Option<Seq<Option<Seq<char>>>>) -> Option<Seq<char>> {
    match found {
        Some(groups) => group(groups, 1),
        None => None,
    }
}

/// The groups of a match that was found.
pub open spec fn found_groups(found: Option<Vec<Option<String>>>) -> Option<
    Seq<Option<Seq<char>>>,
> {
    match found {
        Some(groups) => Some(groups_in(groups@)),
        None => None,
    }
}

/// The text of the first group of a match.
pub fn first_group_of(found: &Option<Vec<Option<String>>>) -> (r: Option<String>)
    ensures
        optional_text(r) == first_group(found_groups(*found)),
{
    match found {
        Some(groups) => {
            if groups.len() > 1 {
                assert(groups_in(groups@)[1] == optional_text(groups@[1]));
                match &groups[1] {
                    Some(t) => Some(t.clone()),
                    None => None,
                }
            } else {
                None
            }
        },
        None => None,
    }
}

/// The name of the chip, in capital letters, where one was found.
pub open spec fn chip_name(found: Option<Seq<char>>) -> Seq<char> {
    match found {
        Some(name) => name,
        None => "Unknown RK"@,
    }
}

/// The name of the chip to show for what was found.
pub fn chip_name_of(found: Option<String>) -> (r: String)
    ensures
        r@ == chip_name(optional_text(found)),
{
    match found {
        Some(name) => name,
        None => "Unknown RK".to_owned(),
    }
}

/// The first match of a pattern, if it compiles and matches.
pub open spec fn first_match(pattern: Seq<char>, text: Seq<char>) -> Option<
    Seq<Option<Seq<char>>>,
> {
    match regex_first(pattern, text) {
        Some(found) => found,
        None => None,
    }
}

fn first_match_of(pattern: &str, text: &str) -> (r: Option<Vec<Option<String>>>)
    ensures
        found_groups(r) == first_match(pattern@, text@),
{
    match captures(pattern, text) {
        Some(found) => found,
        None => None,
    }
}

/// The chip that the name of the board tells.
pub fn get_rk_model(board_name: &str) -> (r: String)
    ensures
        r@ == chip_name(
            match first_group(first_match(RK_PATTERN@, board_name@)) {
                Some(name) => Some(uppercase(name)),
                None => None,
            },
        ),
{
    let found = first_match_of(RK_PATTERN, board_name);
    match first_group_of(&found) {
        Some(name) => chip_name_of(Some(uppercase_of(name.as_str()))),
        None => chip_name_of(None),
    }
}

/// The version in a version file: what stands after the first colon, up to the
/// second.
pub open spec fn version_in(content: Option<Seq<char>>) -> Seq<char> {
    match content {
        Some(s) => match second_piece(s, ':') {
            Some(v) => trim(v),
            None => "Not Detected"@,
        },
        None => "Not Detected"@,
    }
}

fn version_of(content: Option<&str>) -> (r: String)
    ensures
        r@ == version_in(text_in(content)),
{
    match content {
        Some(s) => {
            let cs = chars_of(s);
            match second_piece_of(cs.as_slice(), ':') {
                Some(v) => string_of(trimmed(v.as_slice()).as_slice()),
                None => "Not Detected".to_owned(),
            }
        },
        None => "Not Detected".to_owned(),
    }
}

/// The version of the driver of the scaler, from its version file.
pub fn get_rga_version(content: Option<&str>) -> (r: String)
    ensures
        r@ == version_in(text_in(content)),
{
    version_of(content)
}

/// The version of the driver of the neural unit, from its version file.
pub fn get_npu_driver_version(content: Option<&str>) -> (r: String)
    ensures
        r@ == version_in(text_in(content)),
{
    version_of(content)
}

/// What a version number looks like.
pub const VERSION_PATTERN: &'static str = r"(\d+\.\d+\.\d+)";

/// The version number in a text from the first place of a mark on.
pub open spec fn version_after(text: Seq<char>, mark: Seq<char>) -> Option<Seq<char>> {
    match first_of(text, mark) {
        Some(i) => first_group(first_match(VERSION_PATTERN@, text.skip(i))),
        None => None,
    }
}

/// The version number in a text from the first place of a mark on.
pub fn version_after_mark(text: &str, mark: &str) -> (r: Option<String>)
    ensures
        optional_text(r) == version_after(text@, mark@),
{
    let text = chars_of(text);
    let mark = chars_of(mark);
    match find(text.as_slice(), mark.as_slice()) {
        Some(i) => {
            let rest = copy_range(text.as_slice(), i, text.len());
            assert(rest@ =~= text@.skip(i as int));
            let found = first_match_of(VERSION_PATTERN, string_of(rest.as_slice()).as_str());
            first_group_of(&found)
        },
        None => None,
    }
}

/// Whether a section is searched: those that hold constant data, by their
/// names.
pub open spec fn is_searched(name: Option<Seq<char>>) -> bool {
    match name {
        Some(n) => n == ".rodata"@ || contains(n, "data"@),
        None => false,
    }
}

/// The end of a section in the file.
pub open spec fn section_end(s: SectionView) -> nat {
    (s.offset as usize + s.size as usize) as nat
}

/// The version number in the sections from position `i` on: that in the first
/// searched section that lies in the file and has one after the mark. There is
/// nothing where a section comes first that ends beyond all addresses.
pub open spec fn version_from(
    bytes: Seq<u8>,
    sections: Seq<SectionView>,
    mark: Seq<char>,
    i: nat,
) -> Option<Option<Seq<char>>>
    decreases sections.len() - i,
{
    if i >= sections.len() {
        Some(None)
    } else {
        let s = sections[i as int];
        if !is_searched(s.name) {
            version_from(bytes, sections, mark, i + 1)
        } else if section_end(s) > usize::MAX {
            None
        } else if section_end(s) > bytes.len() {
            version_from(bytes, sections, mark, i + 1)
        } else {
            let text = utf8_lossy(bytes.subrange(s.offset as usize as int, section_end(s) as int));
            match version_after(text, mark) {
                Some(v) => Some(Some(v)),
                None => version_from(bytes, sections, mark, i + 1),
            }
        }
    }
}

/// The version number to show for what was found.
pub open spec fn shown_version(found: Option<Option<Seq<char>>>) -> Option<Seq<char>> {
    match found {
        Some(Some(v)) => Some(v),
        Some(None) => Some("Not Detected"@),
        None => None,
    }
}

/// The version number in the sections of a file, after a mark.
pub fn version_in_sections(bytes: &[u8], sections: &Vec<Section>, mark: &str) -> (r: Option<String>)
    ensures
        optional_text(r) == shown_version(
            version_from(bytes@, sections_in(sections@), mark@, 0),
        ),
{
    let ghost all = sections_in(sections@);
    let mut i: usize = 0;
    while i < sections.len()
        invariant
            i <= sections@.len(),
            all == sections_in(sections@),
            version_from(bytes@, all, mark@, 0) == version_from(bytes@, all, mark@, i as nat),
        decreases sections.len() - i,
    {
        let s = &sections[i];
        assert(all[i as int] == s@);
        let searched = match &s.name {
            Some(n) => {
                let cs = chars_of(n.as_str());
                equals(cs.as_slice(), ".rodata") || holds(cs.as_slice(), "data")
            },
            None => false,
        };
        assert(searched == is_searched(s@.name));
        if searched {
            let start: usize = s.offset as usize;
            match start.checked_add(s.size as usize) {
                None => {
                    return None;
                },
                Some(end) => {
                    if end <= bytes.len() {
                        let text = utf8_lossy_of(slice_subrange(bytes, start, end));
                        match version_after_mark(text.as_str(), mark) {
                            Some(v) => {
                                return Some(v);
                            },
                            None => {},
                        }
                    }
                },
            }
        }
        i += 1;
    }
    Some("Not Detected".to_owned())
}

/// The version number in a library, after a mark, from the contents of the
/// library file. There is nothing where a section in question ends beyond all
/// addresses.
pub open spec fn library_version(content: Option<Seq<u8>>, mark: Seq<char>) -> Option<Seq<char>> {
    match content {
        Some(bytes) => if elf_signature(bytes) {
            match elf_headers(bytes) {
                Some(sections) => shown_version(version_from(bytes, sections, mark, 0)),
                None => Some("Not Detected"@),
            }
        } else {
            Some("Not Detected"@)
        },
        None => Some("Not Detected"@),
    }
}

/// The contents of a file that could be read.
pub open spec fn bytes_in(content: Option<&[u8]>) -> Option<Seq<u8>> {
    match content {
        Some(bytes) => Some(bytes@),
        None => None,
    }
}

/// The version number in a library, after a mark.
pub fn extract_version_from_binary(content: Option<&[u8]>, mark: &str) -> (r: Option<String>)
    ensures
        optional_text(r) == library_version(bytes_in(content), mark@),
{
    match content {
        Some(bytes) => {
            if bytes.len() >= 4 && bytes[0] == 0x7f && bytes[1] == 0x45 && bytes[2] == 0x4c
                && bytes[3] == 0x46 {
                match elf_sections(bytes) {
                    Some(sections) => version_in_sections(bytes, &sections, mark),
                    None => Some("Not Detected".to_owned()),
                }
            } else {
                Some("Not Detected".to_owned())
            }
        },
        None => Some("Not Detected".to_owned()),
    }
}

/// The version of the runtime library of the neural unit.
pub fn get_librknnrt_version(content: Option<&[u8]>) -> (r: Option<String>)
    ensures
        optional_text(r) == library_version(bytes_in(content), "librknnrt version:"@),
{
    extract_version_from_binary(content, "librknnrt version:")
}

/// The version of the language model library of the neural unit.
pub fn get_librkllmrt_version(content: Option<&[u8]>) -> (r: Option<String>)
    ensures
        optional_text(r) == library_version(bytes_in(content), "RKLLM SDK (version:"@),
{
    extract_version_from_binary(content, "RKLLM SDK (version:")
}

/// A file that is not an ELF file has no version, whatever it holds.
pub proof fn other_files_have_no_version(bytes: Seq<u8>, mark: Seq<char>)
    requires
        !elf_signature(bytes),
    ensures
        library_version(Some(bytes), mark) == Some("Not Detected"@),
{
}

/// The board has the first name that is not empty, without the zeros at its end
/// and the white space around it.
pub proof fn the_first_name_counts(
    texts: Seq<Option<Seq<char>>>,
    i: int,
    name: Seq<char>,
    zeros: nat,
)
    requires
        0 <= i <= texts.len(),
        forall|j: int|
            0 <= j < i ==> ((#[trigger] texts[j]) matches Some(t) ==> trim(
                trim_end_of(t, '\u{0}'),
            ).len() == 0),
        name.len() > 0 && name.last() != '\u{0}',
    ensures
        i == texts.len() ==> board_name(texts) == "Unknown Board"@,
        i < texts.len() && texts[i] == Some(name + Seq::new(zeros, |k: int| '\u{0}')) && trim(
            name,
        ).len() > 0 ==> board_name(texts) == trim(name),
    decreases texts.len(),
{
    if i > 0 {
        let rest = texts.drop_first();
        assert(texts[0] matches Some(t) ==> trim(trim_end_of(t, '\u{0}')).len() == 0);
        assert forall|j: int| 0 <= j < i - 1 implies ((#[trigger] rest[j]) matches Some(t) ==> trim(
            trim_end_of(t, '\u{0}'),
        ).len() == 0) by {
            assert(rest[j] == texts[j + 1]);
        }
        the_first_name_counts(rest, i - 1, name, zeros);
    } else {
        trimming_takes_a_character_away(name, '\u{0}', zeros);
    }
}

/// The version in a file stands behind the first colon, up to the second or the
/// end; without a colon there is none.
pub proof fn the_version_stands_behind_the_colon(
    a: Seq<char>,
    version: Seq<char>,
    rest: Seq<char>,
)
    requires
        !a.contains(':'),
        !version.contains(':'),
        rest.len() == 0 || rest[0] == ':',
    ensures
        version_in(None) == "Not Detected"@,
        version_in(Some(a)) == "Not Detected"@,
        version_in(Some(a + seq![':'] + version + rest)) == trim(version),
{
    let tail = version + rest;
    assert(a + seq![':'] + version + rest =~= a + seq![':'] + tail);
    pieces_stand_between_separators(a, ':', tail);
    if rest.len() == 0 {
        assert(tail =~= version);
        pieces_stand_between_separators(version, ':', Seq::empty());
    } else {
        assert(tail =~= version + seq![':'] + rest.drop_first());
        pieces_stand_between_separators(version, ':', rest.drop_first());
    }
    let ps = pieces(a + seq![':'] + version + rest, ':');
    assert(ps == seq![a] + pieces(tail, ':'));
    assert(ps[1] == pieces(tail, ':')[0]);
    assert(pieces(tail, ':')[0] == version);
}

/// A version number is looked for from the first place of the mark on, and not
/// at all where the mark does not stand in the text.
pub proof fn the_version_stands_behind_the_mark(
    a: Seq<char>,
    mark: Seq<char>,
    b: Seq<char>,
)
    requires
        forall|k: int| 0 <= k < a.len() ==> !stands_at(a + mark + b, mark, k),
    ensures
        version_after(a + mark + b, mark) == first_group(
            first_match(VERSION_PATTERN@, mark + b),
        ),
        !contains(a, mark) ==> version_after(a, mark) is None,
{
    let s = a + mark + b;
    first_of_is_first(s, mark);
    first_of_is_first(a, mark);
    assert(stands_at(s, mark, a.len() as int)) by {
        assert(s.subrange(a.len() as int, (a.len() + mark.len()) as int) =~= mark);
    }
    assert(s.skip(a.len() as int) =~= mark + b);
}

/// The version is that in the first section of constant data which lies in the
/// file and has one: sections with another name, sections that end beyond the
/// file and sections without a version behind the mark are passed over.
pub proof fn the_first_section_counts(
    bytes: Seq<u8>,
    sections: Seq<SectionView>,
    mark: Seq<char>,
    i: nat,
)
    requires
        i < sections.len(),
        bytes.len() <= usize::MAX,
        sections[i as int].offset <= usize::MAX,
        sections[i as int].size <= usize::MAX,
    ensures
        version_from(bytes, sections, mark, sections.len()) == Some(None::<Seq<char>>),
        ({
            let s = sections[i as int];
            let end = s.offset + s.size;
            let data = s.name matches Some(n) && contains(n, "data"@);
            let text = utf8_lossy(bytes.subrange(s.offset as int, end));
            let later = version_from(bytes, sections, mark, i + 1);
            let here = version_from(bytes, sections, mark, i);
            &&& !data ==> here == later
            &&& data && bytes.len() < end <= usize::MAX ==> here == later
            &&& data && end <= bytes.len() && version_after(text, mark) is None ==> here == later
            &&& data && end <= bytes.len() && version_after(text, mark) is Some ==> here == Some(
                version_after(text, mark),
            )
            &&& data && end > usize::MAX ==> here is None
        }),
{
    reveal_strlit(".rodata");
    reveal_strlit("data");
    let s = sections[i as int];
    assert(contains(".rodata"@, "data"@)) by {
        assert(".rodata"@.subrange(3, 7) =~= "data"@);
        assert(stands_at(".rodata"@, "data"@, 3));
    }
    assert(s.offset as usize == s.offset && s.size as usize == s.size);
}

/// A chip is named by the first group of the first match, in capital letters.
pub proof fn the_chip_is_the_first_match(board: Seq<char>, groups: Seq<Option<Seq<char>>>)
    ensures
        regex_first(RK_PATTERN@, board) == Some(Some(groups)) && groups.len() > 1 && (groups[1] matches
            Some(name)) ==> first_group(first_match(RK_PATTERN@, board)) == groups[1],
        regex_first(RK_PATTERN@, board) == Some(None::<Seq<Option<Seq<char>>>>) ==> chip_name(
            first_group(first_match(RK_PATTERN@, board)),
        ) == "Unknown RK"@,
        forall|name: Seq<char>| chip_name(Some(name)) == name,
{
}

/// The version of a library is the one that its sections give. It is not detected where
/// they give none, where the file is no ELF file or none that is accepted, and where it
/// was not read.
pub proof fn the_library_has_the_version_of_its_sections(
    bytes: Seq<u8>,
    sections: Seq<SectionView>,
    mark: Seq<char>,
    v: Seq<char>,
)
    ensures
        library_version(None, mark) == Some("Not Detected"@),
        !(bytes.len() >= 4 && bytes.take(4) == seq![0x7fu8, 0x45, 0x4c, 0x46]) ==> library_version(
            Some(bytes),
            mark,
        ) == Some("Not Detected"@),
        bytes.len() >= 4 && bytes.take(4) == seq![0x7fu8, 0x45, 0x4c, 0x46] ==> {
            &&& elf_headers(bytes) is None ==> library_version(Some(bytes), mark) == Some(
                "Not Detected"@,
            )
            &&& elf_headers(bytes) == Some(sections) && version_from(bytes, sections, mark, 0)
                == Some(Some(v)) ==> library_version(Some(bytes), mark) == Some(v)
            &&& elf_headers(bytes) == Some(sections) && version_from(bytes, sections, mark, 0)
                == Some(None::<Seq<char>>) ==> library_version(Some(bytes), mark) == Some(
                "Not Detected"@,
            )
            &&& elf_headers(bytes) == Some(sections) && version_from(bytes, sections, mark, 0)
                is None ==> library_version(Some(bytes), mark) is None
        },
{
    let four = seq![0x7fu8, 0x45, 0x4c, 0x46];
    if bytes.len() >= 4 && bytes.take(4) == four {
        assert(bytes.take(4)[0] == four[0] && bytes.take(4)[1] == four[1] && bytes.take(4)[2]
            == four[2] && bytes.take(4)[3] == four[3]);
    } else if elf_signature(bytes) {
        assert(bytes.take(4) =~= four);
    }
}

} // verus!
