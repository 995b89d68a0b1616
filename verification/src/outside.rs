//! What the library takes from outside without proof: searches by regular
//! expression, the sections of an ELF file, the division of an area of the
//! screen, and the Unicode conversions of std.

use ratatui::layout::{Constraint, Direction, Layout, Rect};
use vstd::prelude::*;
use vstd::utf8::{decode_utf8, valid_utf8};

use crate::layout::{divided, Area};
use crate::screen::Extent;

verus! {

/// The text in an optional string.
pub open spec fn optional_text(o: Option<String>) -> Option<Seq<char>> {
    match o {
        Some(s) => Some(s@),
        None => None,
    }
}

/// The texts of the groups of one match; a group that took no part has none.
pub open spec fn groups_in(groups: Seq<Option<String>>) -> Seq<Option<Seq<char>>> {
    groups.map_values(|g: Option<String>| optional_text(g))
}

/// The groups of each of several matches.
pub open spec fn matches_in(found: Seq<Vec<Option<String>>>) -> Seq<Seq<Option<Seq<char>>>> {
    found.map_values(|groups: Vec<Option<String>>| groups_in(groups@))
}

/// The matches that `regex::Regex::captures_iter` finds for a pattern in a
/// text, each with its groups; nothing where the pattern does not compile.
pub uninterp spec fn regex_matches(pattern: Seq<char>, text: Seq<char>) -> Option<
    Seq<Seq<Option<Seq<char>>>>,
>;

/// The groups of the match that `regex::Regex::captures` finds for a pattern
/// in a text, if it finds one; nothing where the pattern does not compile.
pub uninterp spec fn regex_first(pattern: Seq<char>, text: Seq<char>) -> Option<
    Option<Seq<Option<Seq<char>>>>,
>;

/// Compiles the pattern with `regex::Regex::new` and collects what
/// `Regex::captures_iter` yields for the text. Trusted: the result depends on
/// pattern and text alone, and is `None` where the pattern does not compile.
#[verifier::external_body]
pub(crate) fn captures_iter(pattern: &str, text: &str) -> (r: Option<Vec<Vec<Option<String>>>>)
    ensures
        match r {
            Some(found) => regex_matches(pattern@, text@) == Some(matches_in(found@)),
            None => regex_matches(pattern@, text@) is None,
        },
{
    let re = regex::Regex::new(pattern).ok()?;
    Some(
        re.captures_iter(text)
            .map(|c| c.iter().map(|g| g.map(|g| String::from(g.as_str()))).collect())
            .collect(),
    )
}

/// Compiles the pattern with `regex::Regex::new` and takes what
/// `Regex::captures` returns for the text. Trusted: the result depends on
/// pattern and text alone, and is `None` where the pattern does not compile.
#[verifier::external_body]
pub(crate) fn captures(pattern: &str, text: &str) -> (r: Option<Option<Vec<Option<String>>>>)
    ensures
        match r {
            Some(Some(groups)) => regex_first(pattern@, text@) == Some(Some(groups_in(groups@))),
            Some(None) => regex_first(pattern@, text@) == Some(
                None::<Seq<Option<Seq<char>>>>,
            ),
            None => regex_first(pattern@, text@) is None,
        },
{
    let re = regex::Regex::new(pattern).ok()?;
    Some(
        re.captures(text)
            .map(|c| c.iter().map(|g| g.map(|g| String::from(g.as_str()))).collect()),
    )
}

/// A section of an ELF file: its name, where the name table has one, and the
/// place of its contents in the file.
pub struct Section {
    pub name: Option<String>,
    pub offset: u64,
    pub size: u64,
}

/// What is stated of a section.
pub struct SectionView {
    pub name: Option<Seq<char>>,
    pub offset: u64,
    pub size: u64,
}

impl View for Section {
    type V = SectionView;

    open spec fn view(&self) -> SectionView {
        SectionView { name: optional_text(self.name), offset: self.offset, size: self.size }
    }
}

/// The views of several sections.
pub open spec fn sections_in(sections: Seq<Section>) -> Seq<SectionView> {
    sections.map_values(|s: Section| s@)
}

/// The section headers that `goblin::Object::parse` finds in the bytes of an
/// ELF file; nothing where it does not accept the file.
pub uninterp spec fn elf_headers(bytes: Seq<u8>) -> Option<Seq<SectionView>>;

/// Whether the bytes begin with the signature of an ELF file.
pub open spec fn elf_signature(bytes: Seq<u8>) -> bool {
    bytes.len() >= 4 && bytes[0] == 0x7f && bytes[1] == 0x45 && bytes[2] == 0x4c && bytes[3] == 0x46
}

/// Parses the bytes with `goblin::Object::parse` and lists the section headers
/// of the `Elf` that comes back, each name as `Strtab::get_at` gives it.
/// Trusted: the result depends on the bytes alone, and is `None` where the
/// bytes are not accepted. With the signature the bytes are parsed as ELF and
/// as nothing else. This holds on 64-bit machines, for which the library is
/// made: where `usize` has 32 bits, the products of counts and sizes that the
/// parser forms can overflow.
#[verifier::external_body]
pub(crate) fn elf_sections(bytes: &[u8]) -> (r: Option<Vec<Section>>)
    requires
        elf_signature(bytes@),
    ensures
        match r {
            Some(sections) => elf_headers(bytes@) == Some(sections_in(sections@)),
            None => elf_headers(bytes@) is None,
        },
{
    match goblin::Object::parse(bytes) {
        Ok(goblin::Object::Elf(elf)) => Some(
            elf.section_headers
                .iter()
                .map(|h| Section {
                    name: elf.shdr_strtab.get_at(h.sh_name).map(String::from),
                    offset: h.sh_offset,
                    size: h.sh_size,
                })
                .collect(),
        ),
        _ => None,
    }
}

/// Whether `ratatui::layout::Layout::split` may divide an area into these parts,
/// below each other or beside each other, for the given extents.
pub uninterp spec fn may_split(
    area: Area,
    vertical: bool,
    extents: Seq<Extent>,
    parts: Seq<Area>,
) -> bool;

/// Divides an area with `ratatui::layout::Layout::split`, below each other or
/// beside each other, into a part for each extent. Trusted: the parts are some
/// that `split` may give for these arguments, there is one for each extent, and
/// they keep the place and the size of the area in the other direction. How the
/// room is shared is left unsaid: the solver that `Layout` uses walks hash maps,
/// so that nothing fixes which of several solutions it finds.
#[verifier::external_body]
pub(crate) fn split(area: Area, vertical: bool, extents: &Vec<Extent>) -> (parts: Vec<Area>)
    ensures
        may_split(area, vertical, extents@, parts@),
        divided(parts@, area, vertical, extents@.len()),
{
    let constraints = extents.iter().map(|e| match *e {
        Extent::Length(n) => Constraint::Length(n),
        Extent::Percentage(n) => Constraint::Percentage(n),
        Extent::Min(n) => Constraint::Min(n),
    });
    let direction = if vertical { Direction::Vertical } else { Direction::Horizontal };
    let rect = Rect { x: area.x, y: area.y, width: area.width, height: area.height };
    let rects = Layout::default().direction(direction).constraints(constraints).split(rect);
    rects.iter().map(|r| Area { x: r.x, y: r.y, width: r.width, height: r.height }).collect()
}

/// The text that `String::from_utf8_lossy` of std makes of bytes.
pub uninterp spec fn utf8_lossy(bytes: Seq<u8>) -> Seq<char>;

/// Calls `String::from_utf8_lossy` of std. Trusted: the result depends on the
/// bytes alone, and is the text they encode where they are valid UTF-8.
#[verifier::external_body]
pub(crate) fn utf8_lossy_of(bytes: &[u8]) -> (r: String)
    ensures
        r@ == utf8_lossy(bytes@),
        valid_utf8(bytes@) ==> r@ == decode_utf8(bytes@),
{
    String::from_utf8_lossy(bytes).into_owned()
}

/// The text that `str::to_lowercase` of std makes of a text.
pub uninterp spec fn lowercase(text: Seq<char>) -> Seq<char>;

/// Calls `str::to_lowercase` of std. Trusted: the result depends on the text
/// alone, and no text becomes no text.
#[verifier::external_body]
pub(crate) fn lowercase_of(text: &str) -> (r: String)
    ensures
        r@ == lowercase(text@),
        text@.len() == 0 ==> r@.len() == 0,
{
    text.to_lowercase()
}

/// The text that `str::to_uppercase` of std makes of a text.
pub uninterp spec fn uppercase(text: Seq<char>) -> Seq<char>;

/// Calls `str::to_uppercase` of std. Trusted: the result depends on the text
/// alone.
#[verifier::external_body]
pub(crate) fn uppercase_of(text: &str) -> (r: String)
    ensures
        r@ == uppercase(text@),
{
    text.to_uppercase()
}

} // verus!
