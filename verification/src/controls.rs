//! What the keys do: the order of the processes, and the filter.

use vstd::prelude::*;

use crate::process::ProcessSortMode;
use crate::text::{chars_of, copy_range, string_of};

verus! {

/// A key that was pressed.
#[derive(Debug, Clone, Copy, PartialEq, Eq, Structural)]
pub enum KeyPress {
    Char(char),
    Backspace,
    Esc,
    Enter,
    Other,
}

/// What the keys have set.
pub struct Controls {
    pub process_sort_mode: ProcessSortMode,
    pub filter_text: String,
    /// Whether the filter is being typed.
    pub filter_mode: bool,
}

/// The value of [`Controls`].
#[verifier::ext_equal]
pub struct ControlsView {
    pub process_sort_mode: ProcessSortMode,
    pub filter_text: Seq<char>,
    pub filter_mode: bool,
}

impl View for Controls {
    type V = ControlsView;

    open spec fn view(&self) -> ControlsView {
        ControlsView {
            process_sort_mode: self.process_sort_mode,
            filter_text: self.filter_text@,
            filter_mode: self.filter_mode,
        }
    }
}

/// The first mode, or the second where the first was set.
pub open spec fn toggled(
    mode: ProcessSortMode,
    first: ProcessSortMode,
    second: ProcessSortMode,
) -> ProcessSortMode {
    if mode == first {
        second
    } else {
        first
    }
}

/// What a key does while the filter is being typed.
pub open spec fn typed(c: ControlsView, key: KeyPress) -> ControlsView {
    match key {
        KeyPress::Char(ch) => ControlsView { filter_text: c.filter_text.push(ch), ..c },
        KeyPress::Backspace => ControlsView {
            filter_text: if c.filter_text.len() > 0 {
                c.filter_text.drop_last()
            } else {
                c.filter_text
            },
            ..c
        },
        KeyPress::Esc => ControlsView { filter_text: Seq::empty(), filter_mode: false, ..c },
        KeyPress::Enter => ControlsView { filter_mode: false, ..c },
        KeyPress::Other => c,
    }
}

/// What a key does otherwise.
pub open spec fn commanded(c: ControlsView, key: KeyPress) -> ControlsView {
    let mode = c.process_sort_mode;
    match key {
        KeyPress::Char(ch) => if ch == '/' {
            ControlsView { filter_text: Seq::empty(), filter_mode: true, ..c }
        } else if ch == 'c' || ch == 'C' {
            ControlsView {
                process_sort_mode: toggled(
                    mode,
                    ProcessSortMode::CpuDesc,
                    ProcessSortMode::CpuAsc,
                ),
                ..c
            }
        } else if ch == 'm' || ch == 'M' {
            ControlsView {
                process_sort_mode: toggled(
                    mode,
                    ProcessSortMode::MemoryDesc,
                    ProcessSortMode::MemoryAsc,
                ),
                ..c
            }
        } else if ch == 'p' || ch == 'P' {
            ControlsView {
                process_sort_mode: toggled(
                    mode,
                    ProcessSortMode::PidAsc,
                    ProcessSortMode::PidDesc,
                ),
                ..c
            }
        } else if ch == 'n' || ch == 'N' {
            ControlsView {
                process_sort_mode: toggled(
                    mode,
                    ProcessSortMode::NameAsc,
                    ProcessSortMode::NameDesc,
                ),
                ..c
            }
        } else {
            c
        },
        KeyPress::Esc => ControlsView { filter_text: Seq::empty(), ..c },
        _ => c,
    }
}

/// Whether a key ends the program.
pub open spec fn quits(c: ControlsView, key: KeyPress) -> bool {
    !c.filter_mode && (key == KeyPress::Char('q') || key == KeyPress::Char('Q') || key
        == KeyPress::Esc)
}

/// What a key does.
pub open spec fn after_key(c: ControlsView, key: KeyPress) -> ControlsView {
    if c.filter_mode {
        typed(c, key)
    } else {
        commanded(c, key)
    }
}

fn toggle(mode: ProcessSortMode, first: ProcessSortMode, second: ProcessSortMode) -> (r:
    ProcessSortMode)
    ensures
        r == toggled(mode, first, second),
{
    if mode == first {
        second
    } else {
        first
    }
}

impl Controls {
    /// The settings at the start: the busiest processes first, and no filter.
    pub fn new() -> (c: Controls)
        ensures
            c@ == (ControlsView {
                process_sort_mode: ProcessSortMode::CpuDesc,
                filter_text: Seq::empty(),
                filter_mode: false,
            }),
    {
        let filter_text = String::new();
        assert(filter_text@ =~= Seq::empty());
        Controls { process_sort_mode: ProcessSortMode::CpuDesc, filter_text, filter_mode: false }
    }

    fn clear_filter(&mut self)
        ensures
            final(self)@ == (ControlsView { filter_text: Seq::empty(), ..old(self)@ }),
    {
        self.filter_text = String::new();
        assert(self.filter_text@ =~= Seq::empty());
    }

    fn type_key(&mut self, key: KeyPress)
        ensures
            final(self)@ == typed(old(self)@, key),
    {
        match key {
            KeyPress::Char(ch) => {
                self.filter_text.push(ch);
            },
            KeyPress::Backspace => {
                let cs = chars_of(self.filter_text.as_str());
                if cs.len() > 0 {
                    let rest = copy_range(cs.as_slice(), 0, cs.len() - 1);
                    assert(rest@ =~= cs@.drop_last());
                    self.filter_text = string_of(rest.as_slice());
                }
            },
            KeyPress::Esc => {
                self.filter_mode = false;
                self.clear_filter();
            },
            KeyPress::Enter => {
                self.filter_mode = false;
            },
            KeyPress::Other => {},
        }
    }

    fn command_key(&mut self, key: KeyPress)
        ensures
            final(self)@ == commanded(old(self)@, key),
    {
        let mode = self.process_sort_mode;
        match key {
            KeyPress::Char(ch) => {
                if ch == '/' {
                    self.filter_mode = true;
                    self.clear_filter();
                } else if ch == 'c' || ch == 'C' {
                    self.process_sort_mode =
                    toggle(mode, ProcessSortMode::CpuDesc, ProcessSortMode::CpuAsc);
                } else if ch == 'm' || ch == 'M' {
                    self.process_sort_mode =
                    toggle(mode, ProcessSortMode::MemoryDesc, ProcessSortMode::MemoryAsc);
                } else if ch == 'p' || ch == 'P' {
                    self.process_sort_mode =
                    toggle(mode, ProcessSortMode::PidAsc, ProcessSortMode::PidDesc);
                } else if ch == 'n' || ch == 'N' {
                    self.process_sort_mode =
                    toggle(mode, ProcessSortMode::NameAsc, ProcessSortMode::NameDesc);
                }
            },
            KeyPress::Esc => {
                self.clear_filter();
            },
            _ => {},
        }
    }

    /// Does what a key does, and tells whether it ends the program.
    pub fn press(&mut self, key: KeyPress) -> (quit: bool)
        ensures
            final(self)@ == after_key(old(self)@, key),
            quit == quits(old(self)@, key),
    {
        if self.filter_mode {
            self.type_key(key);
            false
        } else {
            self.command_key(key);
            key == KeyPress::Char('q') || key == KeyPress::Char('Q') || key == KeyPress::Esc
        }
    }
}

/// While the filter is typed, a letter and a backspace leave it as it was.
pub proof fn backspace_takes_a_letter_back(c: ControlsView, ch: char)
    requires
        c.filter_mode,
    ensures
        after_key(after_key(c, KeyPress::Char(ch)), KeyPress::Backspace) == c,
{
    assert(c.filter_text.push(ch).drop_last() =~= c.filter_text);
}

/// While the filter is typed, no key ends the program or changes the order.
pub proof fn typing_changes_the_filter_only(c: ControlsView, key: KeyPress)
    requires
        c.filter_mode,
    ensures
        !quits(c, key),
        after_key(c, key).process_sort_mode == c.process_sort_mode,
{
}

/// Escape ends the program where no filter is typed. While one is typed it only
/// drops the filter, so that a second escape ends the program.
pub proof fn escape_leaves_the_filter_or_the_program(c: ControlsView)
    ensures
        quits(c, KeyPress::Esc) == !c.filter_mode,
        c.filter_mode ==> quits(after_key(c, KeyPress::Esc), KeyPress::Esc),
{
}

/// A filter is typed from its beginning, kept by enter and dropped by escape.
pub proof fn a_filter_is_kept_or_dropped(c: ControlsView, ch: char)
    requires
        !c.filter_mode,
    ensures
        ({
            let begun = after_key(c, KeyPress::Char('/'));
            let one = after_key(begun, KeyPress::Char(ch));
            &&& begun.filter_mode && begun.filter_text.len() == 0
            &&& after_key(one, KeyPress::Enter).filter_text == seq![ch]
            &&& !after_key(one, KeyPress::Enter).filter_mode
            &&& after_key(one, KeyPress::Esc) == (ControlsView {
                filter_text: Seq::empty(),
                ..c
            })
        }),
{
    assert(Seq::<char>::empty().push(ch) =~= seq![ch]);
}

/// A letter for an order sets one of its two directions, and pressed again it
/// sets the other; from then on it goes back and forth.
pub proof fn letters_go_back_and_forth(c: ControlsView, key: KeyPress)
    requires
        !c.filter_mode,
    ensures
        ({
            let one = after_key(c, key);
            let two = after_key(one, key);
            let three = after_key(two, key);
            one.process_sort_mode != c.process_sort_mode ==> {
                &&& two.process_sort_mode != one.process_sort_mode
                &&& three.process_sort_mode == one.process_sort_mode
            }
        }),
{
}

/// While no filter is typed, each of the four letters, in either case, sets its own
/// order: falling first for usages, rising first for numbers and names, and the
/// other direction where that one was set. It leaves the filter as it is.
pub proof fn each_letter_sets_its_order(c: ControlsView, ch: char)
    requires
        !c.filter_mode,
        seq!['c', 'C', 'm', 'M', 'p', 'P', 'n', 'N'].contains(ch),
    ensures
        ({
            let after = after_key(c, KeyPress::Char(ch));
            let (first, second) = if ch == 'c' || ch == 'C' {
                (ProcessSortMode::CpuDesc, ProcessSortMode::CpuAsc)
            } else if ch == 'm' || ch == 'M' {
                (ProcessSortMode::MemoryDesc, ProcessSortMode::MemoryAsc)
            } else if ch == 'p' || ch == 'P' {
                (ProcessSortMode::PidAsc, ProcessSortMode::PidDesc)
            } else {
                (ProcessSortMode::NameAsc, ProcessSortMode::NameDesc)
            };
            &&& after.process_sort_mode == if c.process_sort_mode == first {
                second
            } else {
                first
            }
            &&& after.filter_text == c.filter_text && !after.filter_mode
            &&& !quits(c, KeyPress::Char(ch))
        }),
{
    let all = seq!['c', 'C', 'm', 'M', 'p', 'P', 'n', 'N'];
    let i = choose|i: int| 0 <= i < all.len() && all[i] == ch;
    assert(all[i] == ch);
}

/// While no filter is typed, only the four letters change the order, only the slash
/// begins a filter, only escape and the slash drop the one there is, and only
/// escape and the letter q end the program.
pub proof fn other_keys_do_nothing(c: ControlsView, key: KeyPress)
    requires
        !c.filter_mode,
    ensures
        after_key(c, key).process_sort_mode != c.process_sort_mode ==> (key matches KeyPress::Char(
            ch,
        ) && seq!['c', 'C', 'm', 'M', 'p', 'P', 'n', 'N'].contains(ch)),
        after_key(c, key).filter_mode == (key == KeyPress::Char('/')),
        after_key(c, key).filter_text == if key == KeyPress::Char('/') || key == KeyPress::Esc {
            Seq::empty()
        } else {
            c.filter_text
        },
        quits(c, key) == (key == KeyPress::Char('q') || key == KeyPress::Char('Q') || key
            == KeyPress::Esc),
{
    let all = seq!['c', 'C', 'm', 'M', 'p', 'P', 'n', 'N'];
    assert(all[0] == 'c' && all[1] == 'C' && all[2] == 'm' && all[3] == 'M');
    assert(all[4] == 'p' && all[5] == 'P' && all[6] == 'n' && all[7] == 'N');
}

/// While a filter is typed, a character is added to it at the end, backspace takes
/// the last one, enter keeps it, escape drops it, and other keys do nothing.
pub proof fn typing_goes_character_by_character(c: ControlsView, ch: char)
    requires
        c.filter_mode,
    ensures
        after_key(c, KeyPress::Char(ch)) == (ControlsView {
            filter_text: c.filter_text + seq![ch],
            ..c
        }),
        c.filter_text.len() > 0 ==> after_key(c, KeyPress::Backspace) == (ControlsView {
            filter_text: c.filter_text.take(c.filter_text.len() - 1),
            ..c
        }),
        c.filter_text.len() == 0 ==> after_key(c, KeyPress::Backspace) == c,
        after_key(c, KeyPress::Enter) == (ControlsView { filter_mode: false, ..c }),
        after_key(c, KeyPress::Esc) == (ControlsView {
            filter_mode: false,
            filter_text: Seq::empty(),
            ..c
        }),
        after_key(c, KeyPress::Other) == c,
{
    assert(c.filter_text.push(ch) =~= c.filter_text + seq![ch]);
    if c.filter_text.len() > 0 {
        assert(c.filter_text.drop_last() =~= c.filter_text.take(c.filter_text.len() - 1));
    }
}

} // verus!
