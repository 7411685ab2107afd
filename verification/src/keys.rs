//! What the keys do in an editable block.
use vstd::prelude::*;

use crate::highlight;
use crate::highlight::escape;
use crate::text;
use crate::text::{equal, uppercase};

verus! {

/// A key that was pressed, with the keys that were held down.
#[derive(Debug, PartialEq)]
pub struct Key {
    pub name: String,
    pub shift: bool,
    pub ctrl: bool,
    pub meta: bool,
}

/// What is known of the block that a key was pressed in.
#[derive(Clone, Copy, Debug, PartialEq, Eq, Structural)]
pub struct Place {
    /// Whether the block is a list.
    pub list: bool,
    /// Whether the caret can go no further down in the block. A block with no
    /// text has no caret to sit at the edge of, and is always left.
    pub at_bottom: bool,
    /// Whether the caret can go no further up in the block.
    pub at_top: bool,
    /// Whether there is a block below.
    pub below: bool,
    /// Whether there is a block above.
    pub above: bool,
}

/// An inline format.
#[derive(Clone, Copy, Debug, PartialEq, Eq, Structural)]
pub enum Format {
    Bold,
    Italic,
    Code,
}

/// What a key asks for. Whatever it asks for is done in place of what the
/// browser would do.
#[derive(Clone, Copy, Debug, PartialEq, Eq, Structural)]
pub enum Action {
    /// Nothing: the browser does what it does.
    Leave,
    /// Splits the block at the caret.
    Split,
    /// Puts the caret into the block below, or above.
    Cross { down: bool },
    /// Moves the list item at the caret a level deeper, or shallower.
    Reindent { outdent: bool },
    /// Goes a step back in the document's history, or a step forth.
    Travel { back: bool },
    /// Formats the selection.
    Apply(Format),
}

/// Whether a key is called `name`, whatever the case of its letters. `name` is
/// in upper case.
pub open spec fn is_letter(key: Key, name: Seq<char>) -> bool {
    text::uppercased(key.name@) == name
}

/// Whether the key would carry the caret out of the block, given where.
pub open spec fn crosses(key: Key, place: Place, down: bool) -> bool {
    &&& key.name@ == (if down {
        "ArrowDown"@
    } else {
        "ArrowUp"@
    })
    &&& !key.shift
    &&& !key.ctrl
    &&& !key.meta
    &&& if down {
        place.at_bottom && place.below
    } else {
        place.at_top && place.above
    }
}

/// What a key asks for in a block.
pub open spec fn asked(key: Key, place: Place) -> Action {
    if key.name@ == "Enter"@ && !key.shift {
        // A list handles Enter by itself: the browser starts a new item, and
        // the input that follows writes the whole list back out.
        if place.list {
            Action::Leave
        } else {
            Action::Split
        }
    } else if crosses(key, place, true) {
        Action::Cross { down: true }
    } else if crosses(key, place, false) {
        Action::Cross { down: false }
    } else if key.name@ == "Tab"@ && place.list {
        Action::Reindent { outdent: key.shift }
    } else if key.ctrl || key.meta {
        if is_letter(key, "Z"@) {
            Action::Travel { back: !key.shift }
        } else if is_letter(key, "B"@) {
            Action::Apply(Format::Bold)
        } else if is_letter(key, "I"@) {
            Action::Apply(Format::Italic)
        } else if is_letter(key, "E"@) {
            Action::Apply(Format::Code)
        } else {
            Action::Leave
        }
    } else {
        Action::Leave
    }
}

/// What a key asks for in a block.
pub fn on_key_down(key: &Key, place: Place) -> (r: Action)
    ensures
        r == asked(*key, place),
{
    if equal(&key.name, "Enter") && !key.shift {
        if place.list {
            return Action::Leave;
        }
        return Action::Split;
    }
    // A block is its own editing host, so the arrow keys stop at its edges.
    // Carry them across to the next block, which is the only way out of a list
    // without reaching for the mouse.
    if !key.shift && !key.ctrl && !key.meta {
        if equal(&key.name, "ArrowDown") && place.at_bottom && place.below {
            return Action::Cross { down: true };
        }
        if equal(&key.name, "ArrowUp") && place.at_top && place.above {
            return Action::Cross { down: false };
        }
    }
    // Swallowed either way: tab has no business moving focus out of the
    // document while a list is being edited.
    if equal(&key.name, "Tab") && place.list {
        return Action::Reindent { outdent: key.shift };
    }
    if key.ctrl || key.meta {
        let letter = uppercase(&key.name);
        // The document's own history, not the browser's: an edit here may have
        // rewritten lines the browser never saw.
        if equal(&letter, "Z") {
            return Action::Travel { back: !key.shift };
        }
        if equal(&letter, "B") {
            return Action::Apply(Format::Bold);
        }
        if equal(&letter, "I") {
            return Action::Apply(Format::Italic);
        }
        if equal(&letter, "E") {
            return Action::Apply(Format::Code);
        }
    }
    Action::Leave
}

/// Which of `count` blocks comes before or after the one numbered `index`.
pub open spec fn beside(count: usize, index: usize, down: bool) -> Option<usize> {
    let next = if down {
        index + 1
    } else {
        index - 1
    };
    if 0 <= next < count {
        Some(next as usize)
    } else {
        None
    }
}

/// Which of `count` blocks, in reading order, comes before or after the one
/// numbered `index`.
pub fn neighbour(count: usize, index: usize, down: bool) -> (r: Option<usize>)
    requires
        index < count,
    ensures
        r == beside(count, index, down),
        down && index + 1 < count ==> r == Some((index + 1) as usize),
        down && index + 1 == count ==> r is None,
        !down && index > 0 ==> r == Some((index - 1) as usize),
        !down && index == 0 ==> r is None,
{
    if down {
        if index + 1 < count {
            Some(index + 1)
        } else {
            None
        }
    } else if index > 0 {
        Some(index - 1)
    } else {
        None
    }
}

/// Whether the document is rendered again when focus has left a block: not
/// while another block has it, nor while a panel points at something in the
/// document.
pub fn settles(still_editing: bool, held: bool) -> (r: bool)
    ensures
        r == (!still_editing && !held),
{
    !still_editing && !held
}

/// What the browser is to be told to do to the selection.
#[derive(Debug, PartialEq)]
pub enum Command {
    /// There is nothing to do.
    Nothing,
    /// Run the command of this name.
    Run(&'static str),
    /// Put this markup in place of the selection.
    Insert(String),
}

/// The markup of monospace text.
pub open spec fn code_markup(selected: Seq<char>) -> Seq<char> {
    "<code>"@ + highlight::escaped(selected) + "</code>"@
}

/// The command that formats the selection, given whether it sits inside
/// monospace already, and what it says.
///
/// The browser has no monospace command, so wrapping writes the markup.
/// Unwrapping leaves it to the browser to strip the formatting.
pub fn format(what: Format, in_code: bool, selected: &str) -> (r: Command)
    ensures
        match what {
            Format::Bold => r matches Command::Run(name) && name@ == "bold"@,
            Format::Italic => r matches Command::Run(name) && name@ == "italic"@,
            Format::Code => if in_code {
                r matches Command::Run(name) && name@ == "removeFormat"@
            } else if selected@.len() == 0 {
                r is Nothing
            } else {
                r matches Command::Insert(markup) && markup@ == code_markup(selected@)
            },
        },
{
    match what {
        Format::Bold => Command::Run("bold"),
        Format::Italic => Command::Run("italic"),
        Format::Code => {
            if in_code {
                return Command::Run("removeFormat");
            }
            if selected.is_empty() {
                return Command::Nothing;
            }
            let mut markup = "<code>".to_string();
            markup.append(&escape(selected));
            markup.append("</code>");
            Command::Insert(markup)
        },
    }
}

/// Names of keys, and those of letters, that differ.
proof fn lemma_key_names()
    ensures
        "Enter"@ != "ArrowDown"@,
        "Enter"@ != "ArrowUp"@,
        "Enter"@ != "Tab"@,
        "ArrowDown"@ != "ArrowUp"@,
        "ArrowDown"@ != "Tab"@,
        "ArrowUp"@ != "Tab"@,
        "Z"@ != "B"@ && "Z"@ != "I"@ && "Z"@ != "E"@ && "B"@ != "I"@ && "B"@ != "E"@ && "I"@ != "E"@,
        forall|s: Seq<char>| #[trigger]
            text::uppercased(s).len() == 1 ==> s != "Enter"@ && s != "ArrowDown"@ && s
                != "ArrowUp"@ && s != "Tab"@,
        "Z"@.len() == 1 && "B"@.len() == 1 && "I"@.len() == 1 && "E"@.len() == 1,
{
    reveal_strlit("Enter");
    reveal_strlit("ArrowDown");
    reveal_strlit("ArrowUp");
    reveal_strlit("Tab");
    reveal_strlit("Z");
    reveal_strlit("B");
    reveal_strlit("I");
    reveal_strlit("E");
    assert("Enter"@.len() == 5 && "ArrowDown"@.len() == 9 && "ArrowUp"@.len() == 7 && "Tab"@.len()
        == 3);
    assert("Z"@[0] == 'Z' && "B"@[0] == 'B' && "I"@[0] == 'I' && "E"@[0] == 'E');
    assert forall|s: Seq<char>| #[trigger] text::uppercased(s).len() == 1 implies s != "Enter"@ && s
        != "ArrowDown"@ && s != "ArrowUp"@ && s != "Tab"@ by {
        assert(text::uppercased(s).len() == s.len());
    }
}

/// Each key is asked for one thing, and each thing is asked for by the keys it
/// should be: Enter splits a block unless it is a list; an arrow leaves a block
/// at its edge when nothing is held down and there is somewhere to go; Tab
/// moves an item of a list; Control or Command with a letter goes through the
/// history or formats. Nothing else asks for anything.
pub proof fn law_each_key_asks_for_one_thing(key: Key, place: Place)
    ensures
        ({
            let bare = !key.shift && !key.ctrl && !key.meta;
            let held = key.ctrl || key.meta;
            let letter = text::uppercased(key.name@);
            let action = asked(key, place);
            &&& action is Split <==> key.name@ == "Enter"@ && !key.shift && !place.list
            &&& action == (Action::Cross { down: true }) <==> key.name@ == "ArrowDown"@ && bare
                && place.at_bottom && place.below
            &&& action == (Action::Cross { down: false }) <==> key.name@ == "ArrowUp"@ && bare
                && place.at_top && place.above
            &&& action == (Action::Reindent { outdent: false }) <==> key.name@ == "Tab"@
                && place.list && !key.shift
            &&& action == (Action::Reindent { outdent: true }) <==> key.name@ == "Tab"@
                && place.list && key.shift
            &&& action == (Action::Travel { back: true }) <==> held && letter == "Z"@ && !key.shift
            &&& action == (Action::Travel { back: false }) <==> held && letter == "Z"@ && key.shift
            &&& action == Action::Apply(Format::Bold) <==> held && letter == "B"@
            &&& action == Action::Apply(Format::Italic) <==> held && letter == "I"@
            &&& action == Action::Apply(Format::Code) <==> held && letter == "E"@
        }),
{
    lemma_key_names();
    let letter = text::uppercased(key.name@);
    if letter == "Z"@ || letter == "B"@ || letter == "I"@ || letter == "E"@ {
        assert(text::uppercased(key.name@).len() == 1);
    }
}

/// The markup of monospace text displays the text that was selected, whatever
/// it is, between an opening and a closing tag.
pub proof fn law_code_markup_displays_the_selection(selected: Seq<char>)
    ensures
        ({
            let made = code_markup(selected);
            let n = made.len() as int;
            &&& n >= 13
            &&& made.take(6) == "<code>"@
            &&& made.skip(n - 7) == "</code>"@
            &&& highlight::unescaped(made.subrange(6, n - 7)) == selected
        }),
{
    reveal_strlit("<code>");
    reveal_strlit("</code>");
    let made = code_markup(selected);
    let n = made.len() as int;
    assert(made.take(6) == "<code>"@);
    assert(made.skip(n - 7) == "</code>"@);
    assert(made.subrange(6, n - 7) == highlight::escaped(selected));
    highlight::law_escaped_read_back(selected);
}

/// Going to the block beside one and back again comes to the same block, and
/// every block but the last has one after it, every block but the first one
/// before it.
pub proof fn law_there_and_back_again(count: usize, index: usize, down: bool)
    requires
        index < count,
    ensures
        beside(count, index, down) matches Some(next) ==> next < count && beside(
            count,
            next,
            !down,
        ) == Some(index) && (down ==> next == index + 1) && (!down ==> next + 1 == index),
        beside(count, index, true) is None <==> index == count - 1,
        beside(count, index, false) is None <==> index == 0,
{
}

} // verus!
