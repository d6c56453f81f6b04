//! The keyboard, as a table rather than as a tower of branches.
//!
//! Everything the reader listens for is an **action** with a name, and a
//! chord is only ever a way of asking for one. An event is turned into a
//! chord and the chord is looked up, so two actions cannot both answer to one
//! chord: that is one key in one map, and a collision the reader is told
//! about.
//!
//! A chord is written `mod+shift+f`: modifiers in the order `mod`, `ctrl`,
//! `alt`, `shift`, then the key. `mod` is ⌘ on a Mac and Ctrl elsewhere.
//! Chords separated by a space are pressed one after the other.

use vstd::prelude::*;
use crate::text::{trim, trimmed, begins_with, chars_of, is_white, is_whitespace, join, join_with, push_char, push_str, same, same_chars, slice_of, split_at_char, split_on, starts_with, string_of, views, words, words_of};
use crate::unicode::{all_ascii, ascii_lower, ascii_upper, lower_case_str, lowercase, str_to_lowercase};

pub mod bound;
pub mod canonical;

verus! {

/// Everything the app can be asked to do. The name is what `keys.toml`
/// writes and what a problem message quotes.
#[derive(Clone, Copy, Debug, PartialEq, Eq, PartialOrd, Ord, Hash, Structural)]
pub enum Action {
    Open,
    NewWindow,
    NewTab,
    Print,
    Settings,
    Help,
    CloseWindow,
    GoToTab,
    Quit,
    Find,
    FindNext,
    FindPrevious,
    SelectPage,
    CopyQuote,
    Mark,
    Markup,
    Dismiss,
    NextPage,
    PreviousPage,
    ScrollDown,
    ScrollUp,
    HalfScreenDown,
    HalfScreenUp,
    ScreenDown,
    ScreenUp,
    FirstPage,
    LastPage,
    GoToPage,
    Back,
    Forward,
    ZoomIn,
    ZoomOut,
    FitWidth,
    ActualSize,
    FitPage,
    RotateRight,
    RotateLeft,
    Dark,
    Sidebar,
    Toolbar,
    Fullscreen,
    Present,
    NextTheme,
    Spread,
    Copy,
}

/// An action's name, as `keys.toml` writes it.
pub open spec fn name_of(a: Action) -> Seq<char> {
    match a {
        Action::Open => "open"@,
        Action::NewWindow => "new-window"@,
        Action::NewTab => "new-tab"@,
        Action::Print => "print"@,
        Action::Settings => "settings"@,
        Action::Help => "help"@,
        Action::CloseWindow => "close-window"@,
        Action::GoToTab => "go-to-tab"@,
        Action::Quit => "quit"@,
        Action::Find => "find"@,
        Action::FindNext => "find-next"@,
        Action::FindPrevious => "find-previous"@,
        Action::SelectPage => "select-page"@,
        Action::CopyQuote => "copy-quote"@,
        Action::Mark => "mark"@,
        Action::Markup => "markup"@,
        Action::Dismiss => "dismiss"@,
        Action::NextPage => "next-page"@,
        Action::PreviousPage => "previous-page"@,
        Action::ScrollDown => "scroll-down"@,
        Action::ScrollUp => "scroll-up"@,
        Action::HalfScreenDown => "half-screen-down"@,
        Action::HalfScreenUp => "half-screen-up"@,
        Action::ScreenDown => "screen-down"@,
        Action::ScreenUp => "screen-up"@,
        Action::FirstPage => "first-page"@,
        Action::LastPage => "last-page"@,
        Action::GoToPage => "go-to-page"@,
        Action::Back => "back"@,
        Action::Forward => "forward"@,
        Action::ZoomIn => "zoom-in"@,
        Action::ZoomOut => "zoom-out"@,
        Action::FitWidth => "fit-width"@,
        Action::ActualSize => "actual-size"@,
        Action::FitPage => "fit-page"@,
        Action::RotateRight => "rotate-right"@,
        Action::RotateLeft => "rotate-left"@,
        Action::Dark => "dark"@,
        Action::Sidebar => "sidebar"@,
        Action::Toolbar => "toolbar"@,
        Action::Fullscreen => "fullscreen"@,
        Action::Present => "present"@,
        Action::NextTheme => "next-theme"@,
        Action::Spread => "spread"@,
        Action::Copy => "copy"@,
    }
}

/// Every action, in the order they are declared and shown.
pub open spec fn all_actions() -> Seq<Action> {
    seq![Action::Open, Action::NewWindow, Action::NewTab, Action::Print, Action::Settings, Action::Help, Action::CloseWindow, Action::GoToTab, Action::Quit, Action::Find, Action::FindNext, Action::FindPrevious, Action::SelectPage, Action::CopyQuote, Action::Mark, Action::Markup, Action::Dismiss, Action::NextPage, Action::PreviousPage, Action::ScrollDown, Action::ScrollUp, Action::HalfScreenDown, Action::HalfScreenUp, Action::ScreenDown, Action::ScreenUp, Action::FirstPage, Action::LastPage, Action::GoToPage, Action::Back, Action::Forward, Action::ZoomIn, Action::ZoomOut, Action::FitWidth, Action::ActualSize, Action::FitPage, Action::RotateRight, Action::RotateLeft, Action::Dark, Action::Sidebar, Action::Toolbar, Action::Fullscreen, Action::Present, Action::NextTheme, Action::Spread, Action::Copy]
}

/// What the table says of an action: its label, its group, whether it
/// needs a document, and its keys everywhere, on a Mac, and elsewhere.
pub open spec fn row_of_action(a: Action) -> (Seq<char>, Group, bool, Seq<Seq<char>>, Seq<Seq<char>>, Seq<Seq<char>>) {
    match a {
        Action::Open => ("Open a document"@, Group::Documents, false, seq!["mod+o"@], Seq::empty(), Seq::empty()),
        Action::NewWindow => ("New window"@, Group::Documents, false, seq!["mod+n"@], Seq::empty(), Seq::empty()),
        Action::NewTab => ("New tab — macOS only"@, Group::Documents, false, Seq::empty(), Seq::empty(), Seq::empty()),
        Action::Print => ("Print"@, Group::Documents, false, seq!["mod+p"@], Seq::empty(), Seq::empty()),
        Action::Settings => ("Settings"@, Group::Documents, false, seq!["mod+,"@], Seq::empty(), Seq::empty()),
        Action::Help => ("This list"@, Group::Documents, false, seq!["f1"@, "mod+/"@], Seq::empty(), Seq::empty()),
        Action::CloseWindow => ("Close this window"@, Group::Documents, false, seq!["mod+w"@], Seq::empty(), Seq::empty()),
        Action::GoToTab => ("Go to a tab by number"@, Group::Documents, false, Seq::empty(), seq!["mod+1"@, "mod+2"@, "mod+3"@, "mod+4"@, "mod+5"@, "mod+6"@, "mod+7"@, "mod+8"@, "mod+9"@], Seq::empty()),
        Action::Quit => ("Close Moonowl"@, Group::Documents, false, Seq::empty(), Seq::empty(), seq!["mod+q"@]),
        Action::Find => ("Search this document"@, Group::Documents, false, seq!["mod+f"@], Seq::empty(), Seq::empty()),
        Action::FindNext => ("Next match"@, Group::Documents, false, seq!["mod+g"@], Seq::empty(), Seq::empty()),
        Action::FindPrevious => ("Previous match"@, Group::Documents, false, seq!["mod+shift+g"@], Seq::empty(), Seq::empty()),
        Action::SelectPage => ("Select the text of this page"@, Group::Documents, true, seq!["mod+a"@], Seq::empty(), Seq::empty()),
        Action::CopyQuote => ("Copy selection, with its page number"@, Group::Documents, false, seq!["mod+shift+c"@], Seq::empty(), Seq::empty()),
        Action::Mark => ("Mark this page, or take the mark off"@, Group::Documents, false, seq!["mod+shift+b"@], Seq::empty(), Seq::empty()),
        Action::Markup => ("Mark the selection — opens the colour popover"@, Group::Documents, true, seq!["mod+shift+h"@], Seq::empty(), Seq::empty()),
        Action::Dismiss => ("Close the search bar, leave full screen, stop presenting"@, Group::Documents, false, seq!["escape"@], Seq::empty(), Seq::empty()),
        Action::NextPage => ("Next page"@, Group::MovingAround, true, seq!["right"@, "l"@], Seq::empty(), Seq::empty()),
        Action::PreviousPage => ("Previous page"@, Group::MovingAround, true, seq!["left"@, "h"@], Seq::empty(), Seq::empty()),
        Action::ScrollDown => ("A little down"@, Group::MovingAround, true, seq!["down"@, "j"@], Seq::empty(), Seq::empty()),
        Action::ScrollUp => ("A little up"@, Group::MovingAround, true, seq!["up"@, "k"@], Seq::empty(), Seq::empty()),
        Action::HalfScreenDown => ("Half a screen down"@, Group::MovingAround, true, seq!["d"@], Seq::empty(), Seq::empty()),
        Action::HalfScreenUp => ("Half a screen up"@, Group::MovingAround, true, seq!["u"@], Seq::empty(), Seq::empty()),
        Action::ScreenDown => ("Down a screen"@, Group::MovingAround, true, seq!["space"@, "pagedown"@], Seq::empty(), Seq::empty()),
        Action::ScreenUp => ("Up a screen"@, Group::MovingAround, true, seq!["shift+space"@, "pageup"@], Seq::empty(), Seq::empty()),
        Action::FirstPage => ("First page"@, Group::MovingAround, true, seq!["home"@, "g g"@], Seq::empty(), Seq::empty()),
        Action::LastPage => ("Last page"@, Group::MovingAround, true, seq!["end"@, "shift+g"@], Seq::empty(), Seq::empty()),
        Action::GoToPage => ("Go to page: type the number, press Enter"@, Group::MovingAround, true, seq!["mod+alt+g"@, "p"@], Seq::empty(), Seq::empty()),
        Action::Back => ("Back to where you jumped from"@, Group::MovingAround, false, seq!["mod+["@, "alt+left"@], Seq::empty(), Seq::empty()),
        Action::Forward => ("Forward again"@, Group::MovingAround, false, seq!["mod+]"@, "alt+right"@], Seq::empty(), Seq::empty()),
        Action::ZoomIn => ("Zoom in"@, Group::LookingAtIt, false, seq!["mod++"@, "mod+="@], Seq::empty(), Seq::empty()),
        Action::ZoomOut => ("Zoom out"@, Group::LookingAtIt, false, seq!["mod+-"@], Seq::empty(), Seq::empty()),
        Action::FitWidth => ("Fit the width of the window"@, Group::LookingAtIt, false, seq!["mod+0"@], Seq::empty(), Seq::empty()),
        Action::ActualSize => ("Actual size"@, Group::LookingAtIt, false, Seq::empty(), seq!["mod+alt+1"@], seq!["mod+1"@]),
        Action::FitPage => ("Fit the whole page"@, Group::LookingAtIt, false, Seq::empty(), seq!["mod+alt+2"@], seq!["mod+2"@]),
        Action::RotateRight => ("Turn the page right"@, Group::LookingAtIt, false, seq!["mod+r"@], Seq::empty(), Seq::empty()),
        Action::RotateLeft => ("Turn the page left"@, Group::LookingAtIt, false, seq!["mod+l"@], Seq::empty(), Seq::empty()),
        Action::Dark => ("Dark mode"@, Group::LookingAtIt, false, seq!["mod+d"@], Seq::empty(), Seq::empty()),
        Action::Sidebar => ("Contents sidebar"@, Group::LookingAtIt, false, seq!["mod+b"@], Seq::empty(), Seq::empty()),
        Action::Toolbar => ("Toolbar"@, Group::LookingAtIt, false, seq!["mod+t"@], Seq::empty(), Seq::empty()),
        Action::Fullscreen => ("Full screen"@, Group::LookingAtIt, false, seq!["f11"@, "mod+shift+f"@], seq!["mod+ctrl+f"@], Seq::empty()),
        Action::Present => ("Presenting — full screen, nothing else on it"@, Group::LookingAtIt, false, seq!["mod+shift+p"@], Seq::empty(), Seq::empty()),
        Action::NextTheme => ("The next theme in the list"@, Group::LookingAtIt, true, seq!["t"@], Seq::empty(), Seq::empty()),
        Action::Spread => ("One page or two side by side"@, Group::LookingAtIt, true, seq!["s"@], Seq::empty(), Seq::empty()),
        Action::Copy => ("Copy the selection"@, Group::Documents, true, seq!["mod+c"@], Seq::empty(), Seq::empty()),
    }
}

#[derive(Clone, Copy, Debug, PartialEq, Eq, Structural)]
pub enum Group {
    Documents,
    MovingAround,
    LookingAtIt,
}

impl Group {
    pub fn as_str(self) -> (r: &'static str)
        ensures
            r@ == (match self {
                Group::Documents => "Documents"@,
                Group::MovingAround => "Moving around"@,
                Group::LookingAtIt => "Looking at it"@,
            }),
    {
        match self {
            Group::Documents => "Documents",
            Group::MovingAround => "Moving around",
            Group::LookingAtIt => "Looking at it",
        }
    }
}

/// The first action in `list` whose name is `name`.
pub open spec fn first_named(list: Seq<Action>, name: Seq<char>) -> Option<Action>
    decreases list.len(),
{
    if list.len() == 0 {
        None
    } else if name_of(list[0]) == name {
        Some(list[0])
    } else {
        first_named(list.drop_first(), name)
    }
}

impl Action {
    pub fn as_str(self) -> (r: &'static str)
        ensures
            r@ == name_of(self),
    {
        match self {
            Action::Open => "open",
            Action::NewWindow => "new-window",
            Action::NewTab => "new-tab",
            Action::Print => "print",
            Action::Settings => "settings",
            Action::Help => "help",
            Action::CloseWindow => "close-window",
            Action::GoToTab => "go-to-tab",
            Action::Quit => "quit",
            Action::Find => "find",
            Action::FindNext => "find-next",
            Action::FindPrevious => "find-previous",
            Action::SelectPage => "select-page",
            Action::CopyQuote => "copy-quote",
            Action::Mark => "mark",
            Action::Markup => "markup",
            Action::Dismiss => "dismiss",
            Action::NextPage => "next-page",
            Action::PreviousPage => "previous-page",
            Action::ScrollDown => "scroll-down",
            Action::ScrollUp => "scroll-up",
            Action::HalfScreenDown => "half-screen-down",
            Action::HalfScreenUp => "half-screen-up",
            Action::ScreenDown => "screen-down",
            Action::ScreenUp => "screen-up",
            Action::FirstPage => "first-page",
            Action::LastPage => "last-page",
            Action::GoToPage => "go-to-page",
            Action::Back => "back",
            Action::Forward => "forward",
            Action::ZoomIn => "zoom-in",
            Action::ZoomOut => "zoom-out",
            Action::FitWidth => "fit-width",
            Action::ActualSize => "actual-size",
            Action::FitPage => "fit-page",
            Action::RotateRight => "rotate-right",
            Action::RotateLeft => "rotate-left",
            Action::Dark => "dark",
            Action::Sidebar => "sidebar",
            Action::Toolbar => "toolbar",
            Action::Fullscreen => "fullscreen",
            Action::Present => "present",
            Action::NextTheme => "next-theme",
            Action::Spread => "spread",
            Action::Copy => "copy",
        }
    }

    /// Every action, in the order they are declared.
    pub fn all() -> (r: Vec<Action>)
        ensures
            r@ == all_actions(),
    {
        let r = vec![Action::Open, Action::NewWindow, Action::NewTab, Action::Print, Action::Settings, Action::Help, Action::CloseWindow, Action::GoToTab, Action::Quit, Action::Find, Action::FindNext, Action::FindPrevious, Action::SelectPage, Action::CopyQuote, Action::Mark, Action::Markup, Action::Dismiss, Action::NextPage, Action::PreviousPage, Action::ScrollDown, Action::ScrollUp, Action::HalfScreenDown, Action::HalfScreenUp, Action::ScreenDown, Action::ScreenUp, Action::FirstPage, Action::LastPage, Action::GoToPage, Action::Back, Action::Forward, Action::ZoomIn, Action::ZoomOut, Action::FitWidth, Action::ActualSize, Action::FitPage, Action::RotateRight, Action::RotateLeft, Action::Dark, Action::Sidebar, Action::Toolbar, Action::Fullscreen, Action::Present, Action::NextTheme, Action::Spread, Action::Copy];
        proof { assert(r@ =~= all_actions()); }
        r
    }
}

impl Action {
    /// The action a name in `keys.toml` asks for, if any.
    pub fn from_name(name: &str) -> (r: Option<Action>)
        ensures
            r == first_named(all_actions(), name@),
    {
        let all = Action::all();
        let mut i: usize = 0;
        proof {
            assert(all_actions().skip(0) =~= all_actions());
        }
        while i < all.len()
            invariant
                all@ == all_actions(),
                i <= all@.len(),
                first_named(all_actions(), name@) == first_named(all_actions().skip(i as int), name@),
            decreases all@.len() - i,
        {
            proof {
                assert(all_actions().skip(i as int).drop_first() =~= all_actions().skip(i + 1));
            }
            if same(name, all[i].as_str()) {
                return Some(all[i]);
            }
            i = i + 1;
        }
        None
    }
}

/// One row of the keyboard table.
pub struct Spec {
    pub id: Action,
    /// What it does, in the words the Keyboard page uses.
    pub label: &'static str,
    pub group: Group,
    /// Needs a document open. Everything else answers on the start screen too.
    pub needs_document: bool,
    /// The keys it ships with, on every platform.
    pub keys: Vec<&'static str>,
    /// …and these as well, on a Mac.
    pub mac_keys: Vec<&'static str>,
    /// …or these, on Windows and Linux.
    pub other_keys: Vec<&'static str>,
}

/// The views of a list of names.
pub open spec fn names(v: Seq<&'static str>) -> Seq<Seq<char>> {
    v.map_values(|k: &'static str| k@)
}

impl Spec {
    pub open spec fn view(&self) -> (Seq<char>, Group, bool, Seq<Seq<char>>, Seq<Seq<char>>, Seq<Seq<char>>) {
        (self.label@, self.group, self.needs_document, names(self.keys@), names(self.mac_keys@), names(self.other_keys@))
    }
}

/// The table's row for one action.
#[verifier::spinoff_prover]
#[verifier::rlimit(80)]
pub fn spec_for(a: Action) -> (r: Spec)
    ensures
        r.id == a,
        r.view() == row_of_action(a),
{
    let r = match a {
        Action::Open => Spec { id: a, label: "Open a document", group: Group::Documents, needs_document: false, keys: vec!["mod+o"], mac_keys: Vec::new(), other_keys: Vec::new() },
        Action::NewWindow => Spec { id: a, label: "New window", group: Group::Documents, needs_document: false, keys: vec!["mod+n"], mac_keys: Vec::new(), other_keys: Vec::new() },
        Action::NewTab => Spec { id: a, label: "New tab — macOS only", group: Group::Documents, needs_document: false, keys: Vec::new(), mac_keys: Vec::new(), other_keys: Vec::new() },
        Action::Print => Spec { id: a, label: "Print", group: Group::Documents, needs_document: false, keys: vec!["mod+p"], mac_keys: Vec::new(), other_keys: Vec::new() },
        Action::Settings => Spec { id: a, label: "Settings", group: Group::Documents, needs_document: false, keys: vec!["mod+,"], mac_keys: Vec::new(), other_keys: Vec::new() },
        Action::Help => Spec { id: a, label: "This list", group: Group::Documents, needs_document: false, keys: vec!["f1", "mod+/"], mac_keys: Vec::new(), other_keys: Vec::new() },
        Action::CloseWindow => Spec { id: a, label: "Close this window", group: Group::Documents, needs_document: false, keys: vec!["mod+w"], mac_keys: Vec::new(), other_keys: Vec::new() },
        Action::GoToTab => Spec { id: a, label: "Go to a tab by number", group: Group::Documents, needs_document: false, keys: Vec::new(), mac_keys: vec!["mod+1", "mod+2", "mod+3", "mod+4", "mod+5", "mod+6", "mod+7", "mod+8", "mod+9"], other_keys: Vec::new() },
        Action::Quit => Spec { id: a, label: "Close Moonowl", group: Group::Documents, needs_document: false, keys: Vec::new(), mac_keys: Vec::new(), other_keys: vec!["mod+q"] },
        Action::Find => Spec { id: a, label: "Search this document", group: Group::Documents, needs_document: false, keys: vec!["mod+f"], mac_keys: Vec::new(), other_keys: Vec::new() },
        Action::FindNext => Spec { id: a, label: "Next match", group: Group::Documents, needs_document: false, keys: vec!["mod+g"], mac_keys: Vec::new(), other_keys: Vec::new() },
        Action::FindPrevious => Spec { id: a, label: "Previous match", group: Group::Documents, needs_document: false, keys: vec!["mod+shift+g"], mac_keys: Vec::new(), other_keys: Vec::new() },
        Action::SelectPage => Spec { id: a, label: "Select the text of this page", group: Group::Documents, needs_document: true, keys: vec!["mod+a"], mac_keys: Vec::new(), other_keys: Vec::new() },
        Action::CopyQuote => Spec { id: a, label: "Copy selection, with its page number", group: Group::Documents, needs_document: false, keys: vec!["mod+shift+c"], mac_keys: Vec::new(), other_keys: Vec::new() },
        Action::Mark => Spec { id: a, label: "Mark this page, or take the mark off", group: Group::Documents, needs_document: false, keys: vec!["mod+shift+b"], mac_keys: Vec::new(), other_keys: Vec::new() },
        Action::Markup => Spec { id: a, label: "Mark the selection — opens the colour popover", group: Group::Documents, needs_document: true, keys: vec!["mod+shift+h"], mac_keys: Vec::new(), other_keys: Vec::new() },
        Action::Dismiss => Spec { id: a, label: "Close the search bar, leave full screen, stop presenting", group: Group::Documents, needs_document: false, keys: vec!["escape"], mac_keys: Vec::new(), other_keys: Vec::new() },
        Action::NextPage => Spec { id: a, label: "Next page", group: Group::MovingAround, needs_document: true, keys: vec!["right", "l"], mac_keys: Vec::new(), other_keys: Vec::new() },
        Action::PreviousPage => Spec { id: a, label: "Previous page", group: Group::MovingAround, needs_document: true, keys: vec!["left", "h"], mac_keys: Vec::new(), other_keys: Vec::new() },
        Action::ScrollDown => Spec { id: a, label: "A little down", group: Group::MovingAround, needs_document: true, keys: vec!["down", "j"], mac_keys: Vec::new(), other_keys: Vec::new() },
        Action::ScrollUp => Spec { id: a, label: "A little up", group: Group::MovingAround, needs_document: true, keys: vec!["up", "k"], mac_keys: Vec::new(), other_keys: Vec::new() },
        Action::HalfScreenDown => Spec { id: a, label: "Half a screen down", group: Group::MovingAround, needs_document: true, keys: vec!["d"], mac_keys: Vec::new(), other_keys: Vec::new() },
        Action::HalfScreenUp => Spec { id: a, label: "Half a screen up", group: Group::MovingAround, needs_document: true, keys: vec!["u"], mac_keys: Vec::new(), other_keys: Vec::new() },
        Action::ScreenDown => Spec { id: a, label: "Down a screen", group: Group::MovingAround, needs_document: true, keys: vec!["space", "pagedown"], mac_keys: Vec::new(), other_keys: Vec::new() },
        Action::ScreenUp => Spec { id: a, label: "Up a screen", group: Group::MovingAround, needs_document: true, keys: vec!["shift+space", "pageup"], mac_keys: Vec::new(), other_keys: Vec::new() },
        Action::FirstPage => Spec { id: a, label: "First page", group: Group::MovingAround, needs_document: true, keys: vec!["home", "g g"], mac_keys: Vec::new(), other_keys: Vec::new() },
        Action::LastPage => Spec { id: a, label: "Last page", group: Group::MovingAround, needs_document: true, keys: vec!["end", "shift+g"], mac_keys: Vec::new(), other_keys: Vec::new() },
        Action::GoToPage => Spec { id: a, label: "Go to page: type the number, press Enter", group: Group::MovingAround, needs_document: true, keys: vec!["mod+alt+g", "p"], mac_keys: Vec::new(), other_keys: Vec::new() },
        Action::Back => Spec { id: a, label: "Back to where you jumped from", group: Group::MovingAround, needs_document: false, keys: vec!["mod+[", "alt+left"], mac_keys: Vec::new(), other_keys: Vec::new() },
        Action::Forward => Spec { id: a, label: "Forward again", group: Group::MovingAround, needs_document: false, keys: vec!["mod+]", "alt+right"], mac_keys: Vec::new(), other_keys: Vec::new() },
        Action::ZoomIn => Spec { id: a, label: "Zoom in", group: Group::LookingAtIt, needs_document: false, keys: vec!["mod++", "mod+="], mac_keys: Vec::new(), other_keys: Vec::new() },
        Action::ZoomOut => Spec { id: a, label: "Zoom out", group: Group::LookingAtIt, needs_document: false, keys: vec!["mod+-"], mac_keys: Vec::new(), other_keys: Vec::new() },
        Action::FitWidth => Spec { id: a, label: "Fit the width of the window", group: Group::LookingAtIt, needs_document: false, keys: vec!["mod+0"], mac_keys: Vec::new(), other_keys: Vec::new() },
        Action::ActualSize => Spec { id: a, label: "Actual size", group: Group::LookingAtIt, needs_document: false, keys: Vec::new(), mac_keys: vec!["mod+alt+1"], other_keys: vec!["mod+1"] },
        Action::FitPage => Spec { id: a, label: "Fit the whole page", group: Group::LookingAtIt, needs_document: false, keys: Vec::new(), mac_keys: vec!["mod+alt+2"], other_keys: vec!["mod+2"] },
        Action::RotateRight => Spec { id: a, label: "Turn the page right", group: Group::LookingAtIt, needs_document: false, keys: vec!["mod+r"], mac_keys: Vec::new(), other_keys: Vec::new() },
        Action::RotateLeft => Spec { id: a, label: "Turn the page left", group: Group::LookingAtIt, needs_document: false, keys: vec!["mod+l"], mac_keys: Vec::new(), other_keys: Vec::new() },
        Action::Dark => Spec { id: a, label: "Dark mode", group: Group::LookingAtIt, needs_document: false, keys: vec!["mod+d"], mac_keys: Vec::new(), other_keys: Vec::new() },
        Action::Sidebar => Spec { id: a, label: "Contents sidebar", group: Group::LookingAtIt, needs_document: false, keys: vec!["mod+b"], mac_keys: Vec::new(), other_keys: Vec::new() },
        Action::Toolbar => Spec { id: a, label: "Toolbar", group: Group::LookingAtIt, needs_document: false, keys: vec!["mod+t"], mac_keys: Vec::new(), other_keys: Vec::new() },
        Action::Fullscreen => Spec { id: a, label: "Full screen", group: Group::LookingAtIt, needs_document: false, keys: vec!["f11", "mod+shift+f"], mac_keys: vec!["mod+ctrl+f"], other_keys: Vec::new() },
        Action::Present => Spec { id: a, label: "Presenting — full screen, nothing else on it", group: Group::LookingAtIt, needs_document: false, keys: vec!["mod+shift+p"], mac_keys: Vec::new(), other_keys: Vec::new() },
        Action::NextTheme => Spec { id: a, label: "The next theme in the list", group: Group::LookingAtIt, needs_document: true, keys: vec!["t"], mac_keys: Vec::new(), other_keys: Vec::new() },
        Action::Spread => Spec { id: a, label: "One page or two side by side", group: Group::LookingAtIt, needs_document: true, keys: vec!["s"], mac_keys: Vec::new(), other_keys: Vec::new() },
        Action::Copy => Spec { id: a, label: "Copy the selection", group: Group::Documents, needs_document: true, keys: vec!["mod+c"], mac_keys: Vec::new(), other_keys: Vec::new() },
    };
    proof {
        assert(names(r.keys@) =~= row_of_action(a).3);
        assert(names(r.mac_keys@) =~= row_of_action(a).4);
        assert(names(r.other_keys@) =~= row_of_action(a).5);
    }
    r
}

/// Every action, in the order they are shown.
pub fn every() -> (r: Vec<Spec>)
    ensures
        r@.map_values(|s: Spec| s.id) == all_actions(),
        forall|i: int| 0 <= i < r@.len() ==> #[trigger] r@[i].view() == row_of_action(r@[i].id),
{
    let all = Action::all();
    let mut r: Vec<Spec> = Vec::new();
    let mut i: usize = 0;
    while i < all.len()
        invariant
            all@ == all_actions(),
            i <= all@.len(),
            r@.map_values(|s: Spec| s.id) == all@.take(i as int),
            forall|k: int| 0 <= k < r@.len() ==> #[trigger] r@[k].view() == row_of_action(r@[k].id),
        decreases all@.len() - i,
    {
        let ghost before = r@;
        let row = spec_for(all[i]);
        r.push(row);
        proof {
            assert(r@ == before.push(row));
            assert(r@.map_values(|s: Spec| s.id) =~= before.map_values(|s: Spec| s.id).push(row.id));
            assert(all@.take(i + 1) =~= all@.take(i as int).push(all@[i as int]));
        }
        i = i + 1;
    }
    proof {
        assert(all@.take(all@.len() as int) =~= all@);
    }
    r
}

/* ---------------------------------------------------------------- chords */

/// Named keys, as an event spells them and as a chord spells them.
pub open spec fn names_table() -> Seq<(Seq<char>, Seq<char>)> {
    seq![("Escape"@, "escape"@), (" "@, "space"@), ("Enter"@, "enter"@), ("Tab"@, "tab"@), ("Backspace"@, "backspace"@), ("Delete"@, "delete"@), ("ArrowLeft"@, "left"@), ("ArrowRight"@, "right"@), ("ArrowUp"@, "up"@), ("ArrowDown"@, "down"@), ("PageUp"@, "pageup"@), ("PageDown"@, "pagedown"@), ("Home"@, "home"@), ("End"@, "end"@)]
}

fn named_keys() -> (r: Vec<(&'static str, &'static str)>)
    ensures
        pairs(r@) == names_table(),
{
    let r = vec![("Escape", "escape"), (" ", "space"), ("Enter", "enter"), ("Tab", "tab"), ("Backspace", "backspace"), ("Delete", "delete"), ("ArrowLeft", "left"), ("ArrowRight", "right"), ("ArrowUp", "up"), ("ArrowDown", "down"), ("PageUp", "pageup"), ("PageDown", "pagedown"), ("Home", "home"), ("End", "end")];
    proof { assert(pairs(r@) =~= names_table()); }
    r
}

/// Spellings a person might reach for, and the one this module uses.
pub open spec fn aliases_table() -> Seq<(Seq<char>, Seq<char>)> {
    seq![("esc"@, "escape"@), ("return"@, "enter"@), ("spacebar"@, "space"@), ("arrowleft"@, "left"@), ("arrowright"@, "right"@), ("arrowup"@, "up"@), ("arrowdown"@, "down"@), ("page-up"@, "pageup"@), ("page-down"@, "pagedown"@), ("pgup"@, "pageup"@), ("pgdn"@, "pagedown"@), ("del"@, "delete"@), ("plus"@, "+"@), ("minus"@, "-"@), ("equals"@, "="@), ("equal"@, "="@), ("slash"@, "/"@), ("comma"@, ","@), ("period"@, "."@), ("dot"@, "."@), ("semicolon"@, ";"@), ("backslash"@, "\\"@), ("backquote"@, "`"@), ("grave"@, "`"@)]
}

fn aliases() -> (r: Vec<(&'static str, &'static str)>)
    ensures
        pairs(r@) == aliases_table(),
{
    let r = vec![("esc", "escape"), ("return", "enter"), ("spacebar", "space"), ("arrowleft", "left"), ("arrowright", "right"), ("arrowup", "up"), ("arrowdown", "down"), ("page-up", "pageup"), ("page-down", "pagedown"), ("pgup", "pageup"), ("pgdn", "pagedown"), ("del", "delete"), ("plus", "+"), ("minus", "-"), ("equals", "="), ("equal", "="), ("slash", "/"), ("comma", ","), ("period", "."), ("dot", "."), ("semicolon", ";"), ("backslash", "\\"), ("backquote", "`"), ("grave", "`")];
    proof { assert(pairs(r@) =~= aliases_table()); }
    r
}

/// A key's physical name, for the keys a modifier can change the character of.
pub open spec fn codes_table() -> Seq<(Seq<char>, Seq<char>)> {
    seq![("Minus"@, "-"@), ("Equal"@, "="@), ("BracketLeft"@, "["@), ("BracketRight"@, "]"@), ("Backslash"@, "\\"@), ("Semicolon"@, ";"@), ("Quote"@, "'"@), ("Backquote"@, "`"@), ("Comma"@, ","@), ("Period"@, "."@), ("Slash"@, "/"@), ("Space"@, "space"@)]
}

fn codes() -> (r: Vec<(&'static str, &'static str)>)
    ensures
        pairs(r@) == codes_table(),
{
    let r = vec![("Minus", "-"), ("Equal", "="), ("BracketLeft", "["), ("BracketRight", "]"), ("Backslash", "\\"), ("Semicolon", ";"), ("Quote", "'"), ("Backquote", "`"), ("Comma", ","), ("Period", "."), ("Slash", "/"), ("Space", "space")];
    proof { assert(pairs(r@) =~= codes_table()); }
    r
}

/// Keys as a person reads them.
pub open spec fn shown_table() -> Seq<(Seq<char>, Seq<char>)> {
    seq![("left"@, "←"@), ("right"@, "→"@), ("up"@, "↑"@), ("down"@, "↓"@), ("pageup"@, "Page Up"@), ("pagedown"@, "Page Down"@), ("escape"@, "Escape"@), ("space"@, "Space"@), ("enter"@, "Enter"@), ("tab"@, "Tab"@), ("home"@, "Home"@), ("end"@, "End"@), ("backspace"@, "Backspace"@), ("delete"@, "Delete"@), ("-"@, "−"@)]
}

fn shown_names() -> (r: Vec<(&'static str, &'static str)>)
    ensures
        pairs(r@) == shown_table(),
{
    let r = vec![("left", "←"), ("right", "→"), ("up", "↑"), ("down", "↓"), ("pageup", "Page Up"), ("pagedown", "Page Down"), ("escape", "Escape"), ("space", "Space"), ("enter", "Enter"), ("tab", "Tab"), ("home", "Home"), ("end", "End"), ("backspace", "Backspace"), ("delete", "Delete"), ("-", "−")];
    proof { assert(pairs(r@) =~= shown_table()); }
    r
}

/// The modifiers a chord may be written with, longest first where one begins
/// another.
pub open spec fn modifier_table() -> Seq<Seq<char>> {
    seq!["command+"@, "control+"@, "option+"@, "super+"@, "shift+"@, "meta+"@, "cmd+"@, "ctrl+"@, "opt+"@, "alt+"@, "mod+"@, "win+"@]
}

fn modifiers() -> (r: Vec<&'static str>)
    ensures
        r@.map_values(|m: &'static str| m@) == modifier_table(),
        forall|i: int| 0 <= i < r@.len() ==> #[trigger] r@[i]@.len() > 0,
{
    let r = vec!["command+", "control+", "option+", "super+", "shift+", "meta+", "cmd+", "ctrl+", "opt+", "alt+", "mod+", "win+"];
    proof {
        reveal_strlit("command+");
        reveal_strlit("control+");
        reveal_strlit("option+");
        reveal_strlit("super+");
        reveal_strlit("shift+");
        reveal_strlit("meta+");
        reveal_strlit("cmd+");
        reveal_strlit("ctrl+");
        reveal_strlit("opt+");
        reveal_strlit("alt+");
        reveal_strlit("mod+");
        reveal_strlit("win+");
        assert(r@.map_values(|m: &'static str| m@) =~= modifier_table());
    }
    r
}

/// What an action answers to out of the box, on this kind of machine.
pub fn default_keys(spec: &Spec, mac: bool) -> (r: Vec<&'static str>)
    ensures
        names(r@) == spec.view().3 + (if mac { spec.view().4 } else { spec.view().5 }),
{
    let extra = if mac { &spec.mac_keys } else { &spec.other_keys };
    let mut out: Vec<&'static str> = Vec::new();
    let mut i: usize = 0;
    while i < spec.keys.len()
        invariant
            i <= spec.keys@.len(),
            out@ == spec.keys@.take(i as int),
        decreases spec.keys@.len() - i,
    {
        out.push(spec.keys[i]);
        proof { assert(spec.keys@.take(i + 1) =~= spec.keys@.take(i as int).push(spec.keys@[i as int])); }
        i = i + 1;
    }
    let mut j: usize = 0;
    while j < extra.len()
        invariant
            j <= extra@.len(),
            out@ == spec.keys@ + extra@.take(j as int),
        decreases extra@.len() - j,
    {
        out.push(extra[j]);
        proof { assert(spec.keys@ + extra@.take(j + 1) =~= (spec.keys@ + extra@.take(j as int)).push(extra@[j as int])); }
        j = j + 1;
    }
    proof {
        assert(spec.keys@.take(spec.keys@.len() as int) =~= spec.keys@);
        assert(extra@.take(extra@.len() as int) =~= extra@);
        assert(names(out@) =~= names(spec.keys@) + names(extra@));
    }
    out
}

/// What an action is called on the Keyboard page.
pub fn label(action: Action) -> (r: &'static str)
    ensures
        r@ == row_of_action(action).0,
{
    spec_for(action).label
}

/// Whether this action needs a document open.
pub fn needs_document(action: Action) -> (r: bool)
    ensures
        r == row_of_action(action).2,
{
    spec_for(action).needs_document
}

/// The pairs of a table, as characters.
pub open spec fn pairs(t: Seq<(&'static str, &'static str)>) -> Seq<(Seq<char>, Seq<char>)> {
    t.map_values(|p: (&'static str, &'static str)| (p.0@, p.1@))
}

/// What the first row of `table` with `name` on the left says on the right.
pub open spec fn lookup(table: Seq<(Seq<char>, Seq<char>)>, name: Seq<char>) -> Option<Seq<char>>
    decreases table.len(),
{
    if table.len() == 0 {
        None
    } else if table[0].0 == name {
        Some(table[0].1)
    } else {
        lookup(table.drop_first(), name)
    }
}

fn look_up(table: &Vec<(&'static str, &'static str)>, name: &[char]) -> (r: Option<&'static str>)
    ensures
        (match r { Some(x) => Some(x@), None => None }) == lookup(pairs(table@), name@),
{
    let ghost t = pairs(table@);
    let mut i: usize = 0;
    proof { assert(t.skip(0) =~= t); }
    while i < table.len()
        invariant
            t == pairs(table@),
            i <= table@.len(),
            lookup(t, name@) == lookup(t.skip(i as int), name@),
        decreases table@.len() - i,
    {
        proof { assert(t.skip(i as int).drop_first() =~= t.skip(i + 1)); }
        let from = chars_of(table[i].0);
        if same_chars(from.as_slice(), name) {
            return Some(table[i].1);
        }
        i = i + 1;
    }
    None
}

/// A single lower-case ASCII letter.
pub open spec fn is_letter(name: Seq<char>) -> bool {
    name.len() == 1 && 'a' <= name[0] <= 'z'
}

fn letter(name: &[char]) -> (r: bool)
    ensures
        r == is_letter(name@),
{
    name.len() == 1 && 'a' <= name[0] && name[0] <= 'z'
}

/// The value of a run of decimal digits.
pub open spec fn digits_value(d: Seq<char>) -> nat
    decreases d.len(),
{
    if d.len() == 0 { 0 } else { digits_value(d.drop_last()) * 10 + ((d.last() as u32) - ('0' as u32)) as nat }
}

pub open spec fn all_digits(d: Seq<char>) -> bool {
    forall|i: int| 0 <= i < d.len() ==> '0' <= #[trigger] d[i] <= '9'
}

/// What `u32::from_str` reads a string as: an optional `+`, then one or more
/// decimal digits, whose value fits in 32 bits.
pub open spec fn u32_value(s: Seq<char>) -> Option<nat> {
    let d = if s.len() > 0 && s[0] == '+' { s.drop_first() } else { s };
    if d.len() == 0 || !all_digits(d) || digits_value(d) > u32::MAX {
        None
    } else {
        Some(digits_value(d))
    }
}

/// `f1` … `f12`, and nothing above it.
pub open spec fn is_function_key(name: Seq<char>) -> bool {
    &&& name.len() >= 1
    &&& name[0] == 'f'
    &&& !(name.len() > 1 && name[1] == '0')
    &&& u32_value(name.drop_first()) matches Some(n) && 1 <= n <= 12
}

fn parse_u32(s: &[char]) -> (r: Option<u32>)
    ensures
        (match r { Some(n) => Some(n as nat), None => None }) == u32_value(s@),
{
    let start: usize = if s.len() > 0 && s[0] == '+' { 1 } else { 0 };
    let ghost d = if s@.len() > 0 && s@[0] == '+' { s@.drop_first() } else { s@ };
    proof {
        assert(d =~= s@.skip(start as int));
        assert(u32_value(s@) == (if d.len() == 0 || !all_digits(d) || digits_value(d) > u32::MAX {
            None
        } else {
            Some(digits_value(d))
        }));
    }
    if start == s.len() {
        return None;
    }
    let mut value: u64 = 0;
    let mut i = start;
    while i < s.len()
        invariant
            start <= i <= s@.len(),
            d == s@.skip(start as int),
            u32_value(s@) == (if d.len() == 0 || !all_digits(d) || digits_value(d) > u32::MAX {
                None
            } else {
                Some(digits_value(d))
            }),
            all_digits(d.take(i - start)),
            value == digits_value(d.take(i - start)),
            value <= u32::MAX,
        decreases s@.len() - i,
    {
        let c = s[i];
        proof {
            assert(d.take(i + 1 - start).drop_last() =~= d.take(i - start));
            assert(d.take(i + 1 - start).last() == c);
        }
        if c < '0' || c > '9' {
            proof {
                assert(d[i - start] == c);
                assert(!all_digits(d));
                assert(u32_value(s@) is None);
            }
            return None;
        }
        let digit = (c as u32 - '0' as u32) as u64;
        value = value * 10 + digit;
        if value > 0xffff_ffffu64 {
            proof {
                assert(d.take(i + 1 - start).last() == c);
                assert(all_digits(d.take(i + 1 - start)));
                assert(digits_value(d.take(i + 1 - start)) == value);
                lemma_digits_grow_past(d, (i + 1 - start) as int);
                assert(u32_value(s@) is None);
            }
            return None;
        }
        i = i + 1;
    }
    proof {
        assert(d.take(i - start) =~= d);
    }
    Some(value as u32)
}

proof fn lemma_digits_grow_past(d: Seq<char>, n: int)
    requires
        0 <= n <= d.len(),
        all_digits(d.take(n)),
        digits_value(d.take(n)) > u32::MAX,
    ensures
        !all_digits(d) || digits_value(d) > u32::MAX,
    decreases d.len() - n,
{
    if n < d.len() && all_digits(d) {
        assert(d.take(n + 1).drop_last() =~= d.take(n));
        assert(all_digits(d.take(n + 1)));
        lemma_digits_grow_past(d, n + 1);
    } else if n == d.len() {
        assert(d.take(n) =~= d);
    }
}

fn function_key(name: &[char]) -> (r: bool)
    ensures
        r == is_function_key(name@),
{
    if name.len() == 0 || name[0] != 'f' {
        return false;
    }
    if name.len() > 1 && name[1] == '0' {
        return false;
    }
    let number = slice_of(name, 1, name.len());
    proof { assert(number@ =~= name@.drop_first()); }
    match parse_u32(number.as_slice()) {
        Some(n) => 1 <= n && n <= 12,
        None => false,
    }
}

/// Which modifiers a chord holds.
#[derive(Clone, Copy)]
pub struct Mods {
    pub mod_: bool,
    pub ctrl: bool,
    pub alt: bool,
    pub shift: bool,
}

/// A chord written out: its modifiers in the fixed order, then its key.
pub open spec fn spelled(m: Mods, key: Seq<char>) -> Seq<char> {
    (if m.mod_ { "mod+"@ } else { Seq::empty() }) + (if m.ctrl { "ctrl+"@ } else { Seq::empty() }) + (
    if m.alt { "alt+"@ } else { Seq::empty() }) + (if m.shift { "shift+"@ } else { Seq::empty() }) + key
}

fn spell(mods: Mods, key: &[char]) -> (r: String)
    ensures
        r@ == spelled(mods, key@),
{
    let mut out = String::new();
    if mods.mod_ {
        push_str(&mut out, "mod+");
    }
    if mods.ctrl {
        push_str(&mut out, "ctrl+");
    }
    if mods.alt {
        push_str(&mut out, "alt+");
    }
    if mods.shift {
        push_str(&mut out, "shift+");
    }
    let k = string_of(key);
    push_str(&mut out, k.as_str());
    proof {
        assert(out@ =~= spelled(mods, key@));
    }
    out
}

/// The first of `list` from `from` on that `s` begins with.
pub open spec fn first_prefix(s: Seq<char>, list: Seq<Seq<char>>, from: int) -> Option<int>
    decreases list.len() - from,
{
    if from < 0 || from >= list.len() {
        None
    } else if begins_with(s, list[from]) {
        Some(from)
    } else {
        first_prefix(s, list, from + 1)
    }
}

/// What the `j`th modifier spelling sets. `ctrl` is the modifier this app
/// calls `mod` everywhere but on a Mac.
pub open spec fn with_modifier(m: Mods, j: int, mac: bool) -> Mods {
    if j == 0 || j == 3 || j == 5 || j == 6 || j == 10 || j == 11 {
        Mods { mod_: true, ..m }
    } else if j == 1 || j == 7 {
        if mac { Mods { ctrl: true, ..m } } else { Mods { mod_: true, ..m } }
    } else if j == 2 || j == 8 || j == 9 {
        Mods { alt: true, ..m }
    } else {
        Mods { shift: true, ..m }
    }
}

/// The modifiers peeled off the front of a chord, and what is left.
pub open spec fn peel(s: Seq<char>, m: Mods, mac: bool) -> (Mods, Seq<char>)
    decreases s.len(),
{
    match first_prefix(s, modifier_table(), 0) {
        Some(j) => if 0 <= j < modifier_table().len() && 0 < modifier_table()[j].len() <= s.len() {
            peel(s.skip(modifier_table()[j].len() as int), with_modifier(m, j, mac), mac)
        } else {
            (m, s)
        },
        None => (m, s),
    }
}

pub open spec fn no_mods() -> Mods {
    Mods { mod_: false, ctrl: false, alt: false, shift: false }
}

/// Whether `name` is on the right of a row of `table`.
pub open spec fn names_has(table: Seq<(Seq<char>, Seq<char>)>, name: Seq<char>) -> bool {
    exists|i: int| 0 <= i < table.len() && table[i].1 == name
}

fn any_named(table: &Vec<(&'static str, &'static str)>, name: &[char]) -> (r: bool)
    ensures
        r == names_has(pairs(table@), name@),
{
    let mut i: usize = 0;
    while i < table.len()
        invariant
            i <= table@.len(),
            forall|k: int| 0 <= k < i ==> pairs(table@)[k].1 != name@,
        decreases table@.len() - i,
    {
        let to = chars_of(table[i].1);
        if same_chars(to.as_slice(), name) {
            proof { assert(pairs(table@)[i as int].1 == name@); }
            return true;
        }
        i = i + 1;
    }
    false
}

/// A chord's canonical spelling: modifiers in one fixed order, key in lower
/// case, aliases resolved; `None` when it is not a chord this app can read.
pub open spec fn chord_of(text: Seq<char>, mac: bool) -> Option<Seq<char>> {
    let lowered = lowercase(trimmed(text));
    if lowered.len() == 0 {
        None
    } else {
        let (mods, rest) = peel(lowered, no_mods(), mac);
        let key = match lookup(aliases_table(), rest) {
            Some(k) => k,
            None => rest,
        };
        if key.len() == 1 || is_function_key(key) || names_has(names_table(), key) {
            Some(spelled(mods, key))
        } else {
            None
        }
    }
}

/// A chord's canonical spelling, or `None` when it is not a chord this app
/// can read.
pub fn parse_chord(text: &str, mac: bool) -> (r: Option<String>)
    ensures
        (match r { Some(c) => Some(c@), None => None }) == chord_of(text@, mac),
{
    let typed = chars_of(text);
    let bare = trim(typed.as_slice());
    let bare_text = string_of(bare.as_slice());
    let lowered_text = str_to_lowercase(bare_text.as_str());
    let lowered = chars_of(lowered_text.as_str());
    proof { assert(lowered@ == lowercase(trimmed(text@))); }
    if lowered.len() == 0 {
        return None;
    }
    let table = modifiers();
    let mut mods = Mods { mod_: false, ctrl: false, alt: false, shift: false };
    let mut rest = lowered;
    loop
        invariant
            table@.map_values(|m: &'static str| m@) == modifier_table(),
            forall|i: int| 0 <= i < table@.len() ==> #[trigger] table@[i]@.len() > 0,
            peel(rest@, mods, mac) == peel(lowercase(trimmed(text@)), no_mods(), mac),
        ensures
            peel(lowercase(trimmed(text@)), no_mods(), mac) == (mods, rest@),
        decreases rest@.len(),
    {
        let mut j: usize = 0;
        proof { assert(first_prefix(rest@, modifier_table(), 0) == first_prefix(rest@, modifier_table(), j as int)); }
        while j < table.len() && !starts_with(rest.as_slice(), table[j])
            invariant
                table@.map_values(|m: &'static str| m@) == modifier_table(),
                j <= table@.len(),
                first_prefix(rest@, modifier_table(), 0) == first_prefix(rest@, modifier_table(), j as int),
            decreases table@.len() - j,
        {
            proof { assert(modifier_table()[j as int] == table@[j as int]@); }
            j = j + 1;
        }
        if j == table.len() {
            proof {
                assert(first_prefix(rest@, modifier_table(), j as int) is None);
                assert(peel(rest@, mods, mac) == (mods, rest@));
            }
            break;
        }
        proof {
            assert(modifier_table()[j as int] == table@[j as int]@);
            assert(first_prefix(rest@, modifier_table(), j as int) == Some(j as int));
            assert(begins_with(rest@, modifier_table()[j as int]));
        }
        let ghost before = rest@;
        let ghost before_mods = mods;
        let cut = chars_of(table[j]).len();
        mods = if j == 0 || j == 3 || j == 5 || j == 6 || j == 10 || j == 11 {
            Mods { mod_: true, ..mods }
        } else if j == 1 || j == 7 {
            if mac { Mods { ctrl: true, ..mods } } else { Mods { mod_: true, ..mods } }
        } else if j == 2 || j == 8 || j == 9 {
            Mods { alt: true, ..mods }
        } else {
            Mods { shift: true, ..mods }
        };
        rest = slice_of(rest.as_slice(), cut, rest.len());
        proof {
            assert(rest@ =~= before.skip(cut as int));
            assert(mods == with_modifier(before_mods, j as int, mac));
            assert(peel(before, before_mods, mac) == peel(rest@, mods, mac));
        }
    }
    let aliases = aliases();
    let key = match look_up(&aliases, rest.as_slice()) {
        Some(k) => chars_of(k),
        None => rest,
    };
    let names = named_keys();
    let known = key.len() == 1 || function_key(key.as_slice()) || any_named(&names, key.as_slice());
    if !known {
        return None;
    }
    Some(spell(mods, key.as_slice()))
}

/// Every word of a binding reads as a chord.
pub open spec fn all_chords(ws: Seq<Seq<char>>, mac: bool) -> bool {
    forall|i: int| 0 <= i < ws.len() ==> (#[trigger] chord_of(ws[i], mac)) is Some
}

/// A binding's canonical spelling: the canonical spelling of each chord of
/// it, one space between each two; `None` when any of them cannot be read.
pub open spec fn binding_of(text: Seq<char>, mac: bool) -> Option<Seq<char>> {
    let ws = words(text);
    if ws.len() == 0 || !all_chords(ws, mac) {
        None
    } else {
        Some(join(ws.map_values(|w: Seq<char>| chord_of(w, mac)->0), seq![' ']))
    }
}

/// A binding: one chord, or several pressed in turn. `None` when any part of
/// it is unreadable, because half a sequence is not a shorter one.
pub fn parse_binding(text: &str, mac: bool) -> (r: Option<String>)
    ensures
        (match r { Some(b) => Some(b@), None => None }) == binding_of(text@, mac),
{
    let typed = chars_of(text);
    let parts = words_of(typed.as_slice());
    if parts.len() == 0 {
        return None;
    }
    let mut chords: Vec<String> = Vec::new();
    let mut i: usize = 0;
    while i < parts.len()
        invariant
            typed@ == text@,
            views(parts@) == words(text@),
            i <= parts@.len(),
            chords@.len() == i,
            forall|k: int| 0 <= k < i ==> chord_of(parts@[k]@, mac) == Some(#[trigger] chords@[k]@),
        decreases parts@.len() - i,
    {
        let part = string_of(parts[i].as_slice());
        proof { assert(words(text@)[i as int] == parts@[i as int]@); }
        match parse_chord(part.as_str(), mac) {
            Some(c) => {
                chords.push(c);
            },
            None => {
                proof { assert(chord_of(words(text@)[i as int], mac) is None); }
                return None;
            },
        }
        i = i + 1;
    }
    proof {
        let ws = words(text@);
        assert forall|k: int| 0 <= k < ws.len() implies (#[trigger] chord_of(ws[k], mac)) is Some && chord_of(ws[k], mac)->0 == chords@[k]@ by {
            assert(ws[k] == parts@[k]@);
            assert(chord_of(parts@[k]@, mac) == Some(chords@[k]@));
        }
        assert(chords@.map_values(|p: String| p@) =~= ws.map_values(|w: Seq<char>| chord_of(w, mac)->0));
    }
    proof { strlits_of_signs(); }
    Some(join_with(&chords, " "))
}

/* ----------------------------------------------------------- for eyes */

pub open spec fn mod_plus() -> Seq<char> { seq!['m', 'o', 'd', '+'] }
pub open spec fn ctrl_plus() -> Seq<char> { seq!['c', 't', 'r', 'l', '+'] }
pub open spec fn alt_plus() -> Seq<char> { seq!['a', 'l', 't', '+'] }
pub open spec fn shift_plus() -> Seq<char> { seq!['s', 'h', 'i', 'f', 't', '+'] }

/// How each modifier is shown: a symbol on a Mac, a word elsewhere.
pub open spec fn mod_sign(mac: bool) -> Seq<char> { if mac { seq!['\u{2318}'] } else { seq!['C', 't', 'r', 'l', '+'] } }
pub open spec fn ctrl_sign(mac: bool) -> Seq<char> { if mac { seq!['\u{2303}'] } else { seq!['C', 't', 'r', 'l', '+'] } }
pub open spec fn alt_sign(mac: bool) -> Seq<char> { if mac { seq!['\u{2325}'] } else { seq!['A', 'l', 't', '+'] } }
pub open spec fn shift_sign(mac: bool) -> Seq<char> { if mac { seq!['\u{21e7}'] } else { seq!['S', 'h', 'i', 'f', 't', '+'] } }

/// The modifiers at the front of a chord as they are shown, peeled as many
/// times as they occur, and the key that is left.
pub open spec fn signs_of(s: Seq<char>, mac: bool) -> (Seq<char>, Seq<char>)
    decreases s.len(),
{
    if begins_with(s, mod_plus()) {
        let (o, r) = signs_of(s.skip(4), mac);
        (mod_sign(mac) + o, r)
    } else if begins_with(s, ctrl_plus()) {
        let (o, r) = signs_of(s.skip(5), mac);
        (ctrl_sign(mac) + o, r)
    } else if begins_with(s, alt_plus()) {
        let (o, r) = signs_of(s.skip(4), mac);
        (alt_sign(mac) + o, r)
    } else if begins_with(s, shift_plus()) {
        let (o, r) = signs_of(s.skip(6), mac);
        (shift_sign(mac) + o, r)
    } else {
        (Seq::empty(), s)
    }
}

/// Every ASCII letter of a string in upper case.
pub open spec fn upper(s: Seq<char>) -> Seq<char> {
    s.map_values(|c: char| ascii_upper(c))
}

/// A chord as it is shown: the modifiers' signs, then the key, a letter as
/// the capital printed on it.
pub open spec fn shown_text(chord: Seq<char>, mac: bool) -> Seq<char> {
    let (o, r) = signs_of(chord, mac);
    o + (if is_letter(r) { upper(r) } else { r })
}

proof fn strlits_of_signs()
    ensures
        "mod+"@ == mod_plus(),
        "ctrl+"@ == ctrl_plus(),
        "alt+"@ == alt_plus(),
        "shift+"@ == shift_plus(),
        "\u{2318}"@ == mod_sign(true),
        "\u{2303}"@ == ctrl_sign(true),
        "\u{2325}"@ == alt_sign(true),
        "\u{21e7}"@ == shift_sign(true),
        "Ctrl+"@ == mod_sign(false),
        "Ctrl+"@ == ctrl_sign(false),
        "Alt+"@ == alt_sign(false),
        "Shift+"@ == shift_sign(false),
        " "@ == seq![' '],
{
    reveal_strlit("mod+");
    reveal_strlit("ctrl+");
    reveal_strlit("alt+");
    reveal_strlit("shift+");
    reveal_strlit("\u{2318}");
    reveal_strlit("\u{2303}");
    reveal_strlit("\u{2325}");
    reveal_strlit("\u{21e7}");
    reveal_strlit("Ctrl+");
    reveal_strlit("Alt+");
    reveal_strlit("Shift+");
    reveal_strlit(" ");
    assert("mod+"@ =~= mod_plus());
    assert("ctrl+"@ =~= ctrl_plus());
    assert("alt+"@ =~= alt_plus());
    assert("shift+"@ =~= shift_plus());
    assert("\u{2318}"@ =~= mod_sign(true));
    assert("\u{2303}"@ =~= ctrl_sign(true));
    assert("\u{2325}"@ =~= alt_sign(true));
    assert("\u{21e7}"@ =~= shift_sign(true));
    assert("Ctrl+"@ =~= mod_sign(false));
    assert("Alt+"@ =~= alt_sign(false));
    assert("Shift+"@ =~= shift_sign(false));
    assert(" "@ =~= seq![' ']);
}

fn upper_of(s: &[char]) -> (r: Vec<char>)
    ensures
        r@ == upper(s@),
{
    let mut out: Vec<char> = Vec::new();
    let mut i: usize = 0;
    while i < s.len()
        invariant
            i <= s@.len(),
            out@ == upper(s@.take(i as int)),
        decreases s@.len() - i,
    {
        let c = s[i];
        let u = if 'a' <= c && c <= 'z' { ((c as u32) - 32) as u8 as char } else { c };
        proof {
            assert(upper(s@.take(i + 1)) =~= upper(s@.take(i as int)).push(ascii_upper(c)));
        }
        out.push(u);
        i = i + 1;
    }
    proof { assert(s@.take(s@.len() as int) =~= s@); }
    out
}

/// A chord as it should be *shown* to somebody, which is not how it is
/// written down: `mod` is Command on a Mac and Control everywhere else.
pub fn shown(chord: &str, mac: bool) -> (r: String)
    ensures
        r@ == shown_text(chord@, mac),
{
    proof { strlits_of_signs(); }
    let mut out = String::new();
    let mut rest = chars_of(chord);
    loop
        invariant
            out@ + signs_of(rest@, mac).0 == signs_of(chord@, mac).0,
            signs_of(rest@, mac).1 == signs_of(chord@, mac).1,
        ensures
            out@ == signs_of(chord@, mac).0,
            rest@ == signs_of(chord@, mac).1,
        decreases rest@.len(),
    {
        let ghost before = rest@;
        let ghost out_before = out@;
        proof { strlits_of_signs(); }
        if starts_with(rest.as_slice(), "mod+") {
            push_str(&mut out, if mac { "\u{2318}" } else { "Ctrl+" });
            rest = slice_of(rest.as_slice(), 4, rest.len());
        } else if starts_with(rest.as_slice(), "ctrl+") {
            push_str(&mut out, if mac { "\u{2303}" } else { "Ctrl+" });
            rest = slice_of(rest.as_slice(), 5, rest.len());
        } else if starts_with(rest.as_slice(), "alt+") {
            push_str(&mut out, if mac { "\u{2325}" } else { "Alt+" });
            rest = slice_of(rest.as_slice(), 4, rest.len());
        } else if starts_with(rest.as_slice(), "shift+") {
            push_str(&mut out, if mac { "\u{21e7}" } else { "Shift+" });
            rest = slice_of(rest.as_slice(), 6, rest.len());
        } else {
            proof { assert(signs_of(before, mac) == (Seq::<char>::empty(), before)); assert(out@ =~= out@ + Seq::<char>::empty()); }
            break;
        }
        proof {
            assert(out@ + signs_of(rest@, mac).0 =~= out_before + signs_of(before, mac).0);
        }
    }
    let key = if letter(rest.as_slice()) { upper_of(rest.as_slice()) } else { rest };
    let k = string_of(key.as_slice());
    push_str(&mut out, k.as_str());
    out
}

/// A prefix taken off the front if it is there, and whether it was.
pub open spec fn eaten(s: Seq<char>, p: Seq<char>) -> (bool, Seq<char>) {
    if begins_with(s, p) { (true, s.skip(p.len() as int)) } else { (false, s) }
}

/// A key's name as it is read: `F11`, `←`, `G`.
pub open spec fn key_shown(key: Seq<char>, held: bool) -> Seq<char> {
    if is_function_key(key) {
        upper(key)
    } else if lookup(shown_table(), key) is Some {
        lookup(shown_table(), key)->0
    } else if is_letter(key) && held {
        upper(key)
    } else {
        key
    }
}

/// A chord as it is read: ⌘⇧F on a Mac, Ctrl+Shift+F elsewhere. A bare
/// Shift and a letter is the letter in capitals.
pub open spec fn described(chord: Seq<char>, mac: bool) -> Seq<char> {
    let (m, r1) = eaten(chord, mod_plus());
    let (c, r2) = eaten(r1, ctrl_plus());
    let (a, r3) = eaten(r2, alt_plus());
    let (s, key) = eaten(r3, shift_plus());
    if !m && !c && !a && s && is_letter(key) {
        upper(key)
    } else {
        let signs = (if m { mod_sign(mac) } else { Seq::empty() }) + (if c { ctrl_sign(mac) } else { Seq::empty() })
            + (if a { alt_sign(mac) } else { Seq::empty() }) + (if s { shift_sign(mac) } else { Seq::empty() });
        signs + key_shown(key, m || c || a)
    }
}

fn eat(rest: &Vec<char>, name: &str) -> (r: (bool, Vec<char>))
    ensures
        (r.0, r.1@) == eaten(rest@, name@),
{
    if starts_with(rest.as_slice(), name) {
        let n = chars_of(name).len();
        (true, slice_of(rest.as_slice(), n, rest.len()))
    } else {
        (false, rest.clone())
    }
}

/// A chord as it should be read: ⌘⇧F on a Mac, Ctrl+Shift+F elsewhere.
pub fn describe_chord(chord: &str, mac: bool) -> (r: String)
    ensures
        r@ == described(chord@, mac),
{
    proof { strlits_of_signs(); }
    let typed = chars_of(chord);
    let (mod_, r1) = eat(&typed, "mod+");
    let (ctrl, r2) = eat(&r1, "ctrl+");
    let (alt, r3) = eat(&r2, "alt+");
    let (shift, key) = eat(&r3, "shift+");
    if !mod_ && !ctrl && !alt && shift && letter(key.as_slice()) {
        let up = upper_of(key.as_slice());
        return string_of(up.as_slice());
    }
    let table = shown_names();
    let name: Vec<char> = if function_key(key.as_slice()) {
        upper_of(key.as_slice())
    } else {
        match look_up(&table, key.as_slice()) {
            Some(s) => chars_of(s),
            None => if letter(key.as_slice()) && (mod_ || ctrl || alt) {
                upper_of(key.as_slice())
            } else {
                key.clone()
            },
        }
    };
    let mut out = String::new();
    if mac {
        if mod_ { push_str(&mut out, "\u{2318}"); }
        if ctrl { push_str(&mut out, "\u{2303}"); }
        if alt { push_str(&mut out, "\u{2325}"); }
        if shift { push_str(&mut out, "\u{21e7}"); }
    } else {
        if mod_ { push_str(&mut out, "Ctrl+"); }
        if ctrl { push_str(&mut out, "Ctrl+"); }
        if alt { push_str(&mut out, "Alt+"); }
        if shift { push_str(&mut out, "Shift+"); }
    }
    let n = string_of(name.as_slice());
    push_str(&mut out, n.as_str());
    proof {
        assert(out@ =~= described(chord@, mac));
    }
    out
}

/// A whole binding as it is read, each chord of it described.
pub open spec fn binding_described(binding: Seq<char>, mac: bool) -> Seq<char> {
    join(split_on(binding, ' ').map_values(|c: Seq<char>| described(c, mac)), seq![' '])
}

/// A whole binding, sequences included: `g g` reads as "g then g".
pub fn describe_binding(binding: &str, mac: bool) -> (r: String)
    ensures
        r@ == binding_described(binding@, mac),
{
    let typed = chars_of(binding);
    let chords = split_at_char(typed.as_slice(), ' ');
    let mut out: Vec<String> = Vec::new();
    let mut i: usize = 0;
    while i < chords.len()
        invariant
            views(chords@) == split_on(binding@, ' '),
            i <= chords@.len(),
            out@.len() == i,
            forall|k: int| 0 <= k < i ==> (#[trigger] out@[k])@ == described(chords@[k]@, mac),
        decreases chords@.len() - i,
    {
        let c = string_of(chords[i].as_slice());
        out.push(describe_chord(c.as_str(), mac));
        i = i + 1;
    }
    proof {
        let parts = split_on(binding@, ' ');
        assert forall|k: int| 0 <= k < parts.len() implies parts[k] == #[trigger] chords@[k]@ by {
            assert(views(chords@)[k] == chords@[k]@);
        }
        assert(out@.map_values(|p: String| p@) =~= parts.map_values(|c: Seq<char>| described(c, mac)));
        strlits_of_signs();
    }
    join_with(&out, " ")
}

/* ------------------------------------------------------------- events */

/// Which modifier keys a keystroke carries, as the window system reports
/// them. `meta` and `super_` are both Command on a Mac: which of the two bits
/// a keystroke carries is the window system's business.
#[derive(Clone, Copy, Debug, PartialEq, Eq, Structural)]
pub struct Modifiers {
    pub meta: bool,
    pub super_: bool,
    pub ctrl: bool,
    pub alt: bool,
    pub shift: bool,
}

/// Whether the modifier this app calls `mod` is down: ⌘ on a Mac.
pub fn command(modifiers: Modifiers) -> (r: bool)
    ensures
        r == (modifiers.meta || modifiers.super_),
{
    modifiers.meta || modifiers.super_
}

/// Nothing held but Shift, or Alt: a keystroke that is typing rather than a
/// chord. On a Mac Option is how `@`, `[` and `{` are reached, and AltGr
/// arrives as Ctrl and Alt together.
pub fn plain(modifiers: Modifiers) -> (r: bool)
    ensures
        r == (!(modifiers.meta || modifiers.super_) && (!modifiers.ctrl || modifiers.alt)),
{
    !command(modifiers) && (!modifiers.ctrl || modifiers.alt)
}

/// The modifiers a keystroke's chords are written with.
pub open spec fn event_mods(m: Modifiers, mac: bool) -> Mods {
    Mods {
        mod_: if mac { m.meta || m.super_ } else { m.ctrl },
        ctrl: mac && m.ctrl,
        alt: m.alt,
        shift: m.shift,
    }
}

/// A name added to a list, unless it is empty or there already.
pub open spec fn with_name(names: Seq<Seq<char>>, name: Option<Seq<char>>) -> Seq<Seq<char>> {
    match name {
        Some(n) => if n.len() > 0 && !names.contains(n) { names.push(n) } else { names },
        None => names,
    }
}

/// One character, and that one ASCII: a string one byte long.
pub open spec fn one_byte(s: Seq<char>) -> bool {
    s.len() == 1 && (s[0] as u32) < 0x80
}

/// What a key is called from what the event says it wrote: a named key by
/// its name, a single character in lower case.
pub open spec fn key_named(key: Seq<char>) -> Option<Seq<char>> {
    match lookup(names_table(), key) {
        Some(n) => Some(n),
        None => if key.len() == 1 { Some(lower_case_str(key)) } else { None },
    }
}

/// A function key, by its name in lower case.
pub open spec fn key_function(key: Seq<char>) -> Option<Seq<char>> {
    if is_function_key(lower_case_str(key)) { Some(lower_case_str(key)) } else { None }
}

pub open spec fn key_prefix() -> Seq<char> { seq!['K', 'e', 'y'] }
pub open spec fn digit_prefix() -> Seq<char> { seq!['D', 'i', 'g', 'i', 't'] }

/// What a key is called from where it is on the keyboard: `KeyG` is `g`,
/// `Digit0` is `0`, and a few marks by the table.
pub open spec fn code_named(code: Seq<char>) -> Option<Seq<char>> {
    if begins_with(code, key_prefix()) && one_byte(code.skip(3)) {
        Some(seq![ascii_lower(code[3])])
    } else if begins_with(code, digit_prefix()) && one_byte(code.skip(5)) {
        Some(code.skip(5))
    } else {
        lookup(codes_table(), code)
    }
}

/// Every name of the key that was pressed, best first, none twice.
pub open spec fn names_of_event(key: Seq<char>, code: Seq<char>) -> Seq<Seq<char>> {
    with_name(with_name(with_name(Seq::empty(), key_named(key)), key_function(key)), code_named(code))
}

/// The chords with Shift taken off, added after the others, for the names
/// among the first `n` that are not letters.
pub open spec fn unshifted(out: Seq<Seq<char>>, names: Seq<Seq<char>>, mods: Mods, n: int) -> Seq<Seq<char>>
    decreases n,
{
    if n <= 0 {
        out
    } else {
        let o = unshifted(out, names, mods, n - 1);
        let name = names[n - 1];
        if is_letter(name) {
            o
        } else {
            let w = spelled(Mods { shift: false, ..mods }, name);
            if o.contains(w) { o } else { o.push(w) }
        }
    }
}

/// Every spelling of a keystroke, best first. A lone modifier key is not a
/// keystroke, and neither is one with the Windows or Super key held.
pub open spec fn chords_for(key: Seq<char>, modifier_key: bool, code: Seq<char>, m: Modifiers, mac: bool) -> Seq<Seq<char>> {
    if modifier_key || (!mac && (m.meta || m.super_)) {
        Seq::empty()
    } else {
        let names = names_of_event(key, code);
        let mods = event_mods(m, mac);
        let out = names.map_values(|n: Seq<char>| spelled(mods, n));
        if mods.shift { unshifted(out, names, mods, names.len() as int) } else { out }
    }
}

fn has_run(list: &Vec<Vec<char>>, s: &[char]) -> (r: bool)
    ensures
        r == views(list@).contains(s@),
{
    let mut i: usize = 0;
    while i < list.len()
        invariant
            i <= list@.len(),
            forall|k: int| 0 <= k < i ==> views(list@)[k] != s@,
        decreases list@.len() - i,
    {
        if same_chars(list[i].as_slice(), s) {
            proof { assert(views(list@)[i as int] == s@); }
            return true;
        }
        i = i + 1;
    }
    false
}

/// The views of a list of strings.
pub open spec fn texts(v: Seq<String>) -> Seq<Seq<char>> {
    v.map_values(|x: String| x@)
}

fn has_text(list: &Vec<String>, s: &String) -> (r: bool)
    ensures
        r == texts(list@).contains(s@),
{
    let mut i: usize = 0;
    while i < list.len()
        invariant
            i <= list@.len(),
            forall|k: int| 0 <= k < i ==> texts(list@)[k] != s@,
        decreases list@.len() - i,
    {
        if same(list[i].as_str(), s.as_str()) {
            proof { assert(texts(list@)[i as int] == s@); }
            return true;
        }
        i = i + 1;
    }
    false
}

fn add_name(names: &mut Vec<Vec<char>>, name: Option<Vec<char>>)
    ensures
        views(final(names)@) == with_name(views(old(names)@), match name { Some(n) => Some(n@), None => None }),
{
    match name {
        Some(n) => {
            if n.len() > 0 && !has_run(names, n.as_slice()) {
                names.push(n);
                proof { assert(views(names@) =~= views(old(names)@).push(n@)); }
            }
        },
        None => {},
    }
}

proof fn strlits_of_codes()
    ensures
        "Key"@ == key_prefix(),
        "Digit"@ == digit_prefix(),
{
    reveal_strlit("Key");
    reveal_strlit("Digit");
    assert("Key"@ =~= key_prefix());
    assert("Digit"@ =~= digit_prefix());
}

fn key_name(key: &str) -> (r: Option<Vec<char>>)
    ensures
        (match r { Some(n) => Some(n@), None => None }) == key_named(key@),
{
    let spelled_key = chars_of(key);
    let table = named_keys();
    match look_up(&table, spelled_key.as_slice()) {
        Some(name) => Some(chars_of(name)),
        None => if spelled_key.len() == 1 {
            let low = str_to_lowercase(key);
            Some(chars_of(low.as_str()))
        } else {
            None
        },
    }
}

fn function_name(key: &str) -> (r: Option<Vec<char>>)
    ensures
        (match r { Some(n) => Some(n@), None => None }) == key_function(key@),
{
    let lowered = str_to_lowercase(key);
    let lowered_chars = chars_of(lowered.as_str());
    if function_key(lowered_chars.as_slice()) { Some(lowered_chars) } else { None }
}

fn code_name(code: &str) -> (r: Option<Vec<char>>)
    ensures
        (match r { Some(n) => Some(n@), None => None }) == code_named(code@),
{
    let hit = chars_of(code);
    proof { strlits_of_codes(); }
    if starts_with(hit.as_slice(), "Key") && hit.len() == 4 && (hit[3] as u32) < 0x80 {
        let letter_text = string_of(slice_of(hit.as_slice(), 3, 4).as_slice());
        proof { assert(letter_text@ =~= seq![hit@[3]]); }
        let low = str_to_lowercase(letter_text.as_str());
        proof {
            assert(low@ =~= seq![ascii_lower(hit@[3])]);
            assert(hit@.skip(3)[0] == hit@[3]);
        }
        Some(chars_of(low.as_str()))
    } else if starts_with(hit.as_slice(), "Digit") && hit.len() == 6 && (hit[5] as u32) < 0x80 {
        proof {
            assert(hit@.skip(5)[0] == hit@[5]);
            assert(hit@.subrange(5, 6) =~= hit@.skip(5));
            if begins_with(hit@, key_prefix()) && one_byte(hit@.skip(3)) {
                assert(hit@.skip(3).len() == 3);
            }
        }
        Some(slice_of(hit.as_slice(), 5, 6))
    } else {
        proof {
            if begins_with(hit@, key_prefix()) && one_byte(hit@.skip(3)) {
                assert(hit@.skip(3)[0] == hit@[3]);
            }
            if begins_with(hit@, digit_prefix()) && one_byte(hit@.skip(5)) {
                assert(hit@.skip(5)[0] == hit@[5]);
            }
        }
        let codes_list = codes();
        match look_up(&codes_list, hit.as_slice()) {
            Some(name) => Some(chars_of(name)),
            None => None,
        }
    }
}

fn event_names(key: &str, code: &str) -> (r: Vec<Vec<char>>)
    ensures
        views(r@) == names_of_event(key@, code@),
{
    let mut names: Vec<Vec<char>> = Vec::new();
    proof { assert(views(names@) =~= Seq::<Seq<char>>::empty()); }
    add_name(&mut names, key_name(key));
    add_name(&mut names, function_name(key));
    add_name(&mut names, code_name(code));
    names
}

/// Every spelling of the key that was just pressed, best first.
///
/// `key` is what the event says was written, `modifier_key` whether the key
/// is itself a modifier or Caps Lock, and `code` where it is on the keyboard,
/// as the DOM spells both. ⇧Space offers `shift+space` before `space`; Shift
/// is only dropped for keys that are not letters, because G and g are two
/// different keys to a reader.
pub fn chords_of(key: &str, modifier_key: bool, code: &str, modifiers: Modifiers, mac: bool) -> (r: Vec<String>)
    ensures
        texts(r@) == chords_for(key@, modifier_key, code@, modifiers, mac),
{
    if modifier_key {
        return Vec::new();
    }
    if !mac && command(modifiers) {
        return Vec::new();
    }
    let mods = Mods {
        mod_: if mac { command(modifiers) } else { modifiers.ctrl },
        ctrl: mac && modifiers.ctrl,
        alt: modifiers.alt,
        shift: modifiers.shift,
    };
    let names = event_names(key, code);
    let mut out: Vec<String> = Vec::new();
    let mut i: usize = 0;
    while i < names.len()
        invariant
            i <= names@.len(),
            texts(out@) == views(names@).take(i as int).map_values(|n: Seq<char>| spelled(mods, n)),
        decreases names@.len() - i,
    {
        let s = spell(mods, names[i].as_slice());
        let ghost before = out@;
        out.push(s);
        proof {
            assert(texts(out@) =~= texts(before).push(s@));
            assert(views(names@).take(i + 1) =~= views(names@).take(i as int).push(names@[i as int]@));
            assert(texts(out@) =~= views(names@).take(i + 1).map_values(|n: Seq<char>| spelled(mods, n)));
        }
        i = i + 1;
    }
    proof { assert(views(names@).take(names@.len() as int) =~= views(names@)); }
    if mods.shift {
        let ghost base = texts(out@);
        let bare = Mods { shift: false, ..mods };
        let mut j: usize = 0;
        while j < names.len()
            invariant
                j <= names@.len(),
                texts(out@) == unshifted(base, views(names@), mods, j as int),
                bare == (Mods { shift: false, ..mods }),
            decreases names@.len() - j,
        {
            proof { assert(views(names@)[j as int] == names@[j as int]@); }
            if !letter(names[j].as_slice()) {
                let without = spell(bare, names[j].as_slice());
                if !has_text(&out, &without) {
                    let ghost before = out@;
                    out.push(without);
                    proof { assert(texts(out@) =~= texts(before).push(without@)); }
                }
            }
            j = j + 1;
        }
    }
    out
}

} // verus!
