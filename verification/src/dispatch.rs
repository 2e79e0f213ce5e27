//! What a command line does: from the line typed and the state of the
//! tabs, the store and the config to the action the window carries out.

use vstd::prelude::*;
use crate::bookmarks::{bookmarkable, bookmarkable_spec};
use crate::commands::{
    bind_args, bind_args_spec, fill_template, move_delta, move_delta_spec, split_command, split_spec,
    tab_target, tab_target_spec, template_spec,
};
use crate::config::{to_uri, to_uri_spec};
use crate::tabs::Tabs;
use crate::text::{chars_of, concat_chars, str_eq, string_of, trim};

verus! {

/// What the command line asks for.
#[derive(Clone, Copy, Debug, PartialEq, Eq, Structural)]
pub enum AskKind {
    /// A command.
    Command,
    /// Text to find on the page.
    Find,
    /// The name of a group for the current tab.
    GroupName,
    /// A new master password.
    NewMaster,
}

/// What a command line asks the window to do.
pub enum CommandAction {
    /// Ask on the command line, for this, with this text already typed.
    Ask(AskKind, String),
    /// Open the address here, or in a new tab when true; a video goes to the player.
    Open(String, bool),
    /// Hand the address to the video player.
    Play(String),
    /// Go to the home page.
    Home,
    Back,
    Forward,
    Reload,
    ReloadForce,
    Stop,
    ScrollDown,
    ScrollUp,
    ScrollLeft,
    ScrollRight,
    /// Scroll by the share of the window the text gives.
    ScrollPage(String),
    ScrollTop,
    ScrollBottom,
    /// Find the text on the page.
    Find(String),
    FindNext,
    FindPrev,
    /// Show link hints; the link opens in a new tab when true.
    Hint(bool),
    Insert,
    FocusInput,
    /// Copy the text to the clipboard.
    Yank(String),
    /// Open what the clipboard holds, in a new tab when true.
    Paste(bool),
    Fullscreen,
    DarkDefault,
    DarkSite,
    ZoomIn,
    ZoomOut,
    ZoomReset,
    /// Zoom to the percentage the text gives.
    Zoom(String),
    TabNext,
    TabPrev,
    /// Go to the visible tab at this position.
    GotoVisible(usize),
    /// Move the tab at this index by this many places.
    MoveTab(usize, i32),
    /// The tab count is past what the move arithmetic holds.
    Overflow,
    /// Close the tab at this index.
    Close(usize),
    Undo,
    /// Put the current tab in the named group.
    Group(String),
    /// Take the tab at this index out of its group.
    Ungroup(usize),
    /// Fold (true), unfold (false) or toggle the current tab's group.
    GroupFold(Option<bool>),
    /// Fold or unfold every group.
    GroupsFold(bool),
    GroupRename(u64, String),
    GroupColor(u64, String),
    GroupClose(u64),
    GroupCollapse(u64, bool),
    GroupDelete(String),
    /// Bookmark the address under the title.
    BookmarkAdd(String, String),
    BookmarkDel(String),
    Bookmarks,
    /// Read the Firefox bookmarks export at this path.
    BookmarkImport(String),
    Fill,
    Passwords,
    PasswordImport(String),
    PasswordRemove(String),
    PasswordLock,
    AdblockUpdate,
    Bind(String, String),
    Unbind(String),
    Help,
    Inspect,
    SessionSave,
    Quit,
    /// Show the text in the status line.
    Message(String),
}

/// A command action as plain values.
pub enum CommandView {
    Ask(AskKind, Seq<char>),
    Open(Seq<char>, bool),
    Play(Seq<char>),
    Home,
    Back,
    Forward,
    Reload,
    ReloadForce,
    Stop,
    ScrollDown,
    ScrollUp,
    ScrollLeft,
    ScrollRight,
    ScrollPage(Seq<char>),
    ScrollTop,
    ScrollBottom,
    Find(Seq<char>),
    FindNext,
    FindPrev,
    Hint(bool),
    Insert,
    FocusInput,
    Yank(Seq<char>),
    Paste(bool),
    Fullscreen,
    DarkDefault,
    DarkSite,
    ZoomIn,
    ZoomOut,
    ZoomReset,
    Zoom(Seq<char>),
    TabNext,
    TabPrev,
    GotoVisible(usize),
    MoveTab(usize, i32),
    Overflow,
    Close(usize),
    Undo,
    Group(Seq<char>),
    Ungroup(usize),
    GroupFold(Option<bool>),
    GroupsFold(bool),
    GroupRename(u64, Seq<char>),
    GroupColor(u64, Seq<char>),
    GroupClose(u64),
    GroupCollapse(u64, bool),
    GroupDelete(Seq<char>),
    BookmarkAdd(Seq<char>, Seq<char>),
    BookmarkDel(Seq<char>),
    Bookmarks,
    BookmarkImport(Seq<char>),
    Fill,
    Passwords,
    PasswordImport(Seq<char>),
    PasswordRemove(Seq<char>),
    PasswordLock,
    AdblockUpdate,
    Bind(Seq<char>, Seq<char>),
    Unbind(Seq<char>),
    Help,
    Inspect,
    SessionSave,
    Quit,
    Message(Seq<char>),
}

impl View for CommandAction {
    type V = CommandView;

    open spec fn view(&self) -> CommandView {
        match self {
            CommandAction::Ask(a0, a1) => CommandView::Ask(*a0, a1@),
            CommandAction::Open(a0, a1) => CommandView::Open(a0@, *a1),
            CommandAction::Play(a0) => CommandView::Play(a0@),
            CommandAction::Home => CommandView::Home,
            CommandAction::Back => CommandView::Back,
            CommandAction::Forward => CommandView::Forward,
            CommandAction::Reload => CommandView::Reload,
            CommandAction::ReloadForce => CommandView::ReloadForce,
            CommandAction::Stop => CommandView::Stop,
            CommandAction::ScrollDown => CommandView::ScrollDown,
            CommandAction::ScrollUp => CommandView::ScrollUp,
            CommandAction::ScrollLeft => CommandView::ScrollLeft,
            CommandAction::ScrollRight => CommandView::ScrollRight,
            CommandAction::ScrollPage(a0) => CommandView::ScrollPage(a0@),
            CommandAction::ScrollTop => CommandView::ScrollTop,
            CommandAction::ScrollBottom => CommandView::ScrollBottom,
            CommandAction::Find(a0) => CommandView::Find(a0@),
            CommandAction::FindNext => CommandView::FindNext,
            CommandAction::FindPrev => CommandView::FindPrev,
            CommandAction::Hint(a0) => CommandView::Hint(*a0),
            CommandAction::Insert => CommandView::Insert,
            CommandAction::FocusInput => CommandView::FocusInput,
            CommandAction::Yank(a0) => CommandView::Yank(a0@),
            CommandAction::Paste(a0) => CommandView::Paste(*a0),
            CommandAction::Fullscreen => CommandView::Fullscreen,
            CommandAction::DarkDefault => CommandView::DarkDefault,
            CommandAction::DarkSite => CommandView::DarkSite,
            CommandAction::ZoomIn => CommandView::ZoomIn,
            CommandAction::ZoomOut => CommandView::ZoomOut,
            CommandAction::ZoomReset => CommandView::ZoomReset,
            CommandAction::Zoom(a0) => CommandView::Zoom(a0@),
            CommandAction::TabNext => CommandView::TabNext,
            CommandAction::TabPrev => CommandView::TabPrev,
            CommandAction::GotoVisible(a0) => CommandView::GotoVisible(*a0),
            CommandAction::MoveTab(a0, a1) => CommandView::MoveTab(*a0, *a1),
            CommandAction::Overflow => CommandView::Overflow,
            CommandAction::Close(a0) => CommandView::Close(*a0),
            CommandAction::Undo => CommandView::Undo,
            CommandAction::Group(a0) => CommandView::Group(a0@),
            CommandAction::Ungroup(a0) => CommandView::Ungroup(*a0),
            CommandAction::GroupFold(a0) => CommandView::GroupFold(*a0),
            CommandAction::GroupsFold(a0) => CommandView::GroupsFold(*a0),
            CommandAction::GroupRename(a0, a1) => CommandView::GroupRename(*a0, a1@),
            CommandAction::GroupColor(a0, a1) => CommandView::GroupColor(*a0, a1@),
            CommandAction::GroupClose(a0) => CommandView::GroupClose(*a0),
            CommandAction::GroupCollapse(a0, a1) => CommandView::GroupCollapse(*a0, *a1),
            CommandAction::GroupDelete(a0) => CommandView::GroupDelete(a0@),
            CommandAction::BookmarkAdd(a0, a1) => CommandView::BookmarkAdd(a0@, a1@),
            CommandAction::BookmarkDel(a0) => CommandView::BookmarkDel(a0@),
            CommandAction::Bookmarks => CommandView::Bookmarks,
            CommandAction::BookmarkImport(a0) => CommandView::BookmarkImport(a0@),
            CommandAction::Fill => CommandView::Fill,
            CommandAction::Passwords => CommandView::Passwords,
            CommandAction::PasswordImport(a0) => CommandView::PasswordImport(a0@),
            CommandAction::PasswordRemove(a0) => CommandView::PasswordRemove(a0@),
            CommandAction::PasswordLock => CommandView::PasswordLock,
            CommandAction::AdblockUpdate => CommandView::AdblockUpdate,
            CommandAction::Bind(a0, a1) => CommandView::Bind(a0@, a1@),
            CommandAction::Unbind(a0) => CommandView::Unbind(a0@),
            CommandAction::Help => CommandView::Help,
            CommandAction::Inspect => CommandView::Inspect,
            CommandAction::SessionSave => CommandView::SessionSave,
            CommandAction::Quit => CommandView::Quit,
            CommandAction::Message(a0) => CommandView::Message(a0@),
        }
    }
}

/// The address of the current tab, or nothing.
pub open spec fn current_uri(t: Tabs) -> Seq<char> {
    if t.active < t.tabs@.len() {
        t.tabs@[t.active as int].uri@
    } else {
        Seq::empty()
    }
}

/// The title of the current tab, or nothing.
pub open spec fn current_title(t: Tabs) -> Seq<char> {
    if t.active < t.tabs@.len() {
        t.tabs@[t.active as int].title@
    } else {
        Seq::empty()
    }
}

/// What command `cmd`, with `rest` after it and `arg` that trimmed, does
/// with the tabs `t`, the search URL `search`, the home directory `home`,
/// the video player `player`, and the store unlocked or not: defaults for
/// a missing argument, a usage line for a wrong one.
pub open spec fn command_view(
    cmd: Seq<char>,
    rest: Seq<char>,
    arg: Seq<char>,
    t: Tabs,
    search: Seq<char>,
    home: Seq<char>,
    player: Seq<char>,
    unlocked: bool,
) -> CommandView {
    let uri = current_uri(t);
    let title = current_title(t);
    if cmd == "cmd"@ {
        CommandView::Ask(AskKind::Command, template_spec(rest, uri, title))
    } else if cmd == "open"@ || cmd == "o"@ {
        if arg.len() == 0 { CommandView::Ask(AskKind::Command, "open "@) } else { CommandView::Open(to_uri_spec(arg, search, home), false) }
    } else if cmd == "tabopen"@ || cmd == "t"@ {
        if arg.len() == 0 { CommandView::Ask(AskKind::Command, "tabopen "@) } else { CommandView::Open(to_uri_spec(arg, search, home), true) }
    } else if cmd == "play"@ {
        { let target = if arg.len() == 0 { uri } else { to_uri_spec(arg, search, home) }; if target.len() == 0 || player.len() == 0 { CommandView::Message("No video player set (video_player in the config)"@) } else { CommandView::Play(target) } }
    } else if cmd == "home"@ {
        CommandView::Home
    } else if cmd == "back"@ {
        CommandView::Back
    } else if cmd == "forward"@ {
        CommandView::Forward
    } else if cmd == "reload"@ {
        CommandView::Reload
    } else if cmd == "reload-force"@ {
        CommandView::ReloadForce
    } else if cmd == "stop"@ {
        CommandView::Stop
    } else if cmd == "scroll-down"@ {
        CommandView::ScrollDown
    } else if cmd == "scroll-up"@ {
        CommandView::ScrollUp
    } else if cmd == "scroll-left"@ {
        CommandView::ScrollLeft
    } else if cmd == "scroll-right"@ {
        CommandView::ScrollRight
    } else if cmd == "scroll-page"@ {
        CommandView::ScrollPage(arg)
    } else if cmd == "scroll-top"@ {
        CommandView::ScrollTop
    } else if cmd == "scroll-bottom"@ {
        CommandView::ScrollBottom
    } else if cmd == "find"@ {
        if arg.len() == 0 { CommandView::Ask(AskKind::Find, Seq::empty()) } else { CommandView::Find(arg) }
    } else if cmd == "find-next"@ {
        CommandView::FindNext
    } else if cmd == "find-prev"@ {
        CommandView::FindPrev
    } else if cmd == "hint"@ {
        CommandView::Hint(false)
    } else if cmd == "hint-tab"@ {
        CommandView::Hint(true)
    } else if cmd == "insert"@ {
        CommandView::Insert
    } else if cmd == "focus-input"@ {
        CommandView::FocusInput
    } else if cmd == "yank"@ {
        CommandView::Yank(if arg == "title"@ { title } else { uri })
    } else if cmd == "paste"@ {
        CommandView::Paste(false)
    } else if cmd == "paste-tab"@ {
        CommandView::Paste(true)
    } else if cmd == "fullscreen"@ {
        CommandView::Fullscreen
    } else if cmd == "dark-default"@ {
        CommandView::DarkDefault
    } else if cmd == "dark-site"@ {
        CommandView::DarkSite
    } else if cmd == "zoom-in"@ {
        CommandView::ZoomIn
    } else if cmd == "zoom-out"@ {
        CommandView::ZoomOut
    } else if cmd == "zoom-reset"@ {
        CommandView::ZoomReset
    } else if cmd == "zoom"@ {
        CommandView::Zoom(arg)
    } else if cmd == "tab-next"@ {
        CommandView::TabNext
    } else if cmd == "tab-prev"@ {
        CommandView::TabPrev
    } else if cmd == "tab-first"@ {
        CommandView::GotoVisible(0)
    } else if cmd == "tab-last"@ {
        { let n = t.shown_below(t.tabs@.len()).len(); CommandView::GotoVisible(if n > 0 { (n - 1) as usize } else { 0 }) }
    } else if cmd == "tab"@ {
        match tab_target_spec(arg) { Some(i) => CommandView::GotoVisible(i), None => CommandView::Message("tab <number>"@) }
    } else if cmd == "tab-move"@ {
        if t.tabs@.len() > i32::MAX || t.active > i32::MAX { CommandView::Overflow } else { match move_delta_spec(arg, t.active, t.tabs@.len() as usize) { Some(d) => CommandView::MoveTab(t.active, d), None => CommandView::Message("tab-move +1 | -1 | <number>"@) } }
    } else if cmd == "close"@ || cmd == "q"@ {
        CommandView::Close(t.active)
    } else if cmd == "undo"@ {
        CommandView::Undo
    } else if cmd == "group"@ {
        if arg.len() == 0 { CommandView::Ask(AskKind::GroupName, Seq::empty()) } else { CommandView::Group(arg) }
    } else if cmd == "ungroup"@ {
        CommandView::Ungroup(t.active)
    } else if cmd == "group-fold"@ {
        CommandView::GroupFold(Some(true))
    } else if cmd == "group-unfold"@ {
        CommandView::GroupFold(Some(false))
    } else if cmd == "group-toggle"@ {
        CommandView::GroupFold(None)
    } else if cmd == "groups-fold"@ {
        CommandView::GroupsFold(true)
    } else if cmd == "groups-unfold"@ {
        CommandView::GroupsFold(false)
    } else if cmd == "group-rename"@ || cmd == "group-color"@ || cmd == "group-close"@ || cmd == "group-collapse"@ || cmd == "group-expand"@ {
        match t.command_group_spec(cmd, arg) { None => CommandView::Message("This tab is in no group"@), Some(g) => if cmd == "group-rename"@ { if arg.len() == 0 { CommandView::Message("group-rename <name>"@) } else { CommandView::GroupRename(g, arg) } } else if cmd == "group-color"@ { CommandView::GroupColor(g, arg) } else if cmd == "group-close"@ { CommandView::GroupClose(g) } else { CommandView::GroupCollapse(g, cmd == "group-collapse"@) } }
    } else if cmd == "group-delete"@ {
        { let name = if arg.len() == 0 { t.current_group_name_spec() } else { arg }; if name.len() == 0 { CommandView::Message("group-delete <name>"@) } else { CommandView::GroupDelete(name) } }
    } else if cmd == "groups"@ {
        CommandView::Message(t.groups_summary_spec())
    } else if cmd == "bookmark-add"@ {
        if !bookmarkable_spec(uri) { CommandView::Message("Nothing to bookmark here"@) } else { CommandView::BookmarkAdd(uri, if arg.len() == 0 { title } else { arg }) }
    } else if cmd == "bookmark-del"@ {
        CommandView::BookmarkDel(if arg.len() == 0 { uri } else { arg })
    } else if cmd == "bookmarks"@ {
        CommandView::Bookmarks
    } else if cmd == "bookmark-import"@ {
        if arg.len() == 0 { CommandView::Message("bookmark-import <bookmarks.html> (Firefox: Manage Bookmarks → Import and Backup → Export)"@) } else { CommandView::BookmarkImport(arg) }
    } else if cmd == "fill"@ {
        CommandView::Fill
    } else if cmd == "passwords"@ {
        CommandView::Passwords
    } else if cmd == "password-import"@ {
        if arg.len() == 0 { CommandView::Message("password-import <file.csv> (Firefox: about:logins → Export)"@) } else { CommandView::PasswordImport(arg) }
    } else if cmd == "password-remove"@ {
        if arg.len() == 0 { CommandView::Message("password-remove <username> (for this site)"@) } else { CommandView::PasswordRemove(arg) }
    } else if cmd == "password-lock"@ {
        CommandView::PasswordLock
    } else if cmd == "password-master"@ {
        if unlocked { CommandView::Ask(AskKind::NewMaster, Seq::empty()) } else { CommandView::Message("Unlock the passwords first (gp), then :password-master"@) }
    } else if cmd == "adblock-update"@ {
        CommandView::AdblockUpdate
    } else if cmd == "bind"@ {
        match bind_args_spec(arg) { None => CommandView::Message("bind <keys> <command>"@), Some(x) => CommandView::Bind(x.0, x.1) }
    } else if cmd == "unbind"@ {
        if arg.len() == 0 { CommandView::Message("unbind <keys>"@) } else { CommandView::Unbind(arg) }
    } else if cmd == "help"@ {
        CommandView::Help
    } else if cmd == "inspect"@ || cmd == "devtools"@ {
        CommandView::Inspect
    } else if cmd == "session-save"@ {
        CommandView::SessionSave
    } else if cmd == "quit"@ || cmd == "qa"@ || cmd == "wq"@ {
        CommandView::Quit
    } else {
        CommandView::Message("Unknown command: "@ + cmd)
    }
}

/// What the command line `line` does; nothing for a blank line.
pub open spec fn command_step_spec(
    line: Seq<char>,
    t: Tabs,
    search: Seq<char>,
    home: Seq<char>,
    player: Seq<char>,
    unlocked: bool,
) -> Option<CommandView> {
    match split_spec(line) {
        None => None,
        Some(x) => Some(command_view(x.0, x.1, trim(x.1), t, search, home, player, unlocked)),
    }
}

fn command_action(
    cmd: &str,
    rest: &str,
    arg: &str,
    tabs: &Tabs,
    search: &str,
    home: &str,
    player: &str,
    unlocked: bool,
) -> (r: CommandAction)
    requires
        arg@ == trim(rest@),
    ensures
        r@ == command_view(cmd@, rest@, arg@, *tabs, search@, home@, player@, unlocked),
{
    let (uri, title) = match tabs.current() {
        Some(c) => (c.uri.clone(), c.title.clone()),
        None => (String::new(), String::new()),
    };
    if str_eq(cmd, "cmd") {
        CommandAction::Ask(AskKind::Command, fill_template(rest, uri.as_str(), title.as_str()))
    } else if str_eq(cmd, "open") || str_eq(cmd, "o") {
        if arg.unicode_len() == 0 { CommandAction::Ask(AskKind::Command, "open ".to_owned()) } else { CommandAction::Open(to_uri(arg, search, home), false) }
    } else if str_eq(cmd, "tabopen") || str_eq(cmd, "t") {
        if arg.unicode_len() == 0 { CommandAction::Ask(AskKind::Command, "tabopen ".to_owned()) } else { CommandAction::Open(to_uri(arg, search, home), true) }
    } else if str_eq(cmd, "play") {
        { let target = if arg.unicode_len() == 0 { uri } else { to_uri(arg, search, home) }; if target.unicode_len() == 0 || player.unicode_len() == 0 { CommandAction::Message("No video player set (video_player in the config)".to_owned()) } else { CommandAction::Play(target) } }
    } else if str_eq(cmd, "home") {
        CommandAction::Home
    } else if str_eq(cmd, "back") {
        CommandAction::Back
    } else if str_eq(cmd, "forward") {
        CommandAction::Forward
    } else if str_eq(cmd, "reload") {
        CommandAction::Reload
    } else if str_eq(cmd, "reload-force") {
        CommandAction::ReloadForce
    } else if str_eq(cmd, "stop") {
        CommandAction::Stop
    } else if str_eq(cmd, "scroll-down") {
        CommandAction::ScrollDown
    } else if str_eq(cmd, "scroll-up") {
        CommandAction::ScrollUp
    } else if str_eq(cmd, "scroll-left") {
        CommandAction::ScrollLeft
    } else if str_eq(cmd, "scroll-right") {
        CommandAction::ScrollRight
    } else if str_eq(cmd, "scroll-page") {
        CommandAction::ScrollPage(arg.to_owned())
    } else if str_eq(cmd, "scroll-top") {
        CommandAction::ScrollTop
    } else if str_eq(cmd, "scroll-bottom") {
        CommandAction::ScrollBottom
    } else if str_eq(cmd, "find") {
        if arg.unicode_len() == 0 { CommandAction::Ask(AskKind::Find, String::new()) } else { CommandAction::Find(arg.to_owned()) }
    } else if str_eq(cmd, "find-next") {
        CommandAction::FindNext
    } else if str_eq(cmd, "find-prev") {
        CommandAction::FindPrev
    } else if str_eq(cmd, "hint") {
        CommandAction::Hint(false)
    } else if str_eq(cmd, "hint-tab") {
        CommandAction::Hint(true)
    } else if str_eq(cmd, "insert") {
        CommandAction::Insert
    } else if str_eq(cmd, "focus-input") {
        CommandAction::FocusInput
    } else if str_eq(cmd, "yank") {
        CommandAction::Yank(if str_eq(arg, "title") { title } else { uri })
    } else if str_eq(cmd, "paste") {
        CommandAction::Paste(false)
    } else if str_eq(cmd, "paste-tab") {
        CommandAction::Paste(true)
    } else if str_eq(cmd, "fullscreen") {
        CommandAction::Fullscreen
    } else if str_eq(cmd, "dark-default") {
        CommandAction::DarkDefault
    } else if str_eq(cmd, "dark-site") {
        CommandAction::DarkSite
    } else if str_eq(cmd, "zoom-in") {
        CommandAction::ZoomIn
    } else if str_eq(cmd, "zoom-out") {
        CommandAction::ZoomOut
    } else if str_eq(cmd, "zoom-reset") {
        CommandAction::ZoomReset
    } else if str_eq(cmd, "zoom") {
        CommandAction::Zoom(arg.to_owned())
    } else if str_eq(cmd, "tab-next") {
        CommandAction::TabNext
    } else if str_eq(cmd, "tab-prev") {
        CommandAction::TabPrev
    } else if str_eq(cmd, "tab-first") {
        CommandAction::GotoVisible(0)
    } else if str_eq(cmd, "tab-last") {
        { let n = tabs.visible_indices().len(); CommandAction::GotoVisible(if n > 0 { n - 1 } else { 0 }) }
    } else if str_eq(cmd, "tab") {
        match tab_target(arg) { Some(i) => CommandAction::GotoVisible(i), None => CommandAction::Message("tab <number>".to_owned()) }
    } else if str_eq(cmd, "tab-move") {
        if tabs.tabs.len() > 2147483647 || tabs.active > 2147483647 { CommandAction::Overflow } else { match move_delta(arg, tabs.active, tabs.tabs.len()) { Some(d) => CommandAction::MoveTab(tabs.active, d), None => CommandAction::Message("tab-move +1 | -1 | <number>".to_owned()) } }
    } else if str_eq(cmd, "close") || str_eq(cmd, "q") {
        CommandAction::Close(tabs.active)
    } else if str_eq(cmd, "undo") {
        CommandAction::Undo
    } else if str_eq(cmd, "group") {
        if arg.unicode_len() == 0 { CommandAction::Ask(AskKind::GroupName, String::new()) } else { CommandAction::Group(arg.to_owned()) }
    } else if str_eq(cmd, "ungroup") {
        CommandAction::Ungroup(tabs.active)
    } else if str_eq(cmd, "group-fold") {
        CommandAction::GroupFold(Some(true))
    } else if str_eq(cmd, "group-unfold") {
        CommandAction::GroupFold(Some(false))
    } else if str_eq(cmd, "group-toggle") {
        CommandAction::GroupFold(None)
    } else if str_eq(cmd, "groups-fold") {
        CommandAction::GroupsFold(true)
    } else if str_eq(cmd, "groups-unfold") {
        CommandAction::GroupsFold(false)
    } else if str_eq(cmd, "group-rename") || str_eq(cmd, "group-color") || str_eq(cmd, "group-close") || str_eq(cmd, "group-collapse") || str_eq(cmd, "group-expand") {
        match tabs.command_group(cmd, arg) { None => CommandAction::Message("This tab is in no group".to_owned()), Some(g) => if str_eq(cmd, "group-rename") { if arg.unicode_len() == 0 { CommandAction::Message("group-rename <name>".to_owned()) } else { CommandAction::GroupRename(g, arg.to_owned()) } } else if str_eq(cmd, "group-color") { CommandAction::GroupColor(g, arg.to_owned()) } else if str_eq(cmd, "group-close") { CommandAction::GroupClose(g) } else { CommandAction::GroupCollapse(g, str_eq(cmd, "group-collapse")) } }
    } else if str_eq(cmd, "group-delete") {
        { let name = if arg.unicode_len() == 0 { tabs.current_group_name() } else { arg.to_owned() }; if name.unicode_len() == 0 { CommandAction::Message("group-delete <name>".to_owned()) } else { CommandAction::GroupDelete(name) } }
    } else if str_eq(cmd, "groups") {
        CommandAction::Message(tabs.groups_summary())
    } else if str_eq(cmd, "bookmark-add") {
        if !bookmarkable(uri.as_str()) { CommandAction::Message("Nothing to bookmark here".to_owned()) } else { CommandAction::BookmarkAdd(uri, if arg.unicode_len() == 0 { title } else { arg.to_owned() }) }
    } else if str_eq(cmd, "bookmark-del") {
        CommandAction::BookmarkDel(if arg.unicode_len() == 0 { uri } else { arg.to_owned() })
    } else if str_eq(cmd, "bookmarks") {
        CommandAction::Bookmarks
    } else if str_eq(cmd, "bookmark-import") {
        if arg.unicode_len() == 0 { CommandAction::Message("bookmark-import <bookmarks.html> (Firefox: Manage Bookmarks → Import and Backup → Export)".to_owned()) } else { CommandAction::BookmarkImport(arg.to_owned()) }
    } else if str_eq(cmd, "fill") {
        CommandAction::Fill
    } else if str_eq(cmd, "passwords") {
        CommandAction::Passwords
    } else if str_eq(cmd, "password-import") {
        if arg.unicode_len() == 0 { CommandAction::Message("password-import <file.csv> (Firefox: about:logins → Export)".to_owned()) } else { CommandAction::PasswordImport(arg.to_owned()) }
    } else if str_eq(cmd, "password-remove") {
        if arg.unicode_len() == 0 { CommandAction::Message("password-remove <username> (for this site)".to_owned()) } else { CommandAction::PasswordRemove(arg.to_owned()) }
    } else if str_eq(cmd, "password-lock") {
        CommandAction::PasswordLock
    } else if str_eq(cmd, "password-master") {
        if unlocked { CommandAction::Ask(AskKind::NewMaster, String::new()) } else { CommandAction::Message("Unlock the passwords first (gp), then :password-master".to_owned()) }
    } else if str_eq(cmd, "adblock-update") {
        CommandAction::AdblockUpdate
    } else if str_eq(cmd, "bind") {
        match bind_args(arg) { None => CommandAction::Message("bind <keys> <command>".to_owned()), Some((k, c)) => CommandAction::Bind(k, c) }
    } else if str_eq(cmd, "unbind") {
        if arg.unicode_len() == 0 { CommandAction::Message("unbind <keys>".to_owned()) } else { CommandAction::Unbind(arg.to_owned()) }
    } else if str_eq(cmd, "help") {
        CommandAction::Help
    } else if str_eq(cmd, "inspect") || str_eq(cmd, "devtools") {
        CommandAction::Inspect
    } else if str_eq(cmd, "session-save") {
        CommandAction::SessionSave
    } else if str_eq(cmd, "quit") || str_eq(cmd, "qa") || str_eq(cmd, "wq") {
        CommandAction::Quit
    } else {
        let mut m = chars_of("Unknown command: ");
        m = concat_chars(&m, &chars_of(cmd));
        CommandAction::Message(string_of(m.as_slice()))
    }
}

/// What the command line `line` does, given the tabs, the search URL
/// (`%s` for what is typed), the home directory, the video player (empty
/// for none) and whether the passwords are unlocked; nothing for a blank
/// line.
pub fn command_step(
    line: &str,
    tabs: &Tabs,
    search: &str,
    home: &str,
    player: &str,
    unlocked: bool,
) -> (r: Option<CommandAction>)
    ensures
        match command_step_spec(line@, *tabs, search@, home@, player@, unlocked) {
            None => r is None,
            Some(v) => r matches Some(a) && a@ == v,
        },
{
    match split_command(line) {
        None => None,
        Some(c) => Some(command_action(c.cmd.as_str(), c.rest.as_str(), c.arg.as_str(), tabs, search, home, player, unlocked)),
    }
}

} // verus!
