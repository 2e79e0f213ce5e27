//! The command line: the commands there are, how a typed line splits into
//! a command and its argument, and what the line offers to complete.

use vstd::prelude::*;
use crate::config::{replace_all, replace_chars};
use crate::passwords::{digits_value, all_digits, parse_u64, parse_u64_spec, unsigned_digits};
use crate::seqs::first_index;
use crate::history::{hit, lowercase, query_words, to_lowercase};
use crate::text::{
    decimal, chars_of, concat_chars, find_char, is_char, slice_chars, starts_with, starts_with_exec,
    string_of, trim, trim_chars, trim_start, trim_start_at, words, words_of, char_lines, same_chars,
};

verus! {

/// Every command, with the group the help page lists it under, how it is
/// written, and what it does.
pub open spec fn command_list() -> Seq<(Seq<char>, Seq<char>, Seq<char>)> {
    seq![
        ("Open and go"@, "open [url]"@, "open a URL, a search or a file here; asks when given nothing"@),
        ("Open and go"@, "tabopen [url]"@, "the same in a new tab"@),
        ("Open and go"@, "cmd <text>"@, "open the command line with this text; {url} and {title} are filled in"@),
        ("Open and go"@, "back"@, "go back"@),
        ("Open and go"@, "forward"@, "go forward"@),
        ("Open and go"@, "reload"@, "reload"@),
        ("Open and go"@, "reload-force"@, "reload without the cache"@),
        ("Open and go"@, "stop"@, "stop loading"@),
        ("Open and go"@, "home"@, "the home page from config.yml"@),
        ("On the page"@, "hint"@, "type the letters on a link to follow it"@),
        ("On the page"@, "hint-tab"@, "the same, into a background tab"@),
        ("On the page"@, "insert"@, "insert mode: keys go to the page until Esc"@),
        ("On the page"@, "focus-input"@, "focus the first field on the page"@),
        ("On the page"@, "scroll-down"@, "scroll"@),
        ("On the page"@, "scroll-up"@, ""@),
        ("On the page"@, "scroll-left"@, ""@),
        ("On the page"@, "scroll-right"@, ""@),
        ("On the page"@, "scroll-page <share>"@, "scroll by a share of the window; 0.5 is half a page down, -0.5 up"@),
        ("On the page"@, "scroll-top"@, "to the top"@),
        ("On the page"@, "scroll-bottom"@, "to the bottom"@),
        ("On the page"@, "find [text]"@, "find on the page; asks when given nothing"@),
        ("On the page"@, "find-next"@, ""@),
        ("On the page"@, "find-prev"@, ""@),
        ("Copy, zoom, view"@, "yank url|title"@, "copy to the clipboard"@),
        ("Copy, zoom, view"@, "paste"@, "open what the clipboard holds here"@),
        ("Copy, zoom, view"@, "paste-tab"@, "the same in a new tab"@),
        ("Copy, zoom, view"@, "zoom-in"@, ""@),
        ("Copy, zoom, view"@, "zoom-out"@, ""@),
        ("Copy, zoom, view"@, "zoom-reset"@, ""@),
        ("Copy, zoom, view"@, "zoom <percent>"@, ""@),
        ("Copy, zoom, view"@, "fullscreen"@, "hide the tab bar and the status line; again to bring them back"@),
        ("Copy, zoom, view"@, "dark-default"@, "flip the default for dark pages: every site is asked for its dark style, and the ones with none are turned around; the sites you set keep theirs"@),
        ("Copy, zoom, view"@, "dark-site"@, "dark pages on or off for this site, kept for next time"@),
        ("Copy, zoom, view"@, "play"@, "play this page's video in the video player"@),
        ("Tabs"@, "tab-next"@, "the next visible tab"@),
        ("Tabs"@, "tab-prev"@, "the previous one"@),
        ("Tabs"@, "tab <n>"@, "the n-th visible tab"@),
        ("Tabs"@, "tab-first"@, ""@),
        ("Tabs"@, "tab-last"@, ""@),
        ("Tabs"@, "tab-move +1|-1|<n>"@, "move this tab"@),
        ("Tabs"@, "close"@, "close this tab"@),
        ("Tabs"@, "undo"@, "bring back the last closed tab"@),
        ("Tab groups"@, "group [name]"@, "put this tab in the group, made on the spot when new; asks for the name when given none"@),
        ("Tab groups"@, "ungroup"@, "take it out again"@),
        ("Tab groups"@, "group-fold"@, "fold this tab's group away"@),
        ("Tab groups"@, "group-unfold"@, ""@),
        ("Tab groups"@, "group-toggle"@, ""@),
        ("Tab groups"@, "groups-fold"@, "fold every group"@),
        ("Tab groups"@, "groups-unfold"@, ""@),
        ("Tab groups"@, "group-rename <name>"@, ""@),
        ("Tab groups"@, "group-color <colour>"@, "blue red yellow green pink purple orange cyan gray, or #rrggbb"@),
        ("Tab groups"@, "group-close"@, "close every tab of the group"@),
        ("Tab groups"@, "group-delete [name]"@, "drop an empty group"@),
        ("Tab groups"@, "groups"@, "list the groups"@),
        ("Bookmarks"@, "bookmark-add [title]"@, "bookmark this page"@),
        ("Bookmarks"@, "bookmark-del [url]"@, "forget this page's bookmark"@),
        ("Bookmarks"@, "bookmarks"@, "the list, at gaze://bookmarks"@),
        ("Bookmarks"@, "bookmark-import <file>"@, "read a Firefox HTML export"@),
        ("Passwords"@, "fill"@, "fill the login form; again for the next saved login of the site"@),
        ("Passwords"@, "passwords"@, "list the sites and usernames"@),
        ("Passwords"@, "password-import <csv>"@, "read the CSV Firefox writes from about:logins → Export, then delete it"@),
        ("Passwords"@, "password-remove <username>"@, "forget one login for this site"@),
        ("Passwords"@, "password-lock"@, "lock the store for this session"@),
        ("Passwords"@, "password-master"@, "choose a new master password"@),
        ("Other"@, "bind <keys> <command>"@, "bind keys; kept in ~/.gaze/keys.yml"@),
        ("Other"@, "unbind <keys>"@, ""@),
        ("Other"@, "adblock-update"@, "fetch the hosts list again and rebuild the ad blocker"@),
        ("Other"@, "help"@, "this page"@),
        ("Other"@, "inspect"@, "the web inspector"@),
        ("Other"@, "session-save"@, ""@),
        ("Other"@, "quit"@, ""@)
    ]
}

/// A row of the command table as plain values.
pub open spec fn row_view(r: (&str, &str, &str)) -> (Seq<char>, Seq<char>, Seq<char>) {
    (r.0@, r.1@, r.2@)
}

/// Every command: its group, how it is written, and what it does.
pub fn commands() -> (r: Vec<(&'static str, &'static str, &'static str)>)
    ensures
        r@.map_values(|x: (&str, &str, &str)| row_view(x)) == command_list(),
{
    let mut v: Vec<(&'static str, &'static str, &'static str)> = Vec::new();
    v.push(("Open and go", "open [url]", "open a URL, a search or a file here; asks when given nothing"));
    v.push(("Open and go", "tabopen [url]", "the same in a new tab"));
    v.push(("Open and go", "cmd <text>", "open the command line with this text; {url} and {title} are filled in"));
    v.push(("Open and go", "back", "go back"));
    v.push(("Open and go", "forward", "go forward"));
    v.push(("Open and go", "reload", "reload"));
    v.push(("Open and go", "reload-force", "reload without the cache"));
    v.push(("Open and go", "stop", "stop loading"));
    v.push(("Open and go", "home", "the home page from config.yml"));
    v.push(("On the page", "hint", "type the letters on a link to follow it"));
    v.push(("On the page", "hint-tab", "the same, into a background tab"));
    v.push(("On the page", "insert", "insert mode: keys go to the page until Esc"));
    v.push(("On the page", "focus-input", "focus the first field on the page"));
    v.push(("On the page", "scroll-down", "scroll"));
    v.push(("On the page", "scroll-up", ""));
    v.push(("On the page", "scroll-left", ""));
    v.push(("On the page", "scroll-right", ""));
    v.push(("On the page", "scroll-page <share>", "scroll by a share of the window; 0.5 is half a page down, -0.5 up"));
    v.push(("On the page", "scroll-top", "to the top"));
    v.push(("On the page", "scroll-bottom", "to the bottom"));
    v.push(("On the page", "find [text]", "find on the page; asks when given nothing"));
    v.push(("On the page", "find-next", ""));
    v.push(("On the page", "find-prev", ""));
    v.push(("Copy, zoom, view", "yank url|title", "copy to the clipboard"));
    v.push(("Copy, zoom, view", "paste", "open what the clipboard holds here"));
    v.push(("Copy, zoom, view", "paste-tab", "the same in a new tab"));
    v.push(("Copy, zoom, view", "zoom-in", ""));
    v.push(("Copy, zoom, view", "zoom-out", ""));
    v.push(("Copy, zoom, view", "zoom-reset", ""));
    v.push(("Copy, zoom, view", "zoom <percent>", ""));
    v.push(("Copy, zoom, view", "fullscreen", "hide the tab bar and the status line; again to bring them back"));
    v.push(("Copy, zoom, view", "dark-default", "flip the default for dark pages: every site is asked for its dark style, and the ones with none are turned around; the sites you set keep theirs"));
    v.push(("Copy, zoom, view", "dark-site", "dark pages on or off for this site, kept for next time"));
    v.push(("Copy, zoom, view", "play", "play this page's video in the video player"));
    v.push(("Tabs", "tab-next", "the next visible tab"));
    v.push(("Tabs", "tab-prev", "the previous one"));
    v.push(("Tabs", "tab <n>", "the n-th visible tab"));
    v.push(("Tabs", "tab-first", ""));
    v.push(("Tabs", "tab-last", ""));
    v.push(("Tabs", "tab-move +1|-1|<n>", "move this tab"));
    v.push(("Tabs", "close", "close this tab"));
    v.push(("Tabs", "undo", "bring back the last closed tab"));
    v.push(("Tab groups", "group [name]", "put this tab in the group, made on the spot when new; asks for the name when given none"));
    v.push(("Tab groups", "ungroup", "take it out again"));
    v.push(("Tab groups", "group-fold", "fold this tab's group away"));
    v.push(("Tab groups", "group-unfold", ""));
    v.push(("Tab groups", "group-toggle", ""));
    v.push(("Tab groups", "groups-fold", "fold every group"));
    v.push(("Tab groups", "groups-unfold", ""));
    v.push(("Tab groups", "group-rename <name>", ""));
    v.push(("Tab groups", "group-color <colour>", "blue red yellow green pink purple orange cyan gray, or #rrggbb"));
    v.push(("Tab groups", "group-close", "close every tab of the group"));
    v.push(("Tab groups", "group-delete [name]", "drop an empty group"));
    v.push(("Tab groups", "groups", "list the groups"));
    v.push(("Bookmarks", "bookmark-add [title]", "bookmark this page"));
    v.push(("Bookmarks", "bookmark-del [url]", "forget this page's bookmark"));
    v.push(("Bookmarks", "bookmarks", "the list, at gaze://bookmarks"));
    v.push(("Bookmarks", "bookmark-import <file>", "read a Firefox HTML export"));
    v.push(("Passwords", "fill", "fill the login form; again for the next saved login of the site"));
    v.push(("Passwords", "passwords", "list the sites and usernames"));
    v.push(("Passwords", "password-import <csv>", "read the CSV Firefox writes from about:logins → Export, then delete it"));
    v.push(("Passwords", "password-remove <username>", "forget one login for this site"));
    v.push(("Passwords", "password-lock", "lock the store for this session"));
    v.push(("Passwords", "password-master", "choose a new master password"));
    v.push(("Other", "bind <keys> <command>", "bind keys; kept in ~/.gaze/keys.yml"));
    v.push(("Other", "unbind <keys>", ""));
    v.push(("Other", "adblock-update", "fetch the hosts list again and rebuild the ad blocker"));
    v.push(("Other", "help", "this page"));
    v.push(("Other", "inspect", "the web inspector"));
    v.push(("Other", "session-save", ""));
    v.push(("Other", "quit", ""));
    assert(v@.map_values(|x: (&str, &str, &str)| row_view(x)) =~= command_list());
    v
}

/// A typed command line, split: the command, its argument trimmed, and
/// everything after the first space as it stands.
pub struct CommandLine {
    pub cmd: String,
    pub arg: String,
    pub rest: String,
}

/// How a line splits: `None` for a blank line, else the command (the
/// text before the first space, trimmed) and what follows that space.
pub open spec fn split_spec(line: Seq<char>) -> Option<(Seq<char>, Seq<char>)> {
    let l = trim_start(line);
    if trim(line).len() == 0 {
        None
    } else {
        match first_index(l, is_char(' ')) {
            Some(i) => Some((trim(l.take(i)), l.skip(i + 1))),
            None => Some((trim(l), Seq::empty())),
        }
    }
}

/// A typed line split into the command and its argument; nothing for a
/// blank line.
pub fn split_command(line: &str) -> (r: Option<CommandLine>)
    ensures
        match split_spec(line@) {
            None => r is None,
            Some(x) => r matches Some(c) && c.cmd@ == x.0 && c.rest@ == x.1 && c.arg@ == trim(x.1),
        },
{
    let all = chars_of(line);
    if trim_chars(&all).len() == 0 {
        return None;
    }
    let from = trim_start_at(&all);
    let l = slice_chars(&all, from, all.len());
    assert(l@ =~= trim_start(line@));
    let (cmd, rest) = match find_char(&l, ' ') {
        Some(i) => {
            assert(l@.subrange(0, i as int) =~= l@.take(i as int));
            assert(l@.subrange(i + 1, l@.len() as int) =~= l@.skip(i + 1));
            (trim_chars(&slice_chars(&l, 0, i)), slice_chars(&l, i + 1, l.len()))
        },
        None => {
            assert(l@.subrange(0, l@.len() as int) =~= l@);
            (trim_chars(&slice_chars(&l, 0, l.len())), Vec::new())
        },
    };
    let arg = trim_chars(&rest);
    Some(CommandLine {
        cmd: string_of(cmd.as_slice()),
        arg: string_of(arg.as_slice()),
        rest: string_of(rest.as_slice()),
    })
}

/// The text of a `cmd` binding with `{url}` and `{title}` filled in.
pub open spec fn template_spec(text: Seq<char>, uri: Seq<char>, title: Seq<char>) -> Seq<char> {
    replace_all(replace_all(trim_start(text), "{url}"@, uri), "{title}"@, title)
}

/// The text of a `cmd` binding, leading white space dropped, with
/// `{url}` and `{title}` made the current page's.
pub fn fill_template(text: &str, uri: &str, title: &str) -> (r: String)
    ensures
        r@ == template_spec(text@, uri@, title@),
{
    proof {
        reveal_strlit("{url}");
        reveal_strlit("{title}");
    }
    let all = chars_of(text);
    let from = trim_start_at(&all);
    let t = slice_chars(&all, from, all.len());
    assert(t@ =~= trim_start(text@));
    let a = replace_chars(&t, &chars_of("{url}"), &chars_of(uri));
    let b = replace_chars(&a, &chars_of("{title}"), &chars_of(title));
    string_of(b.as_slice())
}

/// What `usize::from_str` gives on this machine.
pub open spec fn parse_usize_spec(s: Seq<char>) -> Option<usize> {
    match parse_u64_spec(s) {
        Some(n) => if n <= usize::MAX {
            Some(n as usize)
        } else {
            None
        },
        None => None,
    }
}

/// `s` as a `usize`, as `usize::from_str` reads it.
fn parse_usize(s: &Vec<char>) -> (r: Option<usize>)
    ensures
        r == parse_usize_spec(s@),
{
    match parse_u64(s) {
        Some(n) => if n <= usize::MAX as u64 {
            Some(n as usize)
        } else {
            None
        },
        None => None,
    }
}

/// The tab `tab <n>` goes to: the n-th visible one, counted from 1.
pub open spec fn tab_target_spec(arg: Seq<char>) -> Option<usize> {
    match parse_usize_spec(arg) {
        Some(n) => if n >= 1 {
            Some((n - 1) as usize)
        } else {
            None
        },
        None => None,
    }
}

/// Where `tab <n>` goes, counted from 0; nothing for what is no number
/// from 1 on.
pub fn tab_target(arg: &str) -> (r: Option<usize>)
    ensures
        r == tab_target_spec(arg@),
{
    match parse_usize(&chars_of(arg)) {
        Some(n) => if n >= 1 {
            Some(n - 1)
        } else {
            None
        },
        None => None,
    }
}

/// What `i32::from_str` gives: an optional sign, then one or more decimal
/// digits whose number fits.
pub open spec fn parse_i32_spec(s: Seq<char>) -> Option<i32> {
    let neg = s.len() > 0 && s[0] == '-';
    let d = if neg {
        s.drop_first()
    } else {
        unsigned_digits(s)
    };
    if d.len() == 0 || !all_digits(d) {
        None
    } else if neg {
        if digits_value(d) <= 0x8000_0000 {
            Some((-digits_value(d)) as i32)
        } else {
            None
        }
    } else if digits_value(d) <= 0x7fff_ffff {
        Some(digits_value(d) as i32)
    } else {
        None
    }
}

/// `s` as an `i32`, as `i32::from_str` reads it.
fn parse_i32(s: &Vec<char>) -> (r: Option<i32>)
    ensures
        r == parse_i32_spec(s@),
{
    if s.len() > 0 && s[0] == '-' {
        let rest = slice_chars(s, 1, s.len());
        assert(rest@ =~= s@.drop_first());
        if rest.len() > 0 && rest[0] == '+' {
            assert(!crate::passwords::is_digit(rest@[0]));
            assert(!all_digits(rest@));
            return None;
        }
        assert(unsigned_digits(rest@) == rest@);
        match parse_u64(&rest) {
            Some(n) => {
                proof {
                    crate::passwords::lemma_digits_nonneg(rest@);
                }
                assert(n == digits_value(rest@));
                if n <= 0x8000_0000 {
                    let v: i64 = 0 - (n as i64);
                    let r = v as i32;
                    assert(r == -digits_value(rest@));
                    Some(r)
                } else {
                    None
                }
            },
            None => None,
        }
    } else {
        assert(!(s@.len() > 0 && s@[0] == '-'));
        match parse_u64(s) {
            Some(n) => {
                proof {
                    crate::passwords::lemma_digits_nonneg(unsigned_digits(s@));
                }
                assert(n == digits_value(unsigned_digits(s@)));
                if n <= 0x7fff_ffff {
                    Some(n as i32)
                } else {
                    None
                }
            },
            None => None,
        }
    }
}

/// How far `tab-move <arg>` moves the tab at `idx` of `len`: a signed
/// step for `+n` and `-n`, else to the n-th tab, counted from 1.
pub open spec fn move_delta_spec(arg: Seq<char>, idx: usize, len: usize) -> Option<i32> {
    if arg.len() > 0 && (arg[0] == '+' || arg[0] == '-') {
        parse_i32_spec(arg)
    } else {
        match parse_usize_spec(arg) {
            Some(n) => if 1 <= n <= len {
                Some((n - 1 - idx) as i32)
            } else {
                None
            },
            None => None,
        }
    }
}

/// How far `tab-move <arg>` moves the tab at `idx` among `len` tabs.
pub fn move_delta(arg: &str, idx: usize, len: usize) -> (r: Option<i32>)
    requires
        len <= i32::MAX,
        idx <= i32::MAX,
    ensures
        r == move_delta_spec(arg@, idx, len),
{
    let a = chars_of(arg);
    if a.len() > 0 && (a[0] == '+' || a[0] == '-') {
        parse_i32(&a)
    } else {
        match parse_usize(&a) {
            Some(n) => if 1 <= n && n <= len {
                Some(n as i32 - 1 - idx as i32)
            } else {
                None
            },
            None => None,
        }
    }
}

/// The keys and the command of `bind <keys> <command>`: split at the
/// first space, both trimmed.
pub open spec fn bind_args_spec(arg: Seq<char>) -> Option<(Seq<char>, Seq<char>)> {
    match first_index(arg, is_char(' ')) {
        Some(i) => Some((trim(arg.take(i)), trim(arg.skip(i + 1)))),
        None => None,
    }
}

/// The keys and the command of `bind <keys> <command>`.
pub fn bind_args(arg: &str) -> (r: Option<(String, String)>)
    ensures
        match bind_args_spec(arg@) {
            None => r is None,
            Some(x) => r matches Some(p) && p.0@ == x.0 && p.1@ == x.1,
        },
{
    let a = chars_of(arg);
    match find_char(&a, ' ') {
        Some(i) => {
            assert(a@.subrange(0, i as int) =~= a@.take(i as int));
            assert(a@.subrange(i + 1, a@.len() as int) =~= a@.skip(i + 1));
            assert(i < a.len());
            let k = trim_chars(&slice_chars(&a, 0, i));
            let c = trim_chars(&slice_chars(&a, i + 1, a.len()));
            Some((string_of(k.as_slice()), string_of(c.as_slice())))
        },
        None => None,
    }
}

/// The verbs that open a page.
pub open spec fn opens(verb: Seq<char>) -> bool {
    verb == "open"@ || verb == "o"@ || verb == "tabopen"@ || verb == "t"@
}

/// The verb and the query of an open prompt: the text split at its first
/// space, when what comes before it opens a page.
pub open spec fn open_query_spec(text: Seq<char>) -> Option<(Seq<char>, Seq<char>)> {
    match first_index(text, is_char(' ')) {
        Some(i) => if opens(text.take(i)) {
            Some((text.take(i), text.skip(i + 1)))
        } else {
            None
        },
        None => None,
    }
}

/// `v` is one of the verbs that open a page.
fn opens_exec(v: &Vec<char>) -> (r: bool)
    ensures
        r == opens(v@),
{
    same_chars(v, &chars_of("open")) || same_chars(v, &chars_of("o")) || same_chars(
        v,
        &chars_of("tabopen"),
    ) || same_chars(v, &chars_of("t"))
}

/// The verb and the query of an open prompt, or nothing for any other
/// text.
pub fn open_query(text: &str) -> (r: Option<(String, String)>)
    ensures
        match open_query_spec(text@) {
            None => r is None,
            Some(x) => r matches Some(p) && p.0@ == x.0 && p.1@ == x.1,
        },
{
    let t = chars_of(text);
    match find_char(&t, ' ') {
        Some(i) => {
            assert(i < t.len());
            let verb = slice_chars(&t, 0, i);
            assert(verb@ =~= t@.take(i as int));
            if opens_exec(&verb) {
                let q = slice_chars(&t, i + 1, t.len());
                assert(q@ =~= t@.skip(i + 1));
                Some((string_of(verb.as_slice()), string_of(q.as_slice())))
            } else {
                None
            }
        },
        None => None,
    }
}

/// The offer Tab or Shift-Tab picks next among `n`: one on in direction
/// `dir`, around at either end; the first or the last when none is
/// picked yet.
pub open spec fn complete_step_spec(selected: Option<usize>, n: usize, dir: i32) -> Option<usize> {
    if n == 0 {
        None
    } else {
        match selected {
            Some(i) => Some(((i + dir) % (n as int)) as usize),
            None => if dir > 0 {
                Some(0)
            } else {
                Some((n - 1) as usize)
            },
        }
    }
}

/// The offer picked next.
pub fn complete_step(selected: Option<usize>, n: usize, dir: i32) -> (r: Option<usize>)
    requires
        n <= i32::MAX,
        selected matches Some(i) ==> i < n,
    ensures
        r == complete_step_spec(selected, n, dir),
{
    if n == 0 {
        return None;
    }
    match selected {
        Some(i) => {
            let s: i64 = i as i64 + dir as i64;
            let m: u64 = n as u64;
            if s >= 0 {
                let r = ((s as u64) % m) as usize;
                Some(r)
            } else {
                let k: u64 = ((0 - s) as u64) % m;
                proof {
                    let mi = m as int;
                    let si = s as int;
                    vstd::arithmetic::div_mod::lemma_fundamental_div_mod(0 - si, mi);
                    let q1 = (0 - si) / mi;
                    assert(0 - si == mi * q1 + k);
                    if k == 0 {
                        assert(mi * (0 - q1) == 0 - mi * q1) by (nonlinear_arith);
                        vstd::arithmetic::div_mod::lemma_fundamental_div_mod_converse(si, mi, 0 - q1, 0);
                    } else {
                        assert(mi * (0 - q1 - 1) == 0 - mi * q1 - mi) by (nonlinear_arith);
                        vstd::arithmetic::div_mod::lemma_fundamental_div_mod_converse(si, mi, 0 - q1 - 1, mi - k);
                    }
                }
                if k == 0 {
                    Some(0)
                } else {
                    Some((m - k) as usize)
                }
            }
        },
        None => if dir > 0 {
            Some(0)
        } else {
            Some(n - 1)
        },
    }
}

/// Which saved login `gp` fills: the first after a page load, else the
/// one after the last filled, around at the end.
pub open spec fn fill_index_spec(first: bool, last: Option<usize>, n: usize) -> usize {
    match last {
        Some(l) => if first {
            0
        } else {
            ((l + 1) % (n as int)) as usize
        },
        None => 0,
    }
}

/// Which of `n` saved logins to fill.
pub fn fill_index(first: bool, last: Option<usize>, n: usize) -> (r: usize)
    requires
        n > 0,
        last matches Some(l) ==> l < usize::MAX,
    ensures
        r == fill_index_spec(first, last, n),
        r < n,
{
    match last {
        Some(l) => if first {
            0
        } else {
            (l + 1) % n
        },
        None => 0,
    }
}

/// Text made safe inside HTML: `&`, `<`, `>` and `"` written as
/// character references.
pub open spec fn escape_html_spec(s: Seq<char>) -> Seq<char> {
    replace_all(
        replace_all(replace_all(replace_all(s, "&"@, "&amp;"@), "<"@, "&lt;"@), ">"@, "&gt;"@),
        "\""@,
        "&quot;"@,
    )
}

/// Text made safe inside HTML.
pub fn escape_html(s: &str) -> (r: String)
    ensures
        r@ == escape_html_spec(s@),
{
    proof {
        reveal_strlit("&");
        reveal_strlit("<");
        reveal_strlit(">");
        reveal_strlit("\"");
    }
    let a = replace_chars(&chars_of(s), &chars_of("&"), &chars_of("&amp;"));
    let b = replace_chars(&a, &chars_of("<"), &chars_of("&lt;"));
    let c = replace_chars(&b, &chars_of(">"), &chars_of("&gt;"));
    let d = replace_chars(&c, &chars_of("\""), &chars_of("&quot;"));
    string_of(d.as_slice())
}

/// One row the command line offers: what goes on the line when it is
/// picked, the two columns shown, and whether it is a bookmark.
pub struct Offer {
    pub line: String,
    pub left: String,
    pub right: String,
    pub star: bool,
}

/// An offer as plain values.
pub open spec fn offer_view(o: Offer) -> (Seq<char>, Seq<char>, Seq<char>, bool) {
    (o.line@, o.left@, o.right@, o.star)
}

/// Offers as plain values.
pub open spec fn offer_views(v: Seq<Offer>) -> Seq<(Seq<char>, Seq<char>, Seq<char>, bool)> {
    v.map_values(|o: Offer| offer_view(o))
}

/// The command names that begin with `text`, each once, in the order of
/// the table: the name and a space to go on the line, how the command is
/// written and what it does.
pub open spec fn name_offers(rows: Seq<(Seq<char>, Seq<char>, Seq<char>)>, text: Seq<char>) -> Seq<
    (Seq<char>, Seq<char>, Seq<char>, bool),
>
    decreases rows.len(),
{
    if rows.len() == 0 {
        Seq::empty()
    } else {
        let before = name_offers(rows.drop_last(), text);
        let row = rows.last();
        let w = words(row.1);
        if w.len() > 0 && starts_with(w[0], text) && !(exists|k: int|
            0 <= k < before.len() && #[trigger] before[k].0 == w[0].push(' ')) {
            before.push((w[0].push(' '), row.1, row.2, false))
        } else {
            before
        }
    }
}

/// What the command line offers for text without a space: the first
/// twelve commands whose names begin with it, none for no text.
pub open spec fn command_offers_spec(text: Seq<char>) -> Seq<(Seq<char>, Seq<char>, Seq<char>, bool)> {
    let all = name_offers(command_list(), text);
    if text.len() == 0 {
        Seq::empty()
    } else if all.len() > 12 {
        all.take(12)
    } else {
        all
    }
}

/// The offers for a command name being typed.
pub fn command_offers(text: &str) -> (r: Vec<Offer>)
    ensures
        offer_views(r@) == command_offers_spec(text@),
{
    let t = chars_of(text);
    let mut out: Vec<Offer> = Vec::new();
    if t.len() == 0 {
        assert(offer_views(out@) =~= Seq::<(Seq<char>, Seq<char>, Seq<char>, bool)>::empty());
        return out;
    }
    let rows = commands();
    let ghost rv = rows@.map_values(|x: (&str, &str, &str)| row_view(x));
    let mut i: usize = 0;
    assert(offer_views(out@) =~= name_offers(rv.take(0), text@));
    while i < rows.len()
        invariant
            i <= rows@.len(),
            rv == rows@.map_values(|x: (&str, &str, &str)| row_view(x)),
            t@ == text@,
            offer_views(out@) == name_offers(rv.take(i as int), text@),
        decreases rows@.len() - i,
    {
        assert(rv.take(i + 1).drop_last() =~= rv.take(i as int));
        assert(rv.take(i + 1).last() == rv[i as int]);
        let (_, cmd, what) = rows[i];
        let ws = words_of(&chars_of(cmd));
        assert(char_lines(ws@).len() == ws@.len());
        if ws.len() > 0 && starts_with_exec(&ws[0], &t) {
            assert(char_lines(ws@)[0] == ws@[0]@);
            let mut line = slice_chars(&ws[0], 0, ws[0].len());
            line.push(' ');
            assert(line@ =~= ws@[0]@.push(' '));
            let ghost before = offer_views(out@);
            let mut k: usize = 0;
            let mut seen = false;
            while k < out.len()
                invariant
                    k <= out@.len(),
                    before == offer_views(out@),
                    seen == exists|j: int| 0 <= j < k && #[trigger] before[j].0 == line@,
                decreases out@.len() - k,
            {
                assert(before[k as int].0 == out@[k as int].line@);
                if crate::text::str_is(out[k].line.as_str(), &line) {
                    seen = true;
                }
                k += 1;
            }
            if !seen {
                out.push(Offer {
                    line: string_of(line.as_slice()),
                    left: cmd.to_owned(),
                    right: what.to_owned(),
                    star: false,
                });
                assert(offer_views(out@) =~= before.push((line@, rv[i as int].1, rv[i as int].2, false)));
            }
        } else {
            proof {
                if ws@.len() > 0 {
                    assert(char_lines(ws@)[0] == ws@[0]@);
                }
            }
        }
        i += 1;
    }
    assert(rv.take(rv.len() as int) =~= rv);
    assert(rv == command_list());
    if out.len() > 12 {
        let ghost all = offer_views(out@);
        out.truncate(12);
        assert(offer_views(out@) =~= all.take(12));
    }
    out
}

/// `a`, a space, then `b`.
pub open spec fn spaced(a: Seq<char>, b: Seq<char>) -> Seq<char> {
    a + seq![' '] + b
}

/// What the command line offers after `group-color`: the colour names that
/// begin with `arg`, with their values.
pub open spec fn color_offers_spec(cmd: Seq<char>, arg: Seq<char>, k: int) -> Seq<
    (Seq<char>, Seq<char>, Seq<char>, bool),
>
    decreases k,
{
    if k <= 0 {
        Seq::empty()
    } else {
        let before = color_offers_spec(cmd, arg, k - 1);
        let name = crate::tabs::color_names()[k - 1];
        if starts_with(name, arg) {
            before.push((spaced(cmd, name), name, crate::tabs::color_values()[k - 1], false))
        } else {
            before
        }
    }
}

/// The colours offered after `group-color`.
pub fn color_offers(cmd: &str, arg: &str) -> (r: Vec<Offer>)
    ensures
        offer_views(r@) == color_offers_spec(cmd@, arg@, 9),
{
    let a = chars_of(arg);
    let c = chars_of(cmd);
    let mut out: Vec<Offer> = Vec::new();
    let mut i: usize = 0;
    assert(offer_views(out@) =~= color_offers_spec(cmd@, arg@, 0));
    while i < 9
        invariant
            i <= 9,
            a@ == arg@,
            c@ == cmd@,
            offer_views(out@) == color_offers_spec(cmd@, arg@, i as int),
        decreases 9 - i,
    {
        let name = crate::tabs::color_name(i);
        let n = chars_of(name);
        if starts_with_exec(&n, &a) {
            let mut line = slice_chars(&c, 0, c.len());
            line.push(' ');
            let line = concat_chars(&line, &n);
            assert(c@.subrange(0, c@.len() as int) =~= c@);
            assert(line@ =~= spaced(cmd@, name@));
            let ghost before = offer_views(out@);
            out.push(Offer {
                line: string_of(line.as_slice()),
                left: name.to_owned(),
                right: crate::tabs::color_value(i).to_owned(),
                star: false,
            });
            assert(offer_views(out@) =~= before.push(
                (spaced(cmd@, name@), name@, crate::tabs::color_values()[i as int], false),
            ));
        }
        i += 1;
    }
    out
}

/// How many tabs group `id` has.
pub open spec fn group_count(tabs: Seq<crate::tabs::Tab>, id: u64) -> int {
    crate::seqs::indices_where(tabs, crate::tabs::tab_in(id)).len() as int
}

/// What the command line offers after the commands that take a group:
/// the groups whose names begin with `arg`, case aside, with their number
/// of tabs and colour.
pub open spec fn group_offers_spec(
    tabs: Seq<crate::tabs::Tab>,
    groups: Seq<crate::tabs::Group>,
    cmd: Seq<char>,
    arg: Seq<char>,
) -> Seq<(Seq<char>, Seq<char>, Seq<char>, bool)>
    decreases groups.len(),
{
    if groups.len() == 0 {
        Seq::empty()
    } else {
        let before = group_offers_spec(tabs, groups.drop_last(), cmd, arg);
        let g = groups.last();
        if starts_with(lowercase(g.name@), lowercase(arg)) {
            before.push(
                (
                    spaced(cmd, g.name@),
                    g.name@,
                    decimal(group_count(tabs, g.id) as nat) + " tabs, "@ + g.color@,
                    false,
                ),
            )
        } else {
            before
        }
    }
}

/// The groups offered after a command that takes one.
pub fn group_offers(tabs: &crate::tabs::Tabs, cmd: &str, arg: &str) -> (r: Vec<Offer>)
    ensures
        offer_views(r@) == group_offers_spec(tabs.tabs@, tabs.groups@, cmd@, arg@),
{
    proof {
        reveal_strlit(" tabs, ");
    }
    let la = chars_of(to_lowercase(arg).as_str());
    let c = chars_of(cmd);
    let ghost gs = tabs.groups@;
    let mut out: Vec<Offer> = Vec::new();
    let mut i: usize = 0;
    assert(gs.take(0) =~= Seq::<crate::tabs::Group>::empty());
    while i < tabs.groups.len()
        invariant
            i <= gs.len(),
            gs == tabs.groups@,
            la@ == lowercase(arg@),
            c@ == cmd@,
            offer_views(out@) == group_offers_spec(tabs.tabs@, gs.take(i as int), cmd@, arg@),
        decreases gs.len() - i,
    {
        assert(gs.take(i + 1).drop_last() =~= gs.take(i as int));
        assert(gs.take(i + 1).last() == gs[i as int]);
        let g = &tabs.groups[i];
        let ln = chars_of(to_lowercase(g.name.as_str()).as_str());
        if starts_with_exec(&ln, &la) {
            let n = chars_of(g.name.as_str());
            let mut line = slice_chars(&c, 0, c.len());
            assert(c@.subrange(0, c@.len() as int) =~= c@);
            line.push(' ');
            let line = concat_chars(&line, &n);
            assert(line@ =~= spaced(cmd@, g.name@));
            let count = tabs.tabs_in(g.id).len();
            let mut right: Vec<char> = Vec::new();
            crate::text::push_decimal(&mut right, count as u64);
            right = concat_chars(&right, &chars_of(" tabs, "));
            right = concat_chars(&right, &chars_of(g.color.as_str()));
            assert(right@ =~= decimal(group_count(tabs.tabs@, g.id) as nat) + " tabs, "@ + g.color@);
            let ghost before = offer_views(out@);
            out.push(Offer {
                line: string_of(line.as_slice()),
                left: g.name.clone(),
                right: string_of(right.as_slice()),
                star: false,
            });
            assert(offer_views(out@) =~= before.push(
                (spaced(cmd@, g.name@), g.name@, right@, false),
            ));
        }
        i += 1;
    }
    assert(gs.take(gs.len() as int) =~= gs);
    out
}

/// The commands whose argument is a group.
pub open spec fn takes_group(cmd: Seq<char>) -> bool {
    cmd == "group"@ || cmd == "group-collapse"@ || cmd == "group-expand"@ || cmd == "group-delete"@
}

/// Pages offered to an open prompt as offers: the verb and the URL go on
/// the line; the title and the URL are shown.
pub open spec fn page_offers(verb: Seq<char>, cands: Seq<(Seq<char>, Seq<char>, bool)>) -> Seq<
    (Seq<char>, Seq<char>, Seq<char>, bool),
> {
    cands.map_values(|c: (Seq<char>, Seq<char>, bool)| (spaced(verb, c.0), c.1, c.0, c.2))
}

/// What the command line offers for `text`: pages for an open prompt,
/// command names before the first space, group and colour names after the
/// commands that take them, nothing else.
pub open spec fn offers_for_spec(
    tabs: crate::tabs::Tabs,
    visits: Seq<crate::history::VisitView>,
    marks: Seq<(Seq<char>, Seq<char>)>,
    text: Seq<char>,
) -> Seq<(Seq<char>, Seq<char>, Seq<char>, bool)> {
    match open_query_spec(text) {
        Some(vq) => {
            let ws = query_words(vq.1);
            page_offers(
                vq.0,
                crate::history::offers(
                    visits,
                    marks,
                    marks.map_values(|m: (Seq<char>, Seq<char>)| hit(ws, m.0, m.1)),
                    visits.map_values(|v: crate::history::VisitView| hit(ws, v.url, v.title)),
                    ws.len() > 0,
                    10,
                ),
            )
        },
        None => match first_index(text, is_char(' ')) {
            None => command_offers_spec(text),
            Some(i) => {
                let cmd = text.take(i);
                let arg = text.skip(i + 1);
                if takes_group(cmd) {
                    group_offers_spec(tabs.tabs@, tabs.groups@, cmd, arg)
                } else if cmd == "group-color"@ {
                    color_offers_spec(cmd, arg, 9)
                } else {
                    Seq::empty()
                }
            },
        },
    }
}

/// What the command line offers for `text`.
pub fn offers_for(
    tabs: &crate::tabs::Tabs,
    hist: &crate::history::History,
    marks: &crate::bookmarks::Bookmarks,
    text: &str,
) -> (r: Vec<Offer>)
    requires
        hist.wf(),
    ensures
        offer_views(r@) == offers_for_spec(*tabs, hist@, marks@, text@),
{
    match open_query(text) {
        Some((verb, query)) => {
            let list = marks.list();
            let mut pairs: Vec<(String, String)> = Vec::new();
            let mut i: usize = 0;
            while i < list.len()
                invariant
                    i <= list@.len(),
                    list@.map_values(|b: crate::bookmarks::Bookmark| crate::bookmarks::mark_view(b)) == marks@,
                    crate::history::marks_view(pairs@) == marks@.take(i as int),
                decreases list@.len() - i,
            {
                let ghost before = crate::history::marks_view(pairs@);
                pairs.push((list[i].url.clone(), list[i].title.clone()));
                assert(marks@[i as int] == crate::bookmarks::mark_view(list@[i as int]));
                assert(crate::history::marks_view(pairs@) =~= before.push(marks@[i as int]));
                assert(marks@.take(i + 1) =~= marks@.take(i as int).push(marks@[i as int]));
                i += 1;
            }
            assert(marks@.take(marks@.len() as int) =~= marks@);
            let cands = hist.matches(query.as_str(), pairs.as_slice(), 10);
            let v = chars_of(verb.as_str());
            let mut out: Vec<Offer> = Vec::new();
            let ghost cv = cands@.map_values(|c: crate::history::Candidate| crate::history::candidate_view(c));
            let mut k: usize = 0;
            while k < cands.len()
                invariant
                    k <= cands@.len(),
                    v@ == verb@,
                    cv == cands@.map_values(|c: crate::history::Candidate| crate::history::candidate_view(c)),
                    offer_views(out@) == page_offers(verb@, cv.take(k as int)),
                decreases cands@.len() - k,
            {
                let c = &cands[k];
                let mut line = slice_chars(&v, 0, v.len());
                assert(v@.subrange(0, v@.len() as int) =~= v@);
                line.push(' ');
                let line = concat_chars(&line, &chars_of(c.url.as_str()));
                assert(line@ =~= spaced(verb@, c.url@));
                let ghost before = offer_views(out@);
                out.push(Offer {
                    line: string_of(line.as_slice()),
                    left: c.title.clone(),
                    right: c.url.clone(),
                    star: c.bookmark,
                });
                assert(cv[k as int] == crate::history::candidate_view(*c));
                assert(offer_views(out@) =~= before.push((spaced(verb@, c.url@), c.title@, c.url@, c.bookmark)));
                assert(page_offers(verb@, cv.take(k + 1)) =~= page_offers(verb@, cv.take(k as int)).push(
                    (spaced(verb@, c.url@), c.title@, c.url@, c.bookmark),
                ));
                k += 1;
            }
            assert(cv.take(cv.len() as int) =~= cv);
            out
        },
        None => {
            let t = chars_of(text);
            match find_char(&t, ' ') {
                None => command_offers(text),
                Some(i) => {
                    assert(i < t.len());
                    let cmd = slice_chars(&t, 0, i);
                    let arg = slice_chars(&t, i + 1, t.len());
                    assert(cmd@ =~= text@.take(i as int));
                    assert(arg@ =~= text@.skip(i + 1));
                    let cs = string_of(cmd.as_slice());
                    let args = string_of(arg.as_slice());
                    if same_chars(&cmd, &chars_of("group")) || same_chars(&cmd, &chars_of("group-collapse"))
                        || same_chars(&cmd, &chars_of("group-expand")) || same_chars(
                        &cmd,
                        &chars_of("group-delete"),
                    ) {
                        group_offers(tabs, cs.as_str(), args.as_str())
                    } else if same_chars(&cmd, &chars_of("group-color")) {
                        color_offers(cs.as_str(), args.as_str())
                    } else {
                        let out: Vec<Offer> = Vec::new();
                        assert(offer_views(out@) =~= Seq::<(Seq<char>, Seq<char>, Seq<char>, bool)>::empty());
                        out
                    }
                },
            }
        },
    }
}

/// A key on the help page.
pub open spec fn kbd(k: Seq<char>) -> Seq<char> {
    "<kbd>"@ + escape_html_spec(k) + "</kbd>"@
}

/// The keys of a command on the help page, between spaces.
pub open spec fn kbd_list(ks: Seq<Seq<char>>) -> Seq<char>
    decreases ks.len(),
{
    if ks.len() == 0 {
        Seq::empty()
    } else if ks.len() == 1 {
        kbd(ks[0])
    } else {
        kbd_list(ks.drop_last()) + seq![' '] + kbd(ks.last())
    }
}

/// The word a command is known by: the first word of how it is written.
pub open spec fn help_word(cmd: Seq<char>) -> Seq<char> {
    if words(cmd).len() > 0 {
        words(cmd)[0]
    } else {
        cmd
    }
}

/// The help page's row for one command: its keys, how it is written, and
/// what it does.
pub open spec fn help_row(bound: Seq<(Seq<char>, Seq<char>)>, row: (Seq<char>, Seq<char>, Seq<char>)) -> Seq<char> {
    "<tr><td class=k><span>"@ + kbd_list(crate::keys::keys_for_spec(bound, help_word(row.1)))
        + "</span></td><td><code>"@ + escape_html_spec(row.1) + "</code></td><td>"@ + escape_html_spec(row.2)
        + "</td></tr>"@
}

/// The help page's cards: one per run of commands of a group, with its
/// rows and its weight, two and one more per row.
pub open spec fn help_groups(
    bound: Seq<(Seq<char>, Seq<char>)>,
    rows: Seq<(Seq<char>, Seq<char>, Seq<char>)>,
) -> Seq<(Seq<char>, Seq<char>, int)>
    decreases rows.len(),
{
    if rows.len() == 0 {
        Seq::empty()
    } else {
        let before = help_groups(bound, rows.drop_last());
        let r = rows.last();
        let html = help_row(bound, r);
        if before.len() > 0 && before.last().0 == r.0 {
            before.update(before.len() - 1, (r.0, before.last().1 + html, before.last().2 + 1))
        } else {
            before.push((r.0, html, 3))
        }
    }
}

/// The cards' weights added up.
pub open spec fn weights(cards: Seq<(Seq<char>, Seq<char>, int)>) -> int
    decreases cards.len(),
{
    if cards.len() == 0 {
        0
    } else {
        weights(cards.drop_last()) + cards.last().2
    }
}

/// A card of the help page.
pub open spec fn card_html(c: (Seq<char>, Seq<char>, int)) -> Seq<char> {
    "<section class=card><h2>"@ + c.0 + "</h2><table>"@ + c.1 + "</table></section>"@
}

/// The first `k` cards laid out in two columns, the second begun at the
/// first card that brings the weight so far, with half its own, up to
/// `half`; with the weight so far and whether the second column has begun.
pub open spec fn layout(cards: Seq<(Seq<char>, Seq<char>, int)>, half: int, k: int) -> (Seq<char>, int, bool)
    decreases k,
{
    if k <= 0 {
        ("<div>"@, 0, false)
    } else {
        let prev = layout(cards, half, k - 1);
        let c = cards[k - 1];
        let split_here = !prev.2 && prev.1 + c.2 / 2 >= half;
        let out = if split_here {
            prev.0 + "</div><div>"@
        } else {
            prev.0
        };
        (out + card_html(c), prev.1 + c.2, prev.2 || split_here)
    }
}

/// The help page's cards, in two columns where the rows come out even.
pub open spec fn help_cards_spec(bound: Seq<(Seq<char>, Seq<char>)>) -> Seq<char> {
    let cards = help_groups(bound, command_list());
    layout(cards, weights(cards) / 2, cards.len() as int).0 + "</div>"@
}

/// `v` followed by the characters of `s`.
fn append_str(v: &Vec<char>, s: &str) -> (r: Vec<char>)
    ensures
        r@ == v@ + s@,
{
    concat_chars(v, &chars_of(s))
}

/// The keys of a command, for its row.
fn kbd_chars(ks: &Vec<String>) -> (r: Vec<char>)
    ensures
        r@ == kbd_list(ks@.map_values(|s: String| s@)),
{
    let ghost kv = ks@.map_values(|s: String| s@);
    let mut out: Vec<char> = Vec::new();
    let mut i: usize = 0;
    assert(kv.take(0) =~= Seq::<Seq<char>>::empty());
    while i < ks.len()
        invariant
            i <= ks@.len(),
            kv == ks@.map_values(|s: String| s@),
            out@ == kbd_list(kv.take(i as int)),
        decreases ks@.len() - i,
    {
        proof {
            reveal_strlit("<kbd>");
            reveal_strlit("</kbd>");
        }
        let ghost before = out@;
        if i > 0 {
            out.push(' ');
        }
        out = append_str(&out, "<kbd>");
        out = append_str(&out, escape_html(ks[i].as_str()).as_str());
        out = append_str(&out, "</kbd>");
        assert(kv.take(i + 1).drop_last() =~= kv.take(i as int));
        assert(kv.take(i + 1).last() == ks@[i as int]@);
        if i == 0 {
            assert(out@ =~= kbd(ks@[0]@));
        } else {
            assert(out@ =~= before + seq![' '] + kbd(ks@[i as int]@));
        }
        i += 1;
    }
    assert(kv.take(kv.len() as int) =~= kv);
    out
}

/// The help page's cards, each command with the keys bound to it now, in
/// two columns where the rows come out even.
pub fn help_cards(map: &crate::keys::Keymap) -> (r: String)
    ensures
        r@ == help_cards_spec(map.bound_entries()),
{
    let rows = commands();
    let ghost rv = rows@.map_values(|x: (&str, &str, &str)| row_view(x));
    let ghost bound = map.bound_entries();
    assert(command_list().len() == 71);
    assert(rows@.len() == rv.len());
    let mut cards: Vec<(&str, Vec<char>, usize)> = Vec::new();
    let mut total: usize = 0;
    let mut i: usize = 0;
    assert(rv.take(0) =~= Seq::<(Seq<char>, Seq<char>, Seq<char>)>::empty());
    while i < rows.len()
        invariant
            i <= rows@.len(),
            rows@.len() == 71,
            rv == rows@.map_values(|x: (&str, &str, &str)| row_view(x)),
            bound == map.bound_entries(),
            cards@.map_values(|c: (&str, Vec<char>, usize)| (c.0@, c.1@, c.2 as int)) == help_groups(bound, rv.take(i as int)),
            total == weights(help_groups(bound, rv.take(i as int))),
            total <= 3 * i,
            forall|j: int| 0 <= j < cards@.len() ==> (#[trigger] cards@[j]).2 <= i + 3,
        decreases rows@.len() - i,
    {
        proof {
            reveal_strlit("<tr><td class=k><span>");
            reveal_strlit("</span></td><td><code>");
            reveal_strlit("</code></td><td>");
            reveal_strlit("</td></tr>");
        }
        let (g, cmd, what) = rows[i];
        let ws = words_of(&chars_of(cmd));
        assert(char_lines(ws@).len() == ws@.len());
        let word = if ws.len() > 0 {
            assert(char_lines(ws@)[0] == ws@[0]@);
            string_of(ws[0].as_slice())
        } else {
            cmd.to_owned()
        };
        assert(word@ == help_word(cmd@));
        let ks = map.keys_for(word.as_str());
        let mut html: Vec<char> = chars_of("<tr><td class=k><span>");
        html = concat_chars(&html, &kbd_chars(&ks));
        html = append_str(&html, "</span></td><td><code>");
        html = append_str(&html, escape_html(cmd).as_str());
        html = append_str(&html, "</code></td><td>");
        html = append_str(&html, escape_html(what).as_str());
        html = append_str(&html, "</td></tr>");
        assert(html@ =~= help_row(bound, rv[i as int]));
        let ghost cv = cards@.map_values(|c: (&str, Vec<char>, usize)| (c.0@, c.1@, c.2 as int));
        assert(rv.take(i + 1).drop_last() =~= rv.take(i as int));
        assert(rv.take(i + 1).last() == rv[i as int]);
        let n = cards.len();
        let same = n > 0 && crate::text::str_eq(cards[n - 1].0, g);
        if same {
            assert(cv.last() == (cards@[n - 1].0@, cards@[n - 1].1@, cards@[n - 1].2 as int));
            let last_html = concat_chars(&cards[n - 1].1, &html);
            let w = cards[n - 1].2 + 1;
            let name = cards[n - 1].0;
            cards.set(n - 1, (name, last_html, w));
            assert(cards@.map_values(|c: (&str, Vec<char>, usize)| (c.0@, c.1@, c.2 as int)) =~= cv.update(
                n - 1,
                (g@, cv.last().1 + html@, cv.last().2 + 1),
            ));
            assert(cv.update(n - 1, (g@, cv.last().1 + html@, cv.last().2 + 1)).drop_last() =~= cv.drop_last());
            total = total + 1;
        } else {
            cards.push((g, html, 3));
            assert(cards@.map_values(|c: (&str, Vec<char>, usize)| (c.0@, c.1@, c.2 as int)) =~= cv.push(
                (g@, html@, 3),
            ));
            assert(cv.push((g@, html@, 3)).drop_last() =~= cv);
            total = total + 3;
        }
        i += 1;
    }
    assert(rv.take(rv.len() as int) =~= rv);
    assert(rv == command_list());
    let ghost cv = cards@.map_values(|c: (&str, Vec<char>, usize)| (c.0@, c.1@, c.2 as int));
    assert(forall|j: int| 0 <= j < cv.len() ==> (#[trigger] cv[j]).2 >= 0);
    assert(cv.take(0) =~= Seq::<(Seq<char>, Seq<char>, int)>::empty());
    let half = total / 2;
    let mut out: Vec<char> = chars_of("<div>");
    let mut sum: usize = 0;
    let mut split = false;
    let mut k: usize = 0;
    proof {
        reveal_strlit("<div>");
    }
    while k < cards.len()
        invariant
            k <= cards@.len(),
            cv == cards@.map_values(|c: (&str, Vec<char>, usize)| (c.0@, c.1@, c.2 as int)),
            total == weights(cv),
            total <= 3 * 71,
            half == weights(cv) / 2,
            out@ == layout(cv, half as int, k as int).0,
            sum == layout(cv, half as int, k as int).1,
            split == layout(cv, half as int, k as int).2,
            sum <= weights(cv.take(k as int)),
            weights(cv.take(k as int)) <= total,
            forall|j: int| 0 <= j < cv.len() ==> (#[trigger] cv[j]).2 >= 0,
        decreases cards@.len() - k,
    {
        proof {
            reveal_strlit("</div><div>");
            reveal_strlit("<section class=card><h2>");
            reveal_strlit("</h2><table>");
            reveal_strlit("</table></section>");
            lemma_weights_prefix(cv, k as int + 1);
        }
        let w = cards[k].2;
        assert(cv[k as int].2 == w);
        assert(cv.take(k + 1).drop_last() =~= cv.take(k as int));
        if !split && sum + w / 2 >= half {
            out = append_str(&out, "</div><div>");
            split = true;
        }
        out = append_str(&out, "<section class=card><h2>");
        out = append_str(&out, cards[k].0);
        out = append_str(&out, "</h2><table>");
        out = concat_chars(&out, &cards[k].1);
        out = append_str(&out, "</table></section>");
        sum = sum + w;
        assert(out@ =~= layout(cv, half as int, k + 1).0);
        k += 1;
    }
    out = append_str(&out, "</div>");
    string_of(out.as_slice())
}

/// The weights of a prefix of the cards add up to no more than all of them.
proof fn lemma_weights_prefix(cards: Seq<(Seq<char>, Seq<char>, int)>, k: int)
    requires
        0 <= k <= cards.len(),
        forall|i: int| 0 <= i < cards.len() ==> (#[trigger] cards[i]).2 >= 0,
    ensures
        weights(cards.take(k)) <= weights(cards),
    decreases cards.len(),
{
    if k < cards.len() {
        assert forall|i: int| 0 <= i < cards.drop_last().len() implies (#[trigger] cards.drop_last()[i]).2 >= 0 by {
            assert(cards.drop_last()[i] == cards[i]);
        }
        lemma_weights_prefix(cards.drop_last(), k);
        assert(cards.drop_last().take(k) =~= cards.take(k));
    } else {
        assert(cards.take(k) =~= cards);
    }
}

} // verus!
