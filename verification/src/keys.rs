//! Key bindings: the defaults, the changes made to them (kept in a YAML
//! file), and what a sequence of key names is bound to.
//!
//! Names follow qutebrowser: plain characters as they are, everything
//! else in angle brackets: `<Ctrl-d>`, `<Alt-1>`, `<Shift-Left>`,
//! `<Space>`, `<Backspace>`. A literal `<` is `<lt>`.

use vstd::prelude::*;
use std::path::PathBuf;
use vstd::utf8::encode_utf8;
use crate::entries::{
    entries_view, find_entry, lemma_map_of, map_of, put_entry, remove_entry, sorted_keys,
};
use crate::passwords::{chars_lt, seq_lt};
use crate::seqs::{first_index, lemma_first_index};
use crate::text::{
    chars_of, concat_chars, same_chars, slice_chars, starts_with, starts_with_exec, string_of, trim,
    trim_chars, words, words_of, char_lines,
};

verus! {

/// The heading of the keys file.
pub const KEYS_HEADER: &'static str = "# Keys you changed, one per line: <keys>: <command>\n# An empty command unbinds the keys. :bind and :unbind write this file.\n# Names: plain characters as they are, else <Ctrl-d>, <Alt-1>, <Shift-Left>, <Space>.\n";

/// What the YAML text `text` holds as a map from strings to strings, by
/// `serde_yaml`; nothing when it is no such map.
pub uninterp spec fn yaml_text_map(text: Seq<char>) -> Option<Map<Seq<char>, Seq<char>>>;

/// The changes in the keys file's text, in the order of their keys, by
/// `serde_yaml::from_str` into a `BTreeMap<String, String>`, which walks
/// its keys in `String`'s order, the order of their characters. What the
/// parse gives is named by `yaml_text_map`; YAML's grammar is not written
/// out here, nor the parser's complaint.
#[verifier::external_body]
fn parse_user_keys(text: &str) -> (r: Result<Vec<(String, String)>, String>)
    ensures
        r is Ok <==> yaml_text_map(text@) is Some,
        r matches Ok(v) ==> map_of(entries_view(v@)) == yaml_text_map(text@)->0 && sorted_keys(
            entries_view(v@),
        ),
{
    serde_yaml::from_str::<std::collections::BTreeMap<String, String>>(text)
        .map(|m| m.into_iter().collect())
        .map_err(|e| e.to_string())
}

/// The YAML text `serde_yaml` writes for the map of the entries `e` (a
/// later entry for the same keys winning); nothing when it refuses.
pub uninterp spec fn yaml_of_text_map(e: Seq<(Seq<char>, Seq<char>)>) -> Option<Seq<char>>;

/// The changes as YAML, by `serde_yaml::to_string` of a
/// `BTreeMap<String, String>`. What it writes is named by
/// `yaml_of_text_map`; the writer's complaint is not stated.
#[verifier::external_body]
fn user_keys_yaml(user: &[(String, String)]) -> (r: Result<String, String>)
    ensures
        r is Ok <==> yaml_of_text_map(entries_view(user@)) is Some,
        r matches Ok(y) ==> y@ == yaml_of_text_map(entries_view(user@))->0,
{
    let m: std::collections::BTreeMap<String, String> = user.iter().cloned().collect();
    serde_yaml::to_string(&m).map_err(|e| e.to_string())
}

/// Every default binding: keys and the command they run. Bindings made
/// later override these.
pub open spec fn default_bindings() -> Seq<(Seq<char>, Seq<char>)> {
    seq![
        ("j"@, "scroll-down"@),
        ("k"@, "scroll-up"@),
        ("h"@, "scroll-left"@),
        ("l"@, "scroll-right"@),
        ("<Down>"@, "scroll-down"@),
        ("<Up>"@, "scroll-up"@),
        ("gg"@, "scroll-top"@),
        ("G"@, "scroll-bottom"@),
        ("<Home>"@, "scroll-top"@),
        ("<End>"@, "scroll-bottom"@),
        ("<Ctrl-d>"@, "scroll-page 0.5"@),
        ("<Ctrl-u>"@, "scroll-page -0.5"@),
        ("<Ctrl-f>"@, "fullscreen"@),
        ("<Ctrl-b>"@, "scroll-page -0.9"@),
        ("<Space>"@, "scroll-page 0.9"@),
        ("<Shift-Space>"@, "scroll-page -0.9"@),
        ("<PgDown>"@, "scroll-page 0.9"@),
        ("<PgUp>"@, "scroll-page -0.9"@),
        ("H"@, "back"@),
        ("L"@, "forward"@),
        ("<Backspace>"@, "back"@),
        ("<Ctrl-Left>"@, "back"@),
        ("<Ctrl-Right>"@, "forward"@),
        ("r"@, "reload"@),
        ("R"@, "reload-force"@),
        ("o"@, "cmd open "@),
        ("O"@, "cmd tabopen "@),
        ("t"@, "cmd tabopen "@),
        ("go"@, "cmd open {url}"@),
        ("gO"@, "cmd tabopen {url}"@),
        (":"@, "cmd "@),
        ("/"@, "find"@),
        ("n"@, "find-next"@),
        ("N"@, "find-prev"@),
        ("f"@, "hint"@),
        ("F"@, "hint-tab"@),
        ("i"@, "insert"@),
        ("gi"@, "focus-input"@),
        ("yy"@, "yank url"@),
        ("yt"@, "yank title"@),
        ("pp"@, "paste"@),
        ("PP"@, "paste-tab"@),
        ("+"@, "zoom-in"@),
        ("-"@, "zoom-out"@),
        ("="@, "zoom-reset"@),
        ("J"@, "tab-next"@),
        ("K"@, "tab-prev"@),
        ("<Right>"@, "tab-next"@),
        ("<Left>"@, "tab-prev"@),
        ("<Shift-Right>"@, "tab-move +1"@),
        ("<Shift-Left>"@, "tab-move -1"@),
        ("g0"@, "tab-first"@),
        ("g$"@, "tab-last"@),
        ("<Alt-1>"@, "tab 1"@),
        ("<Alt-2>"@, "tab 2"@),
        ("<Alt-3>"@, "tab 3"@),
        ("<Alt-4>"@, "tab 4"@),
        ("<Alt-5>"@, "tab 5"@),
        ("<Alt-6>"@, "tab 6"@),
        ("<Alt-7>"@, "tab 7"@),
        ("<Alt-8>"@, "tab 8"@),
        ("<Alt-9>"@, "tab 9"@),
        ("d"@, "close"@),
        ("u"@, "undo"@),
        ("zc"@, "group-fold"@),
        ("zo"@, "group-unfold"@),
        ("za"@, "group-toggle"@),
        ("zM"@, "groups-fold"@),
        ("zR"@, "groups-unfold"@),
        ("gp"@, "fill"@),
        ("M"@, "bookmark-add"@),
        ("v"@, "play"@),
        ("D"@, "dark-site"@),
        ("gb"@, "open gaze://bookmarks"@),
        ("gB"@, "tabopen gaze://bookmarks"@),
        ("?"@, "help"@),
        ("Q"@, "quit"@),
        ("ZZ"@, "quit"@),
        ("<Ctrl-q>"@, "quit"@)
    ]
}

/// Every default binding, in the order of the table.
pub fn defaults() -> (r: Vec<(String, String)>)
    ensures
        entries_view(r@) == default_bindings(),
{
    let mut v: Vec<(String, String)> = Vec::new();
    v.push(("j".to_owned(), "scroll-down".to_owned()));
    v.push(("k".to_owned(), "scroll-up".to_owned()));
    v.push(("h".to_owned(), "scroll-left".to_owned()));
    v.push(("l".to_owned(), "scroll-right".to_owned()));
    v.push(("<Down>".to_owned(), "scroll-down".to_owned()));
    v.push(("<Up>".to_owned(), "scroll-up".to_owned()));
    v.push(("gg".to_owned(), "scroll-top".to_owned()));
    v.push(("G".to_owned(), "scroll-bottom".to_owned()));
    v.push(("<Home>".to_owned(), "scroll-top".to_owned()));
    v.push(("<End>".to_owned(), "scroll-bottom".to_owned()));
    v.push(("<Ctrl-d>".to_owned(), "scroll-page 0.5".to_owned()));
    v.push(("<Ctrl-u>".to_owned(), "scroll-page -0.5".to_owned()));
    v.push(("<Ctrl-f>".to_owned(), "fullscreen".to_owned()));
    v.push(("<Ctrl-b>".to_owned(), "scroll-page -0.9".to_owned()));
    v.push(("<Space>".to_owned(), "scroll-page 0.9".to_owned()));
    v.push(("<Shift-Space>".to_owned(), "scroll-page -0.9".to_owned()));
    v.push(("<PgDown>".to_owned(), "scroll-page 0.9".to_owned()));
    v.push(("<PgUp>".to_owned(), "scroll-page -0.9".to_owned()));
    v.push(("H".to_owned(), "back".to_owned()));
    v.push(("L".to_owned(), "forward".to_owned()));
    v.push(("<Backspace>".to_owned(), "back".to_owned()));
    v.push(("<Ctrl-Left>".to_owned(), "back".to_owned()));
    v.push(("<Ctrl-Right>".to_owned(), "forward".to_owned()));
    v.push(("r".to_owned(), "reload".to_owned()));
    v.push(("R".to_owned(), "reload-force".to_owned()));
    v.push(("o".to_owned(), "cmd open ".to_owned()));
    v.push(("O".to_owned(), "cmd tabopen ".to_owned()));
    v.push(("t".to_owned(), "cmd tabopen ".to_owned()));
    v.push(("go".to_owned(), "cmd open {url}".to_owned()));
    v.push(("gO".to_owned(), "cmd tabopen {url}".to_owned()));
    v.push((":".to_owned(), "cmd ".to_owned()));
    v.push(("/".to_owned(), "find".to_owned()));
    v.push(("n".to_owned(), "find-next".to_owned()));
    v.push(("N".to_owned(), "find-prev".to_owned()));
    v.push(("f".to_owned(), "hint".to_owned()));
    v.push(("F".to_owned(), "hint-tab".to_owned()));
    v.push(("i".to_owned(), "insert".to_owned()));
    v.push(("gi".to_owned(), "focus-input".to_owned()));
    v.push(("yy".to_owned(), "yank url".to_owned()));
    v.push(("yt".to_owned(), "yank title".to_owned()));
    v.push(("pp".to_owned(), "paste".to_owned()));
    v.push(("PP".to_owned(), "paste-tab".to_owned()));
    v.push(("+".to_owned(), "zoom-in".to_owned()));
    v.push(("-".to_owned(), "zoom-out".to_owned()));
    v.push(("=".to_owned(), "zoom-reset".to_owned()));
    v.push(("J".to_owned(), "tab-next".to_owned()));
    v.push(("K".to_owned(), "tab-prev".to_owned()));
    v.push(("<Right>".to_owned(), "tab-next".to_owned()));
    v.push(("<Left>".to_owned(), "tab-prev".to_owned()));
    v.push(("<Shift-Right>".to_owned(), "tab-move +1".to_owned()));
    v.push(("<Shift-Left>".to_owned(), "tab-move -1".to_owned()));
    v.push(("g0".to_owned(), "tab-first".to_owned()));
    v.push(("g$".to_owned(), "tab-last".to_owned()));
    v.push(("<Alt-1>".to_owned(), "tab 1".to_owned()));
    v.push(("<Alt-2>".to_owned(), "tab 2".to_owned()));
    v.push(("<Alt-3>".to_owned(), "tab 3".to_owned()));
    v.push(("<Alt-4>".to_owned(), "tab 4".to_owned()));
    v.push(("<Alt-5>".to_owned(), "tab 5".to_owned()));
    v.push(("<Alt-6>".to_owned(), "tab 6".to_owned()));
    v.push(("<Alt-7>".to_owned(), "tab 7".to_owned()));
    v.push(("<Alt-8>".to_owned(), "tab 8".to_owned()));
    v.push(("<Alt-9>".to_owned(), "tab 9".to_owned()));
    v.push(("d".to_owned(), "close".to_owned()));
    v.push(("u".to_owned(), "undo".to_owned()));
    v.push(("zc".to_owned(), "group-fold".to_owned()));
    v.push(("zo".to_owned(), "group-unfold".to_owned()));
    v.push(("za".to_owned(), "group-toggle".to_owned()));
    v.push(("zM".to_owned(), "groups-fold".to_owned()));
    v.push(("zR".to_owned(), "groups-unfold".to_owned()));
    v.push(("gp".to_owned(), "fill".to_owned()));
    v.push(("M".to_owned(), "bookmark-add".to_owned()));
    v.push(("v".to_owned(), "play".to_owned()));
    v.push(("D".to_owned(), "dark-site".to_owned()));
    v.push(("gb".to_owned(), "open gaze://bookmarks".to_owned()));
    v.push(("gB".to_owned(), "tabopen gaze://bookmarks".to_owned()));
    v.push(("?".to_owned(), "help".to_owned()));
    v.push(("Q".to_owned(), "quit".to_owned()));
    v.push(("ZZ".to_owned(), "quit".to_owned()));
    v.push(("<Ctrl-q>".to_owned(), "quit".to_owned()));
    assert(entries_view(v@) =~= default_bindings());
    v
}

/// The default bindings as a map.
pub open spec fn default_map() -> Map<Seq<char>, Seq<char>> {
    map_of(default_bindings())
}

/// What is bound, given the bindings changed: a changed binding to a
/// command that is not blank, else the default; a blank command unbinds.
pub open spec fn bound_of(user: Map<Seq<char>, Seq<char>>) -> Map<Seq<char>, Seq<char>> {
    Map::new(
        |k: Seq<char>|
            if user.dom().contains(k) {
                trim(user[k]).len() > 0
            } else {
                default_map().dom().contains(k)
            },
        |k: Seq<char>|
            if user.dom().contains(k) {
                user[k]
            } else {
                default_map()[k]
            },
    )
}

/// `m` with the changes `es` made one after another: a blank command
/// unbinds its keys, any other binds them.
pub open spec fn apply_user(m: Map<Seq<char>, Seq<char>>, es: Seq<(Seq<char>, Seq<char>)>) -> Map<
    Seq<char>,
    Seq<char>,
>
    decreases es.len(),
{
    if es.len() == 0 {
        m
    } else {
        let before = apply_user(m, es.drop_last());
        let e = es.last();
        if trim(e.1).len() == 0 {
            before.remove(e.0)
        } else {
            before.insert(e.0, e.1)
        }
    }
}

/// Making the changes one after another binds what `bound_of` says.
proof fn lemma_apply_user(es: Seq<(Seq<char>, Seq<char>)>)
    ensures
        apply_user(default_map(), es) == bound_of(map_of(es)),
    decreases es.len(),
{
    if es.len() == 0 {
        assert(map_of(es) =~= Map::<Seq<char>, Seq<char>>::empty());
        assert(bound_of(map_of(es)) =~= default_map());
    } else {
        lemma_apply_user(es.drop_last());
        assert(apply_user(default_map(), es) =~= bound_of(map_of(es)));
    }
}

/// The key bindings: what is bound, the bindings changed from the
/// defaults, and the file the changes are kept in.
pub struct Keymap {
    bound: Vec<(String, String)>,
    user: Vec<(String, String)>,
    path: PathBuf,
}

impl Keymap {
    /// What each key sequence is bound to.
    pub closed spec fn bound(&self) -> Map<Seq<char>, Seq<char>> {
        map_of(entries_view(self.bound@))
    }

    /// The bindings changed from the defaults; a blank command unbinds.
    pub closed spec fn user(&self) -> Map<Seq<char>, Seq<char>> {
        map_of(entries_view(self.user@))
    }

    /// The changes as entries, in the order of their keys.
    pub closed spec fn user_entries_v(&self) -> Seq<(Seq<char>, Seq<char>)> {
        entries_view(self.user@)
    }

    /// The bindings, each once, in the order of their keys.
    pub closed spec fn bound_entries(&self) -> Seq<(Seq<char>, Seq<char>)> {
        entries_view(self.bound@)
    }

    /// The file the changes are kept in.
    pub closed spec fn path(&self) -> PathBuf {
        self.path
    }

    /// Each list is kept in the order of its keys, and what is bound is
    /// the defaults with the changes made.
    pub closed spec fn wf(&self) -> bool {
        &&& sorted_keys(entries_view(self.bound@))
        &&& sorted_keys(entries_view(self.user@))
        &&& self.bound() == bound_of(self.user())
    }

    /// The keymap with the changes `user` (keys and commands, a blank
    /// command unbinding its keys; a later entry for the same keys wins),
    /// kept in `path`.
    pub fn load(path: PathBuf, user: Vec<(String, String)>) -> (r: Keymap)
        ensures
            r.wf(),
            r.user() == map_of(entries_view(user@)),
            r.bound() == bound_of(map_of(entries_view(user@))),
            r.path() == path,
    {
        let mut u: Vec<(String, String)> = Vec::new();
        let ghost uv = entries_view(user@);
        let mut i: usize = 0;
        assert(entries_view(u@) =~= Seq::<(Seq<char>, Seq<char>)>::empty());
        assert(map_of(uv.take(0)) =~= Map::<Seq<char>, Seq<char>>::empty());
        while i < user.len()
            invariant
                i <= user@.len(),
                uv == entries_view(user@),
                sorted_keys(entries_view(u@)),
                map_of(entries_view(u@)) == map_of(uv.take(i as int)),
            decreases user@.len() - i,
        {
            assert(uv.take(i + 1).drop_last() =~= uv.take(i as int));
            assert(uv.take(i + 1).last() == uv[i as int]);
            put_entry(&mut u, user[i].0.clone(), user[i].1.clone());
            i += 1;
        }
        assert(uv.take(uv.len() as int) =~= uv);
        let mut map = Keymap { bound: Vec::new(), user: u, path };
        map.rebuild();
        map
    }

    /// What is bound, made again from the defaults and the changes.
    fn rebuild(&mut self)
        requires
            sorted_keys(entries_view(old(self).user@)),
        ensures
            final(self).wf(),
            final(self).user@ == old(self).user@,
            final(self).path == old(self).path,
    {
        let d = defaults();
        let mut b: Vec<(String, String)> = Vec::new();
        let mut i: usize = 0;
        assert(entries_view(b@) =~= Seq::<(Seq<char>, Seq<char>)>::empty());
        assert(map_of(default_bindings().take(0)) =~= Map::<Seq<char>, Seq<char>>::empty());
        while i < d.len()
            invariant
                i <= d@.len(),
                entries_view(d@) == default_bindings(),
                sorted_keys(entries_view(b@)),
                map_of(entries_view(b@)) == map_of(default_bindings().take(i as int)),
            decreases d@.len() - i,
        {
            assert(default_bindings().take(i + 1).drop_last() =~= default_bindings().take(i as int));
            assert(default_bindings().take(i + 1).last() == default_bindings()[i as int]);
            put_entry(&mut b, d[i].0.clone(), d[i].1.clone());
            i += 1;
        }
        assert(default_bindings().take(default_bindings().len() as int) =~= default_bindings());
        let ghost uv = entries_view(self.user@);
        let mut j: usize = 0;
        while j < self.user.len()
            invariant
                j <= self.user@.len(),
                uv == entries_view(self.user@),
                sorted_keys(entries_view(b@)),
                map_of(entries_view(b@)) == apply_user(default_map(), uv.take(j as int)),
            decreases self.user@.len() - j,
        {
            assert(uv.take(j + 1).drop_last() =~= uv.take(j as int));
            assert(uv.take(j + 1).last() == uv[j as int]);
            let c = trim_chars(&chars_of(self.user[j].1.as_str()));
            if c.len() == 0 {
                remove_entry(&mut b, &chars_of(self.user[j].0.as_str()));
            } else {
                put_entry(&mut b, self.user[j].0.clone(), self.user[j].1.clone());
            }
            j += 1;
        }
        assert(uv.take(uv.len() as int) =~= uv);
        proof {
            lemma_apply_user(uv);
        }
        self.bound = b;
    }

    /// The file the changes are kept in.
    pub fn file(&self) -> (r: &PathBuf)
        ensures
            *r == self.path(),
    {
        &self.path
    }

    /// The keymap kept in `path`, from the file's text `text` (nothing
    /// when there is no file), and the parser's complaint when the text is
    /// no YAML map of strings; the changes are then none.
    pub fn load_text(path: PathBuf, text: Option<&str>) -> (r: (Keymap, Option<String>))
        ensures
            r.0.wf(),
            r.0.path() == path,
            r.0.user() == (match text {
                Some(t) => match yaml_text_map(t@) {
                    Some(m) => m,
                    None => Map::empty(),
                },
                None => Map::empty(),
            }),
            r.0.bound() == bound_of(r.0.user()),
            r.1 is Some <==> (text is Some && yaml_text_map(text->0@) is None),
    {
        match text {
            None => {
                let m = Keymap::load(path, Vec::new());
                proof {
                    assert(entries_view(Seq::<(String, String)>::empty()) =~= Seq::<(Seq<char>, Seq<char>)>::empty());
                }
                (m, None)
            },
            Some(t) => match parse_user_keys(t) {
                Ok(v) => (Keymap::load(path, v), None),
                Err(e) => {
                    let m = Keymap::load(path, Vec::new());
                    proof {
                        assert(entries_view(Seq::<(String, String)>::empty()) =~= Seq::<(Seq<char>, Seq<char>)>::empty());
                    }
                    (m, Some(e))
                },
            },
        }
    }

    /// The text of the keys file: the heading, then the changes as a YAML
    /// map, or `{}` when there are none; the writer's complaint when it
    /// cannot write them.
    pub fn file_text(&self) -> (r: Result<String, String>)
        requires
            self.wf(),
        ensures
            self.user() == Map::<Seq<char>, Seq<char>>::empty() ==> (r matches Ok(t) && t@ == KEYS_HEADER@ + "{}\n"@),
            self.user() != Map::<Seq<char>, Seq<char>>::empty() ==> match yaml_of_text_map(self.user_entries_v()) {
                Some(y) => r matches Ok(t) && t@ == KEYS_HEADER@ + y,
                None => r is Err,
            },
    {
        let ghost e = entries_view(self.user@);
        proof {
            lemma_map_of(e);
        }
        if self.user.len() == 0 {
            proof {
                assert(e =~= Seq::<(Seq<char>, Seq<char>)>::empty());
            }
            let t = concat_chars(&chars_of(KEYS_HEADER), &chars_of("{}\n"));
            return Ok(string_of(t.as_slice()));
        }
        proof {
            assert(self.user().dom().contains(e[0].0));
        }
        match user_keys_yaml(self.user.as_slice()) {
            Ok(y) => {
                let t = concat_chars(&chars_of(KEYS_HEADER), &chars_of(y.as_str()));
                Ok(string_of(t.as_slice()))
            },
            Err(e) => Err(e),
        }
    }

    /// The changes, in the order of their keys, to be written to the file.
    pub fn user_entries(&self) -> (r: &[(String, String)])
        requires
            self.wf(),
        ensures
            entries_view(r@) == self.user_entries_v(),
            sorted_keys(entries_view(r@)),
            map_of(entries_view(r@)) == self.user(),
    {
        self.user.as_slice()
    }

    /// The command bound to `seq`, and whether longer bindings start with
    /// it, so that the next key may complete one.
    pub fn lookup(&self, seq: &str) -> (r: (Option<String>, bool))
        requires
            self.wf(),
        ensures
            r.0 is Some <==> self.bound().dom().contains(seq@),
            r.0 matches Some(c) ==> c@ == self.bound()[seq@],
            r.1 == exists|k: Seq<char>|
                self.bound().dom().contains(k) && k.len() > seq@.len() && #[trigger] starts_with(k, seq@),
    {
        let s = chars_of(seq);
        let exact = match find_entry(&self.bound, &s) {
            Some(i) => Some(self.bound[i].1.clone()),
            None => None,
        };
        let ghost e = entries_view(self.bound@);
        proof {
            lemma_map_of(e);
        }
        let mut i: usize = 0;
        while i < self.bound.len()
            invariant
                i <= self.bound@.len(),
                e == entries_view(self.bound@),
                s@ == seq@,
                self.wf(),
                exact is Some <==> self.bound().dom().contains(seq@),
                exact matches Some(c) ==> c@ == self.bound()[seq@],
                forall|j: int| 0 <= j < i ==> !(e[j].0.len() > seq@.len() && #[trigger] starts_with(e[j].0, seq@)),
            decreases self.bound@.len() - i,
        {
            let k = chars_of(self.bound[i].0.as_str());
            assert(e[i as int].0 == k@);
            if k.len() > s.len() && starts_with_exec(&k, &s) {
                proof {
                    lemma_map_of(e);
                }
                assert(map_of(e).dom().contains(e[i as int].0));
                return (exact, true);
            }
            i += 1;
        }
        assert forall|k: Seq<char>| map_of(e).dom().contains(k) && k.len() > seq@.len() implies !#[trigger] starts_with(k, seq@) by {
            let j = choose|j: int| 0 <= j < e.len() && #[trigger] e[j].0 == k;
        }
        (exact, false)
    }

    /// Bind `keys` to `command`; refused when either is empty.
    pub fn bind(&mut self, keys: &str, command: &str) -> (r: Result<(), String>)
        requires
            old(self).wf(),
        ensures
            final(self).wf(),
            final(self).path() == old(self).path(),
            keys@.len() == 0 || trim(command@).len() == 0 ==> (r matches Err(e) && e@
                == "bind <keys> <command>"@) && final(self).user() == old(self).user(),
            keys@.len() > 0 && trim(command@).len() > 0 ==> r is Ok && final(self).user() == old(
                self,
            ).user().insert(keys@, command@),
    {
        let k = chars_of(keys);
        let c = trim_chars(&chars_of(command));
        if k.len() == 0 || c.len() == 0 {
            return Err("bind <keys> <command>".to_owned());
        }
        put_entry(&mut self.user, keys.to_owned(), command.to_owned());
        self.rebuild();
        Ok(())
    }

    /// Unbind `keys`: a default binding is hidden, a binding of one's own
    /// dropped. True when something was bound to them.
    pub fn unbind(&mut self, keys: &str) -> (r: Result<bool, String>)
        requires
            old(self).wf(),
        ensures
            final(self).wf(),
            final(self).path() == old(self).path(),
            r == Ok::<bool, String>(old(self).bound().dom().contains(keys@)),
            final(self).user() == if default_map().dom().contains(keys@) {
                old(self).user().insert(keys@, Seq::empty())
            } else {
                old(self).user().remove(keys@)
            },
    {
        let k = chars_of(keys);
        let had = find_entry(&self.bound, &k).is_some();
        let d = defaults();
        let mut i: usize = 0;
        let mut is_default = false;
        proof {
            lemma_map_of(default_bindings());
        }
        while i < d.len()
            invariant
                i <= d@.len(),
                entries_view(d@) == default_bindings(),
                k@ == keys@,
                is_default == exists|j: int| 0 <= j < i && #[trigger] default_bindings()[j].0 == keys@,
            decreases d@.len() - i,
        {
            assert(default_bindings()[i as int].0 == d@[i as int].0@);
            if str_is_chars(&d[i].0, &k) {
                is_default = true;
            }
            i += 1;
        }
        if is_default {
            put_entry(&mut self.user, keys.to_owned(), String::new());
        } else {
            remove_entry(&mut self.user, &k);
        }
        self.rebuild();
        Ok(had)
    }
}

/// `s` holds the characters of `v`.
fn str_is_chars(s: &String, v: &Vec<char>) -> (r: bool)
    ensures
        r == (s@ == v@),
{
    crate::text::str_is(s.as_str(), v)
}

/// The changes a keymap writes to its file, loaded again, give the same
/// keymap: the same changes and the same bindings.
pub proof fn law_saved_keys_read_back(k: Keymap, written: Seq<(Seq<char>, Seq<char>)>)
    requires
        k.wf(),
        map_of(written) == k.user(),
    ensures
        bound_of(map_of(written)) == k.bound(),
{
}

/// Making a binding binds it, and changes no other keys.
pub proof fn law_bind_binds(user: Map<Seq<char>, Seq<char>>, keys: Seq<char>, command: Seq<char>, other: Seq<char>)
    requires
        trim(command).len() > 0,
        other != keys,
    ensures
        bound_of(user.insert(keys, command)).dom().contains(keys),
        bound_of(user.insert(keys, command))[keys] == command,
        bound_of(user.insert(keys, command)).dom().contains(other) == bound_of(user).dom().contains(other),
        bound_of(user).dom().contains(other) ==> bound_of(user.insert(keys, command))[other]
            == bound_of(user)[other],
{
}

/// Unbinding keys leaves nothing bound to them, and changes no other keys.
pub proof fn law_unbind_unbinds(user: Map<Seq<char>, Seq<char>>, keys: Seq<char>, other: Seq<char>)
    requires
        other != keys,
    ensures
        ({
            let u = if default_map().dom().contains(keys) {
                user.insert(keys, Seq::empty())
            } else {
                user.remove(keys)
            };
            &&& !bound_of(u).dom().contains(keys)
            &&& bound_of(u).dom().contains(other) == bound_of(user).dom().contains(other)
            &&& bound_of(user).dom().contains(other) ==> bound_of(u)[other] == bound_of(user)[other]
        }),
{
    assert(trim(Seq::<char>::empty()) =~= Seq::<char>::empty()) by {
        reveal_with_fuel(crate::text::trim_start, 1);
        reveal_with_fuel(crate::text::trim_end, 1);
    }
}

/// The first word of `c` is `w`.
pub open spec fn first_word_is(w: Seq<char>) -> spec_fn((Seq<char>, Seq<char>)) -> bool {
    |e: (Seq<char>, Seq<char>)| words(e.1).len() > 0 && words(e.1)[0] == w
}

/// The length of `s` in UTF-8 bytes, as `str::len` counts.
pub open spec fn byte_len(s: Seq<char>) -> int {
    encode_utf8(s).len() as int
}

/// The order of the help page: by command, then the shorter keys, then
/// by keys.
pub open spec fn help_before(a: (Seq<char>, Seq<char>), b: (Seq<char>, Seq<char>)) -> bool {
    ||| seq_lt(a.1, b.1)
    ||| a.1 == b.1 && byte_len(a.0) < byte_len(b.0)
    ||| a.1 == b.1 && byte_len(a.0) == byte_len(b.0) && seq_lt(a.0, b.0)
}

/// Holds of the entries `x` goes before.
pub open spec fn goes_after(x: (Seq<char>, Seq<char>)) -> spec_fn((Seq<char>, Seq<char>)) -> bool {
    |y: (Seq<char>, Seq<char>)| help_before(x, y)
}

/// The entries `s` sorted for the help page, one put in after another.
pub open spec fn help_order(s: Seq<(Seq<char>, Seq<char>)>) -> Seq<(Seq<char>, Seq<char>)>
    decreases s.len(),
{
    if s.len() == 0 {
        Seq::empty()
    } else {
        let p = help_order(s.drop_last());
        let x = s.last();
        match first_index(p, goes_after(x)) {
            Some(i) => p.insert(i, x),
            None => p.push(x),
        }
    }
}

/// `c` with every `p` at its start taken off, as `trim_start_matches`.
pub open spec fn strip_all(c: Seq<char>, p: Seq<char>) -> Seq<char>
    decreases c.len(),
{
    if p.len() > 0 && starts_with(c, p) {
        strip_all(c.skip(p.len() as int), p)
    } else {
        c
    }
}

/// How the help page shows keys bound to `command`: the keys, with what
/// follows the command in brackets when there is more.
pub open spec fn help_entry(e: (Seq<char>, Seq<char>), command: Seq<char>) -> Seq<char> {
    let rest = trim(strip_all(e.1, command));
    if rest.len() == 0 {
        e.0
    } else {
        e.0 + " ("@ + rest + ")"@
    }
}

/// The keys bound to `command` by its first word, for the help page.
pub open spec fn keys_for_spec(entries: Seq<(Seq<char>, Seq<char>)>, command: Seq<char>) -> Seq<Seq<char>> {
    help_order(crate::seqs::keep_where(entries, first_word_is(command))).map_values(
        |e: (Seq<char>, Seq<char>)| help_entry(e, command),
    )
}

/// The help page's order, computed.
fn before_exec(a: &(String, String), b: &(String, String)) -> (r: bool)
    ensures
        r == help_before((a.0@, a.1@), (b.0@, b.1@)),
{
    let ac = chars_of(a.1.as_str());
    let bc = chars_of(b.1.as_str());
    if chars_lt(&ac, &bc) {
        return true;
    }
    if !same_chars(&ac, &bc) {
        return false;
    }
    let al = a.0.as_str().as_bytes().len();
    let bl = b.0.as_str().as_bytes().len();
    if al < bl {
        return true;
    }
    if al > bl {
        return false;
    }
    chars_lt(&chars_of(a.0.as_str()), &chars_of(b.0.as_str()))
}

/// `c` with every `p` at its start taken off.
pub(crate) fn strip_all_exec(c: &Vec<char>, p: &Vec<char>) -> (r: Vec<char>)
    ensures
        r@ == strip_all(c@, p@),
{
    let mut i: usize = 0;
    assert(c@.skip(0) =~= c@);
    let mut go = p.len() > 0 && crate::text::matches_at_exec(c, p, 0);
    while go
        invariant
            i <= c@.len(),
            strip_all(c@, p@) == strip_all(c@.skip(i as int), p@),
            go ==> p@.len() > 0 && crate::text::matches_at(c@, p@, i as int),
            !go ==> !(p@.len() > 0 && crate::text::matches_at(c@, p@, i as int)),
        decreases c@.len() - i,
    {
        assert(c@.skip(i as int).take(p@.len() as int) =~= c@.subrange(i as int, i + p@.len()));
        assert(c@.skip(i as int).skip(p@.len() as int) =~= c@.skip(i + p@.len()));
        assert(c@.len() == c.len());
        i += p.len();
        go = crate::text::matches_at_exec(c, p, i);
    }
    proof {
        if p@.len() > 0 && i + p@.len() <= c@.len() {
            assert(c@.skip(i as int).take(p@.len() as int) =~= c@.subrange(i as int, i + p@.len()));
        }
    }
    slice_chars(c, i, c.len())
}

impl Keymap {
    /// The keys bound to `command`, by its first word, for the help page:
    /// by command, the shorter keys first, with what follows the command
    /// in brackets when there is more.
    pub fn keys_for(&self, command: &str) -> (r: Vec<String>)
        ensures
            r@.map_values(|s: String| s@) == keys_for_spec(self.bound_entries(), command@),
    {
        let cmd = chars_of(command);
        let ghost e = entries_view(self.bound@);
        let ghost pick = first_word_is(command@);
        let mut chosen: Vec<(String, String)> = Vec::new();
        let mut i: usize = 0;
        while i < self.bound.len()
            invariant
                i <= self.bound@.len(),
                e == entries_view(self.bound@),
                cmd@ == command@,
                pick == first_word_is(command@),
                entries_view(chosen@) == crate::seqs::keep_where(e.take(i as int), pick),
            decreases self.bound@.len() - i,
        {
            assert(e.take(i + 1).drop_last() =~= e.take(i as int));
            assert(e.take(i + 1).last() == e[i as int]);
            assert(e[i as int] == (self.bound@[i as int].0@, self.bound@[i as int].1@));
            let cs = chars_of(self.bound[i].1.as_str());
            let ws = words_of(&cs);
            assert(cs@ == e[i as int].1);
            assert(char_lines(ws@).len() == ws@.len());
            let hit = ws.len() > 0 && same_chars(&ws[0], &cmd);
            assert(hit == pick(e[i as int])) by {
                if ws@.len() > 0 {
                    assert(char_lines(ws@)[0] == ws@[0]@);
                    assert(words(e[i as int].1)[0] == ws@[0]@);
                }
            }
            if hit {
                let ghost before = entries_view(chosen@);
                chosen.push((self.bound[i].0.clone(), self.bound[i].1.clone()));
                assert(entries_view(chosen@) =~= before.push(e[i as int]));
            }
            i += 1;
        }
        assert(e.take(e.len() as int) =~= e);
        let ghost cv = entries_view(chosen@);
        let mut sorted: Vec<(String, String)> = Vec::new();
        let mut j: usize = 0;
        assert(entries_view(sorted@) =~= help_order(cv.take(0)));
        while j < chosen.len()
            invariant
                j <= chosen@.len(),
                cv == entries_view(chosen@),
                entries_view(sorted@) == help_order(cv.take(j as int)),
            decreases chosen@.len() - j,
        {
            let x = (chosen[j].0.clone(), chosen[j].1.clone());
            assert((x.0@, x.1@) == cv[j as int]);
            let ghost sv = entries_view(sorted@);
            let mut p: usize = 0;
            while p < sorted.len() && !before_exec(&x, &sorted[p])
                invariant
                    p <= sorted@.len(),
                    sv == entries_view(sorted@),
                    forall|q: int| 0 <= q < p ==> !goes_after((x.0@, x.1@))(#[trigger] sv[q]),
                decreases sorted@.len() - p,
            {
                assert(sv[p as int] == (sorted@[p as int].0@, sorted@[p as int].1@));
                p += 1;
            }
            proof {
                lemma_first_index(sv, goes_after((x.0@, x.1@)));
            }
            let at_end = p == sorted.len();
            if !at_end {
                assert(sv[p as int] == (sorted@[p as int].0@, sorted@[p as int].1@));
                let hit = before_exec(&x, &sorted[p]);
                assert(hit);
            }
            assert(cv.take(j + 1).drop_last() =~= cv.take(j as int));
            assert(cv.take(j + 1).last() == cv[j as int]);
            let ghost xv = (x.0@, x.1@);
            sorted.insert(p, x);
            if at_end {
                assert(entries_view(sorted@) =~= sv.push(xv));
            } else {
                assert(entries_view(sorted@) =~= sv.insert(p as int, xv));
            }
            j += 1;
        }
        assert(cv.take(cv.len() as int) =~= cv);
        let ghost hv = entries_view(sorted@);
        let mut out: Vec<String> = Vec::new();
        let mut k: usize = 0;
        proof {
            reveal_strlit(" (");
            reveal_strlit(")");
        }
        while k < sorted.len()
            invariant
                k <= sorted@.len(),
                hv == entries_view(sorted@),
                cmd@ == command@,
                out@.map_values(|s: String| s@) == hv.take(k as int).map_values(
                    |e: (Seq<char>, Seq<char>)| help_entry(e, command@),
                ),
            decreases sorted@.len() - k,
        {
            assert(hv[k as int] == (sorted@[k as int].0@, sorted@[k as int].1@));
            let keys = chars_of(sorted[k].0.as_str());
            let rest = trim_chars(&strip_all_exec(&chars_of(sorted[k].1.as_str()), &cmd));
            let shown = if rest.len() == 0 {
                keys
            } else {
                let mut v = concat_chars(&keys, &chars_of(" ("));
                v = concat_chars(&v, &rest);
                v.push(')');
                v
            };
            proof {
                reveal_strlit(" (");
                reveal_strlit(")");
            }
            assert(shown@ =~= help_entry(hv[k as int], command@));
            out.push(string_of(shown.as_slice()));
            assert(hv.take(k + 1).map_values(|e: (Seq<char>, Seq<char>)| help_entry(e, command@)) =~= hv.take(
                k as int,
            ).map_values(|e: (Seq<char>, Seq<char>)| help_entry(e, command@)).push(help_entry(hv[k as int], command@)));
            assert(out@.map_values(|s: String| s@) =~= hv.take(k as int).map_values(
                |e: (Seq<char>, Seq<char>)| help_entry(e, command@),
            ).push(help_entry(hv[k as int], command@)));
            k += 1;
        }
        assert(hv.take(hv.len() as int) =~= hv);
        out
    }
}

/// A control character, as `char::is_control` says: Unicode's `Cc`.
pub open spec fn is_control(c: char) -> bool {
    (c as u32) < 0x20 || (0x7f <= (c as u32) && (c as u32) < 0xa0)
}

/// The modifiers written before a key's name.
pub open spec fn mods_text(ctrl: bool, alt: bool) -> Seq<char> {
    (if ctrl {
        "Ctrl-"@
    } else {
        Seq::empty()
    }) + (if alt {
        "Alt-"@
    } else {
        Seq::empty()
    })
}

/// The name of a key press, from the name of a special key (`Left`,
/// `Space`, `F1`, …; empty for any other key), the character the key
/// gives, and the modifiers held: a special key in angle brackets with
/// its modifiers; a character as it is, in angle brackets with Ctrl or
/// Alt, `<lt>` for `<`; none for a key that gives no character or a
/// control character.
pub open spec fn key_name_spec(special: Seq<char>, ch: Option<char>, ctrl: bool, alt: bool, shift: bool) -> Option<
    Seq<char>,
> {
    if special.len() > 0 {
        Some(
            seq!['<'] + mods_text(ctrl, alt) + (if shift {
                "Shift-"@
            } else {
                Seq::empty()
            }) + special + seq!['>'],
        )
    } else {
        match ch {
            None => None,
            Some(c) => if is_control(c) {
                None
            } else if ctrl || alt {
                Some(seq!['<'] + mods_text(ctrl, alt) + seq![c] + seq!['>'])
            } else if c == '<' {
                Some("<lt>"@)
            } else {
                Some(seq![c])
            },
        }
    }
}

/// The name of a key press; see `key_name_spec`.
pub fn key_name_of(special: &str, ch: Option<char>, ctrl: bool, alt: bool, shift: bool) -> (r: Option<String>)
    ensures
        match r {
            Some(s) => key_name_spec(special@, ch, ctrl, alt, shift) == Some(s@),
            None => key_name_spec(special@, ch, ctrl, alt, shift) is None,
        },
{
    proof {
        reveal_strlit("Ctrl-");
        reveal_strlit("Alt-");
        reveal_strlit("Shift-");
        reveal_strlit("<lt>");
    }
    let sp = chars_of(special);
    let mut mods: Vec<char> = Vec::new();
    if ctrl {
        mods = chars_of("Ctrl-");
    }
    if alt {
        mods = concat_chars(&mods, &chars_of("Alt-"));
    }
    assert(mods@ =~= mods_text(ctrl, alt));
    if sp.len() > 0 {
        let mut out: Vec<char> = Vec::new();
        out.push('<');
        out = concat_chars(&out, &mods);
        if shift {
            out = concat_chars(&out, &chars_of("Shift-"));
        }
        out = concat_chars(&out, &sp);
        out.push('>');
        assert(out@ =~= seq!['<'] + mods_text(ctrl, alt) + (if shift {
            "Shift-"@
        } else {
            Seq::empty()
        }) + special@ + seq!['>']);
        return Some(string_of(out.as_slice()));
    }
    let c = match ch {
        None => {
            return None;
        },
        Some(c) => c,
    };
    let u = c as u32;
    if u < 0x20 || (0x7f <= u && u < 0xa0) {
        return None;
    }
    if ctrl || alt {
        let mut out: Vec<char> = Vec::new();
        out.push('<');
        out = concat_chars(&out, &mods);
        out.push(c);
        out.push('>');
        assert(out@ =~= seq!['<'] + mods_text(ctrl, alt) + seq![c] + seq!['>']);
        return Some(string_of(out.as_slice()));
    }
    if c == '<' {
        return Some("<lt>".to_owned());
    }
    let mut out: Vec<char> = Vec::new();
    out.push(c);
    Some(string_of(out.as_slice()))
}

/// What a key press does in normal mode.
#[derive(PartialEq, Eq, Debug)]
pub enum KeyStep {
    /// The keys so far are bound: run the command.
    Run(String),
    /// Longer bindings start with the keys so far: wait for more.
    Wait(String),
    /// Nothing starts with them: start over.
    Reset,
}

impl Keymap {
    /// A key named `name` pressed after the keys `pending`: run what the
    /// keys so far are bound to, wait when a longer binding starts with
    /// them, else start over.
    pub fn press(&self, pending: &str, name: &str) -> (r: KeyStep)
        requires
            self.wf(),
        ensures
            ({
                let s = pending@ + name@;
                if self.bound().dom().contains(s) {
                    r matches KeyStep::Run(c) && c@ == self.bound()[s]
                } else if exists|k: Seq<char>|
                    self.bound().dom().contains(k) && k.len() > s.len() && #[trigger] starts_with(k, s) {
                    r matches KeyStep::Wait(w) && w@ == s
                } else {
                    r is Reset
                }
            }),
    {
        let seq = string_of(concat_chars(&chars_of(pending), &chars_of(name)).as_slice());
        let (exact, more) = self.lookup(seq.as_str());
        match exact {
            Some(c) => KeyStep::Run(c),
            None => if more {
                KeyStep::Wait(seq)
            } else {
                KeyStep::Reset
            },
        }
    }
}

} // verus!
