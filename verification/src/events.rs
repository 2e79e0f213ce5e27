//! What the browser does with a key press in each mode, and with a
//! message a page sends: from the state and the event to the next mode
//! and the action the window carries out.

use vstd::prelude::*;
use crate::passwords::{site_key, site_key_spec, worth_saving, Change, Login, LoginView, Store};
use crate::text::{chars_of, concat_chars, decimal, push_decimal, string_of};

verus! {

/// What keys do right now.
#[derive(Clone, Copy, Debug, PartialEq, Eq, Structural)]
pub enum Mode {
    /// Keys run commands.
    Normal,
    /// Keys go to the page.
    Insert,
    /// Keys pick a link by its letters.
    Hint,
    /// Keys go to the command line.
    Command,
    /// A yes-or-no question waits.
    Prompt,
}

/// The keys with a meaning of their own to the modes.
#[derive(Clone, Copy, Debug, PartialEq, Eq, Structural)]
pub enum Special {
    Escape,
    Tab,
    /// Shift-Tab.
    BackTab,
    Up,
    Down,
    Backspace,
    /// Any other key.
    Other,
}

/// A key press: which key, the character it types if any, and whether
/// Ctrl is held.
#[derive(Clone, Copy, Debug, PartialEq, Eq, Structural)]
pub struct KeyInput {
    pub key: Special,
    pub ch: Option<char>,
    pub ctrl: bool,
}

/// What the window does with a key press.
#[derive(Clone, Copy, Debug, PartialEq, Eq, Structural)]
pub enum KeyAction {
    /// Let the key through to the widget that has it.
    Pass,
    /// Take the key and do nothing more.
    Swallow,
    /// Close the command line.
    EndAsk,
    /// Walk the completion offers by this step.
    Complete(i32),
    /// Leave the page's field.
    Blur,
    /// Go to the page's next (1) or previous (-1) field.
    FocusNext(i32),
    /// Take the link letters off the page.
    StopHints,
    /// One more letter of a link's hint; backspace is `'\u{8}'`.
    HintKey(char),
    /// The answer to the question that waits.
    Answer(bool),
    /// Drop the keys typed so far, the message and the question, and stop
    /// finding.
    Cancel,
    /// Look the key up in the key bindings.
    Binding,
}

/// An ASCII letter.
pub open spec fn is_ascii_letter(c: char) -> bool {
    ('a' <= c && c <= 'z') || ('A' <= c && c <= 'Z')
}

/// An ASCII letter in lower case.
pub open spec fn ascii_lower(c: char) -> char {
    if 'A' <= c && c <= 'Z' {
        ((c as u32) + 32) as char
    } else {
        c
    }
}

/// The next mode and the action for key `k` pressed in mode `mode`.
pub open spec fn key_step_spec(mode: Mode, k: KeyInput) -> (Mode, KeyAction) {
    match mode {
        Mode::Command => match k.key {
            Special::Escape => (mode, KeyAction::EndAsk),
            Special::Tab | Special::Down => (mode, KeyAction::Complete(1i32)),
            Special::BackTab | Special::Up => (mode, KeyAction::Complete(-1i32)),
            _ => (mode, KeyAction::Pass),
        },
        Mode::Insert => if k.key == Special::Escape || (k.ctrl && k.ch == Some('[')) {
            (Mode::Normal, KeyAction::Blur)
        } else if k.key == Special::Tab {
            (mode, KeyAction::FocusNext(1i32))
        } else if k.key == Special::BackTab {
            (mode, KeyAction::FocusNext(-1i32))
        } else {
            (mode, KeyAction::Pass)
        },
        Mode::Hint => if k.key == Special::Escape {
            (Mode::Normal, KeyAction::StopHints)
        } else if k.key == Special::Backspace {
            (mode, KeyAction::HintKey('\u{8}'))
        } else {
            match k.ch {
                Some(c) => if is_ascii_letter(c) {
                    (mode, KeyAction::HintKey(ascii_lower(c)))
                } else {
                    (mode, KeyAction::Swallow)
                },
                None => (mode, KeyAction::Swallow),
            }
        },
        Mode::Prompt => if k.ch == Some('y') || k.ch == Some('Y') {
            (mode, KeyAction::Answer(true))
        } else if k.ch == Some('n') || k.ch == Some('N') || k.key == Special::Escape {
            (mode, KeyAction::Answer(false))
        } else {
            (mode, KeyAction::Swallow)
        },
        Mode::Normal => if k.key == Special::Escape {
            (mode, KeyAction::Cancel)
        } else {
            (mode, KeyAction::Binding)
        },
    }
}

/// What key `k` does in mode `mode`: the next mode and the action.
pub fn key_step(mode: Mode, k: KeyInput) -> (r: (Mode, KeyAction))
    ensures
        r == key_step_spec(mode, k),
{
    match mode {
        Mode::Command => match k.key {
            Special::Escape => (mode, KeyAction::EndAsk),
            Special::Tab | Special::Down => (mode, KeyAction::Complete(1)),
            Special::BackTab | Special::Up => (mode, KeyAction::Complete(-1)),
            _ => (mode, KeyAction::Pass),
        },
        Mode::Insert => {
            let bracket = match k.ch {
                Some(c) => c == '[',
                None => false,
            };
            if k.key == Special::Escape || (k.ctrl && bracket) {
                (Mode::Normal, KeyAction::Blur)
            } else if k.key == Special::Tab {
                (mode, KeyAction::FocusNext(1))
            } else if k.key == Special::BackTab {
                (mode, KeyAction::FocusNext(-1))
            } else {
                (mode, KeyAction::Pass)
            }
        },
        Mode::Hint => if k.key == Special::Escape {
            (Mode::Normal, KeyAction::StopHints)
        } else if k.key == Special::Backspace {
            (mode, KeyAction::HintKey('\u{8}'))
        } else {
            match k.ch {
                Some(c) => if ('a' <= c && c <= 'z') || ('A' <= c && c <= 'Z') {
                    let l = if 'A' <= c && c <= 'Z' {
                        ((c as u32) + 32) as u8 as char
                    } else {
                        c
                    };
                    proof {
                        if 'A' <= c && c <= 'Z' {
                            assert((((c as u32) + 32) as u8 as char) == (((c as u32) + 32) as char));
                        }
                    }
                    (mode, KeyAction::HintKey(l))
                } else {
                    (mode, KeyAction::Swallow)
                },
                None => (mode, KeyAction::Swallow),
            }
        },
        Mode::Prompt => {
            let (yes, no) = match k.ch {
                Some(c) => (c == 'y' || c == 'Y', c == 'n' || c == 'N'),
                None => (false, false),
            };
            if yes {
                (mode, KeyAction::Answer(true))
            } else if no || k.key == Special::Escape {
                (mode, KeyAction::Answer(false))
            } else {
                (mode, KeyAction::Swallow)
            }
        },
        Mode::Normal => if k.key == Special::Escape {
            (mode, KeyAction::Cancel)
        } else {
            (mode, KeyAction::Binding)
        },
    }
}

/// The fields a page's message may carry, as sent: its kind, and what
/// each kind needs.
pub struct RawMessage {
    pub kind: Option<String>,
    pub editable: Option<bool>,
    pub uri: Option<String>,
    pub background: Option<bool>,
    pub origin: Option<String>,
    pub username: Option<String>,
    pub password: Option<String>,
}

/// A raw message's fields as plain values.
pub struct RawMessageView {
    pub kind: Option<Seq<char>>,
    pub editable: Option<bool>,
    pub uri: Option<Seq<char>>,
    pub background: Option<bool>,
    pub origin: Option<Seq<char>>,
    pub username: Option<Seq<char>>,
    pub password: Option<Seq<char>>,
}

/// The text of an optional string.
pub open spec fn opt_text(o: Option<String>) -> Option<Seq<char>> {
    match o {
        Some(s) => Some(s@),
        None => None,
    }
}

impl View for RawMessage {
    type V = RawMessageView;

    open spec fn view(&self) -> RawMessageView {
        RawMessageView {
            kind: opt_text(self.kind),
            editable: self.editable,
            uri: opt_text(self.uri),
            background: self.background,
            origin: opt_text(self.origin),
            username: opt_text(self.username),
            password: opt_text(self.password),
        }
    }
}

/// What the JSON text `text` a page sent holds in the fields `t`,
/// `editable`, `uri`, `background`, `origin`, `username` and `password`,
/// each where it has the right JSON type (none of them for JSON that is
/// no object); nothing when the text is no JSON.
pub uninterp spec fn raw_message_of(text: Seq<char>) -> Option<RawMessageView>;

/// The fields of the JSON text a page sent, by `serde_json::from_str` into
/// a `serde_json::Value` and its `get`, `as_str` and `as_bool`. What the
/// parse gives is named by `raw_message_of`; JSON's grammar is not written
/// out here.
#[verifier::external_body]
fn parse_raw_message(text: &str) -> (r: Option<RawMessage>)
    ensures
        match r {
            Some(m) => raw_message_of(text@) == Some(m@),
            None => raw_message_of(text@) is None,
        },
{
    let v: serde_json::Value = serde_json::from_str(text).ok()?;
    let s = |k: &str| v.get(k).and_then(|x| x.as_str()).map(String::from);
    let b = |k: &str| v.get(k).and_then(|x| x.as_bool());
    Some(RawMessage {
        kind: s("t"),
        editable: b("editable"),
        uri: s("uri"),
        background: b("background"),
        origin: s("origin"),
        username: s("username"),
        password: s("password"),
    })
}

/// What a page tells the browser.
pub enum PageMessage {
    /// Focus moved; to a field you can type in when `editable`.
    Focus { editable: bool },
    /// A link asks to open in a new tab, behind the current one when
    /// `background`.
    Open { uri: String, background: bool },
    /// A login form was sent.
    Login(Login),
    /// Anything else.
    Other,
}

/// A page's message as plain values.
pub enum PageMessageView {
    Focus(bool),
    Open(Seq<char>, bool),
    Login(LoginView),
    Other,
}

impl View for PageMessage {
    type V = PageMessageView;

    open spec fn view(&self) -> PageMessageView {
        match self {
            PageMessage::Focus { editable } => PageMessageView::Focus(*editable),
            PageMessage::Open { uri, background } => PageMessageView::Open(uri@, *background),
            PageMessage::Login(l) => PageMessageView::Login(l@),
            PageMessage::Other => PageMessageView::Other,
        }
    }
}

/// The text of an optional field, or nothing.
pub open spec fn text_or_empty(o: Option<Seq<char>>) -> Seq<char> {
    match o {
        Some(t) => t,
        None => Seq::empty(),
    }
}

/// What the fields of a page's message mean: a missing text is empty, a
/// missing `editable` false and a missing `background` true.
pub open spec fn page_message_spec(raw: RawMessageView) -> PageMessageView {
    let kind = text_or_empty(raw.kind);
    if kind == "focus"@ {
        PageMessageView::Focus(
            match raw.editable {
                Some(b) => b,
                None => false,
            },
        )
    } else if kind == "open"@ {
        PageMessageView::Open(
            text_or_empty(raw.uri),
            match raw.background {
                Some(b) => b,
                None => true,
            },
        )
    } else if kind == "login"@ {
        PageMessageView::Login(
            LoginView {
                origin: text_or_empty(raw.origin),
                username: text_or_empty(raw.username),
                password: text_or_empty(raw.password),
                used: 0,
            },
        )
    } else {
        PageMessageView::Other
    }
}

fn string_or_empty(o: Option<String>) -> (r: String)
    ensures
        r@ == text_or_empty(opt_text(o)),
{
    match o {
        Some(s) => s,
        None => String::new(),
    }
}

/// What the fields of a page's message mean.
pub fn page_message(raw: RawMessage) -> (r: PageMessage)
    ensures
        r@ == page_message_spec(raw@),
{
    let ghost rv = raw@;
    let kind = string_or_empty(raw.kind);
    proof {
        reveal_strlit("focus");
        reveal_strlit("open");
        reveal_strlit("login");
    }
    if crate::text::str_eq(kind.as_str(), "focus") {
        let editable = match raw.editable {
            Some(b) => b,
            None => false,
        };
        PageMessage::Focus { editable }
    } else if crate::text::str_eq(kind.as_str(), "open") {
        let background = match raw.background {
            Some(b) => b,
            None => true,
        };
        PageMessage::Open { uri: string_or_empty(raw.uri), background }
    } else if crate::text::str_eq(kind.as_str(), "login") {
        PageMessage::Login(
            Login {
                origin: string_or_empty(raw.origin),
                username: string_or_empty(raw.username),
                password: string_or_empty(raw.password),
                used: 0,
            },
        )
    } else {
        PageMessage::Other
    }
}

/// The message in the JSON text `text` a page sent, or nothing when it is
/// no JSON.
pub fn read_page_message(text: &str) -> (r: Option<PageMessage>)
    ensures
        r is None <==> raw_message_of(text@) is None,
        r matches Some(m) ==> m@ == page_message_spec(raw_message_of(text@)->0),
{
    match parse_raw_message(text) {
        Some(raw) => Some(page_message(raw)),
        None => None,
    }
}

/// What the window does after a page's message.
pub enum MessageAction {
    Nothing,
    /// Open `uri` in a new tab.
    Open { uri: String, background: bool },
    /// Ask the question whether to save `login`.
    AskSave { login: Login, question: String },
}

/// A message action as plain values.
pub enum MessageActionView {
    Nothing,
    Open(Seq<char>, bool),
    AskSave(LoginView, Seq<char>),
}

impl View for MessageAction {
    type V = MessageActionView;

    open spec fn view(&self) -> MessageActionView {
        match self {
            MessageAction::Nothing => MessageActionView::Nothing,
            MessageAction::Open { uri, background } => MessageActionView::Open(uri@, *background),
            MessageAction::AskSave { login, question } => MessageActionView::AskSave(login@, question@),
        }
    }
}

/// The question whether to save login `l`.
pub open spec fn save_question(l: LoginView) -> Seq<char> {
    "Save the password of "@ + (if l.username.len() == 0 {
        "(no username)"@
    } else {
        l.username
    }) + " for "@ + site_key_spec(l.origin) + "? (y/n)"@
}

/// The next mode and the action for message `m` from a page, the page
/// being the current tab's when `is_current`, with the store `st`. Focus
/// on a field of the current page enters insert mode and focus elsewhere
/// leaves it; a link opens in a new tab; a login worth saving is asked
/// about, unless the command line or another question is open.
pub open spec fn message_step_spec(mode: Mode, is_current: bool, m: PageMessageView, st: crate::passwords::StoreView) -> (
    Mode,
    MessageActionView,
) {
    match m {
        PageMessageView::Focus(editable) => if !is_current {
            (mode, MessageActionView::Nothing)
        } else if editable && mode == Mode::Normal {
            (Mode::Insert, MessageActionView::Nothing)
        } else if !editable && mode == Mode::Insert {
            (Mode::Normal, MessageActionView::Nothing)
        } else {
            (mode, MessageActionView::Nothing)
        },
        PageMessageView::Open(uri, background) => if uri.len() > 0 {
            (mode, MessageActionView::Open(uri, background))
        } else {
            (mode, MessageActionView::Nothing)
        },
        PageMessageView::Login(l) => if !worth_saving(st, l) || mode == Mode::Command || mode == Mode::Prompt {
            (mode, MessageActionView::Nothing)
        } else {
            (Mode::Prompt, MessageActionView::AskSave(l, save_question(l)))
        },
        PageMessageView::Other => (mode, MessageActionView::Nothing),
    }
}

/// What message `m` from a page does: the next mode and the action.
pub fn message_step(mode: Mode, is_current: bool, m: PageMessage, store: &Store) -> (r: (Mode, MessageAction))
    ensures
        (r.0, r.1@) == message_step_spec(mode, is_current, m@, store@),
{
    match m {
        PageMessage::Focus { editable } => if !is_current {
            (mode, MessageAction::Nothing)
        } else if editable && mode == Mode::Normal {
            (Mode::Insert, MessageAction::Nothing)
        } else if !editable && mode == Mode::Insert {
            (Mode::Normal, MessageAction::Nothing)
        } else {
            (mode, MessageAction::Nothing)
        },
        PageMessage::Open { uri, background } => if uri.unicode_len() > 0 {
            (mode, MessageAction::Open { uri, background })
        } else {
            (mode, MessageAction::Nothing)
        },
        PageMessage::Login(l) => {
            if !store.offer_to_save(&l) || mode == Mode::Command || mode == Mode::Prompt {
                (mode, MessageAction::Nothing)
            } else {
                let user = chars_of(l.username.as_str());
                let who = if user.len() == 0 {
                    chars_of("(no username)")
                } else {
                    user
                };
                let mut q = chars_of("Save the password of ");
                q = concat_chars(&q, &who);
                q = concat_chars(&q, &chars_of(" for "));
                q = concat_chars(&q, &chars_of(site_key(l.origin.as_str()).as_str()));
                q = concat_chars(&q, &chars_of("? (y/n)"));
                let question = string_of(q.as_slice());
                (Mode::Prompt, MessageAction::AskSave { login: l, question })
            }
        },
        PageMessage::Other => (mode, MessageAction::Nothing),
    }
}

/// The JSON string literal `serde_json` writes for `s`: in double quotes,
/// with quotes, backslashes and control characters escaped; nothing when
/// it refuses.
pub uninterp spec fn json_text_of(s: Seq<char>) -> Option<Seq<char>>;

/// `s` as a JSON string, by `serde_json::to_string`. What it writes is
/// named by `json_text_of`.
#[verifier::external_body]
fn json_text(s: &str) -> (r: Option<String>)
    ensures
        match r {
            Some(t) => json_text_of(s@) == Some(t@),
            None => json_text_of(s@) is None,
        },
{
    serde_json::to_string(s).ok()
}

/// `s` as a string literal for the page's script, or an empty one when it
/// cannot be written.
pub fn js_string(s: &str) -> (r: String)
    ensures
        r@ == match json_text_of(s@) {
            Some(t) => t,
            None => "\"\""@,
        },
{
    match json_text(s) {
        Some(t) => t,
        None => "\"\"".to_owned(),
    }
}

/// What the status line says after a login was saved: `user` for the
/// site of `origin`.
pub open spec fn save_message_spec(r: Result<Change, Seq<char>>, user: Seq<char>, origin: Seq<char>) -> Seq<char> {
    match r {
        Ok(Change::New) => "Saved "@ + user + " for "@ + site_key_spec(origin),
        Ok(Change::Updated) => "Updated the password of "@ + user + " for "@ + site_key_spec(origin),
        Ok(Change::Same) => "Already saved"@,
        Err(e) => "Passwords: "@ + e,
    }
}

/// The status line after saving a login of `user` for `origin` gave `r`.
pub fn save_message(r: &Result<Change, String>, user: &str, origin: &str) -> (m: String)
    ensures
        m@ == save_message_spec(
            match r {
                Ok(c) => Ok(*c),
                Err(e) => Err(e@),
            },
            user@,
            origin@,
        ),
{
    match r {
        Ok(Change::New) => {
            let mut t = chars_of("Saved ");
            t = concat_chars(&t, &chars_of(user));
            t = concat_chars(&t, &chars_of(" for "));
            t = concat_chars(&t, &chars_of(site_key(origin).as_str()));
            string_of(t.as_slice())
        },
        Ok(Change::Updated) => {
            let mut t = chars_of("Updated the password of ");
            t = concat_chars(&t, &chars_of(user));
            t = concat_chars(&t, &chars_of(" for "));
            t = concat_chars(&t, &chars_of(site_key(origin).as_str()));
            string_of(t.as_slice())
        },
        Ok(Change::Same) => "Already saved".to_owned(),
        Err(e) => string_of(concat_chars(&chars_of("Passwords: "), &chars_of(e.as_str())).as_slice()),
    }
}

/// The status line after removing the login of `user` gave `r`.
pub fn remove_message(r: &Result<bool, String>, user: &str) -> (m: String)
    ensures
        m@ == match r {
            Ok(true) => "Removed "@ + user@,
            Ok(false) => "No login "@ + user@ + " for this site"@,
            Err(e) => "Passwords: "@ + e@,
        },
{
    match r {
        Ok(true) => string_of(concat_chars(&chars_of("Removed "), &chars_of(user)).as_slice()),
        Ok(false) => {
            let t = concat_chars(&chars_of("No login "), &chars_of(user));
            string_of(concat_chars(&t, &chars_of(" for this site")).as_slice())
        },
        Err(e) => string_of(concat_chars(&chars_of("Passwords: "), &chars_of(e.as_str())).as_slice()),
    }
}

/// The status line after an import gave `r`, the CSV being deleted when
/// `deleted`.
pub fn import_message(r: &Result<(usize, usize), String>, deleted: bool) -> (m: String)
    ensures
        m@ == match r {
            Ok((a, u)) => "Imported "@ + decimal(*a as nat) + " logins, updated "@ + decimal(*u as nat) + (if deleted {
                "; the CSV is deleted"@
            } else {
                Seq::empty()
            }),
            Err(e) => "Import failed: "@ + e@,
        },
{
    match r {
        Ok((a, u)) => {
            let mut t = chars_of("Imported ");
            push_decimal(&mut t, *a as u64);
            t = concat_chars(&t, &chars_of(" logins, updated "));
            push_decimal(&mut t, *u as u64);
            if deleted {
                t = concat_chars(&t, &chars_of("; the CSV is deleted"));
            }
            string_of(t.as_slice())
        },
        Err(e) => string_of(concat_chars(&chars_of("Import failed: "), &chars_of(e.as_str())).as_slice()),
    }
}

} // verus!
