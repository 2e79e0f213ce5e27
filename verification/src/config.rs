//! Turning what you type into a URI, paths under the home directory, and
//! the sites where dark pages differ from the default.

use vstd::prelude::*;
use std::path::PathBuf;
use crate::passwords::{after_last, bare_host, before_first, host_end, site_host, split_scheme, split_scheme_of, strip_prefix};
use crate::entries::{entries_view, lemma_map_of, map_of, put_entry, sorted_keys};
use vstd::utf8::encode_utf8;
use crate::seqs::{first_index, last_index};
use crate::text::{
    is_ws, strip_cr, char_lines, lines, lines_of, str_is, trim_chars, words, words_of, chars_of, concat_chars, find_char, find_sub, find_sub_exec, is_char, rfind_char, same_chars,
    slice_chars, starts_with, starts_with_exec, string_of, trim, trim_str, lower_ascii, lower_ascii_chars,
};

verus! {

/// A tab group named in the config, made at start when missing.
#[derive(Clone, Debug, Default)]
pub struct GroupSpec {
    pub name: String,
    /// A name from the list (blue red yellow green pink purple orange cyan gray) or `#rrggbb`.
    pub color: String,
}

/// `base` with `rest` joined on as a path, as `Path::join` does on Unix: a
/// rest that starts at the root takes the place of the base, and a `/`
/// goes between the two when the base is not empty and does not end in one.
pub open spec fn join_path(base: Seq<char>, rest: Seq<char>) -> Seq<char> {
    if rest.len() > 0 && rest[0] == '/' {
        rest
    } else if base.len() > 0 && base.last() != '/' {
        base + seq!['/'] + rest
    } else {
        base + rest
    }
}

pub fn join_path_exec(base: &Vec<char>, rest: &Vec<char>) -> (r: Vec<char>)
    ensures
        r@ == join_path(base@, rest@),
{
    if rest.len() > 0 && rest[0] == '/' {
        return slice_chars(rest, 0, rest.len());
    }
    let mut r = slice_chars(base, 0, base.len());
    if base.len() > 0 && base[base.len() - 1] != '/' {
        r.push('/');
    }
    let r2 = concat_chars(&r, rest);
    assert(base@.subrange(0, base@.len() as int) =~= base@);
    assert(rest@.subrange(0, rest@.len() as int) =~= rest@);
    r2
}

/// `path` with a leading `~` standing for the home directory `home`.
pub open spec fn expand_spec(path: Seq<char>, home: Seq<char>) -> Seq<char> {
    if starts_with(path, "~/"@) {
        join_path(home, path.skip(2))
    } else if path == "~"@ {
        home
    } else {
        path
    }
}

fn expand_chars(path: &Vec<char>, home: &Vec<char>) -> (r: Vec<char>)
    ensures
        r@ == expand_spec(path@, home@),
{
    let tilde_slash = chars_of("~/");
    let tilde = chars_of("~");
    proof {
        reveal_strlit("~/");
    }
    if starts_with_exec(path, &tilde_slash) {
        let rest = slice_chars(path, 2, path.len());
        assert(rest@ =~= path@.skip(2));
        join_path_exec(home, &rest)
    } else if same_chars(path, &tilde) {
        slice_chars(home, 0, home.len())
    } else {
        slice_chars(path, 0, path.len())
    }
}

/// A path with a leading `~` standing for the home directory `home`.
pub fn expand(path: &str, home: &str) -> (r: String)
    ensures
        r@ == expand_spec(path@, home@),
{
    let p = chars_of(path);
    let h = chars_of(home);
    let r = expand_chars(&p, &h);
    assert(h@.subrange(0, h@.len() as int) =~= h@);
    assert(p@.subrange(0, p@.len() as int) =~= p@);
    string_of(r.as_slice())
}

/// gaze's own directory, `.gaze` under the home directory `home`.
pub fn gaze_dir(home: &str) -> (r: String)
    ensures
        r@ == join_path(home@, ".gaze"@),
{
    let h = chars_of(home);
    let d = chars_of(".gaze");
    string_of(join_path_exec(&h, &d).as_slice())
}


/// A hex digit in upper case.
pub open spec fn hex_upper(d: int) -> char {
    if d < 10 {
        (48 + d) as char
    } else {
        (55 + d) as char
    }
}

/// A byte kept as it is in a form-encoded query.
pub open spec fn unreserved(b: u8) -> bool {
    ||| 65 <= b <= 90
    ||| 97 <= b <= 122
    ||| 48 <= b <= 57
    ||| b == 45 || b == 95 || b == 46 || b == 126
}

/// One byte, form-encoded: as it is, `+` for a space, else `%XX`.
pub open spec fn form_byte(b: u8) -> Seq<char> {
    if unreserved(b) {
        seq![b as char]
    } else if b == 32 {
        seq!['+']
    } else {
        seq!['%', hex_upper((b / 16) as int), hex_upper((b % 16) as int)]
    }
}

/// Bytes, form-encoded one by one.
pub open spec fn form_encode_bytes(bs: Seq<u8>) -> Seq<char>
    decreases bs.len(),
{
    if bs.len() == 0 {
        Seq::empty()
    } else {
        form_encode_bytes(bs.drop_last()) + form_byte(bs.last())
    }
}

/// Text form-encoded, over its UTF-8 bytes.
pub open spec fn form_encode_spec(s: Seq<char>) -> Seq<char> {
    form_encode_bytes(encode_utf8(s))
}

fn hex_digit_upper(d: u8) -> (c: char)
    requires
        d < 16,
    ensures
        c == hex_upper(d as int),
{
    if d < 10 {
        (48u8 + d) as char
    } else {
        (55u8 + d) as char
    }
}

/// `s` as a form-encoded query value.
pub fn form_encode(s: &str) -> (r: String)
    ensures
        r@ == form_encode_spec(s@),
{
    let bs = s.as_bytes();
    let mut out: Vec<char> = Vec::new();
    let mut i: usize = 0;
    while i < bs.len()
        invariant
            i <= bs@.len(),
            bs@ == encode_utf8(s@),
            out@ == form_encode_bytes(bs@.take(i as int)),
        decreases bs@.len() - i,
    {
        let b = bs[i];
        assert(bs@.take(i + 1).drop_last() =~= bs@.take(i as int));
        let ghost before = out@;
        if (65 <= b && b <= 90) || (97 <= b && b <= 122) || (48 <= b && b <= 57) || b == 45 || b == 95
            || b == 46 || b == 126 {
            out.push(b as char);
        } else if b == 32 {
            out.push('+');
        } else {
            out.push('%');
            out.push(hex_digit_upper(b / 16));
            out.push(hex_digit_upper(b % 16));
        }
        assert(out@ =~= before + form_byte(b));
        i += 1;
    }
    assert(bs@.take(bs@.len() as int) =~= bs@);
    string_of(out.as_slice())
}

/// `s` with every `pat` in it, from the left and not overlapping, made
/// `rep`, as `str::replace` does.
pub open spec fn replace_all(s: Seq<char>, pat: Seq<char>, rep: Seq<char>) -> Seq<char>
    decreases s.len(),
{
    if s.len() == 0 {
        Seq::empty()
    } else if pat.len() > 0 && starts_with(s, pat) {
        rep + replace_all(s.skip(pat.len() as int), pat, rep)
    } else {
        seq![s[0]] + replace_all(s.drop_first(), pat, rep)
    }
}

/// `s` with every non-empty `pat` in it made `rep`.
pub fn replace_chars(s: &Vec<char>, pat: &Vec<char>, rep: &Vec<char>) -> (r: Vec<char>)
    requires
        pat@.len() > 0,
    ensures
        r@ == replace_all(s@, pat@, rep@),
{
    let mut out: Vec<char> = Vec::new();
    let mut i: usize = 0;
    assert(s@.skip(0) =~= s@);
    while i < s.len()
        invariant
            i <= s@.len(),
            pat@.len() > 0,
            replace_all(s@, pat@, rep@) == out@ + replace_all(s@.skip(i as int), pat@, rep@),
        decreases s@.len() - i,
    {
        let ghost rest = s@.skip(i as int);
        let m = crate::text::matches_at_exec(s, pat, i);
        assert(m == starts_with(rest, pat@)) by {
            if pat@.len() <= rest.len() {
                assert(rest.take(pat@.len() as int) =~= s@.subrange(i as int, i + pat@.len()));
            }
        }
        if m {
            let ghost before = out@;
            let mut r2 = concat_chars(&out, rep);
            out = r2;
            assert(rest.skip(pat@.len() as int) =~= s@.skip(i + pat@.len()));
            assert(out@ + replace_all(s@.skip(i + pat@.len()), pat@, rep@) =~= before + (rep@
                + replace_all(rest.skip(pat@.len() as int), pat@, rep@)));
            i += pat.len();
        } else {
            let ghost before = out@;
            out.push(s[i]);
            assert(rest.drop_first() =~= s@.skip(i + 1));
            assert(out@ + replace_all(s@.skip(i + 1), pat@, rep@) =~= before + (seq![rest[0]]
                + replace_all(rest.drop_first(), pat@, rep@)));
            i += 1;
        }
    }
    assert(replace_all(s@.skip(i as int), pat@, rep@) =~= Seq::<char>::empty());
    assert(out@ + Seq::<char>::empty() =~= out@);
    out
}

pub open spec fn is_ascii_alpha(c: char) -> bool {
    ||| 'a' as u32 <= c as u32 <= 'z' as u32
    ||| 'A' as u32 <= c as u32 <= 'Z' as u32
}

/// `s` holds the character `c`.
pub open spec fn has_char(s: Seq<char>, c: char) -> bool {
    first_index(s, is_char(c)) is Some
}

/// What the open prompt takes for a host name: no space, and a host
/// (before any path and port) with a dot inside it and a top level of two
/// or more ASCII letters.
pub open spec fn looks_like_host(s: Seq<char>) -> bool {
    let host_only = before_first(before_first(s, host_end()), is_char(':'));
    let last = after_last(host_only, '.');
    &&& !has_char(s, ' ')
    &&& has_char(host_only, '.')
    &&& !(host_only.len() > 0 && host_only[0] == '.')
    &&& !(host_only.len() > 0 && host_only.last() == '.')
    &&& forall|i: int| 0 <= i < last.len() ==> is_ascii_alpha(#[trigger] last[i])
    &&& last.len() >= 2
}

/// The texts of a list of strings.
pub open spec fn texts(v: Seq<String>) -> Seq<Seq<char>> {
    v.map_values(|p: String| p@)
}

/// A page that goes to the video player: there is a player, and the
/// address starts with one of the video prefixes.
pub open spec fn video_page(player: Seq<char>, prefixes: Seq<Seq<char>>, uri: Seq<char>) -> bool {
    player.len() > 0 && exists|i: int| 0 <= i < prefixes.len() && starts_with(uri, #[trigger] prefixes[i])
}

/// Whether `uri` is a page the config sends to the video player `player`,
/// `prefixes` being how a video page's address starts.
pub fn is_video_page(player: &str, prefixes: &Vec<String>, uri: &str) -> (r: bool)
    ensures
        r == video_page(player@, texts(prefixes@), uri@),
{
    let ghost ps = texts(prefixes@);
    if player.unicode_len() == 0 {
        return false;
    }
    let u = chars_of(uri);
    let mut i: usize = 0;
    while i < prefixes.len()
        invariant
            i <= prefixes.len(),
            u@ == uri@,
            ps == texts(prefixes@),
            player@.len() > 0,
            forall|j: int| 0 <= j < i ==> !starts_with(uri@, #[trigger] ps[j]),
        decreases prefixes.len() - i,
    {
        let p = chars_of(prefixes[i].as_str());
        if starts_with_exec(&u, &p) {
            assert(ps.len() == prefixes@.len());
            assert(ps[i as int] == prefixes@[i as int]@);
            assert(starts_with(uri@, ps[i as int]));
            return true;
        }
        i += 1;
    }
    false
}

/// What you typed in the open prompt, as a URI: a URL as it is, a path
/// as a file (a leading `~` standing for `home`), localhost over http, a
/// host with https in front, anything else as a search.
pub open spec fn to_uri_spec(input: Seq<char>, search: Seq<char>, home: Seq<char>) -> Seq<char> {
    let s = trim(input);
    if s.len() == 0 {
        "about:blank"@
    } else if find_sub(s, "://"@) is Some || starts_with(s, "about:"@) || starts_with(s, "gaze:"@)
        || starts_with(s, "data:"@) || starts_with(s, "mailto:"@) {
        s
    } else if starts_with(s, "/"@) || starts_with(s, "~/"@) {
        "file://"@ + expand_spec(s, home)
    } else if s == "localhost"@ || starts_with(s, "localhost:"@) || starts_with(s, "localhost/"@) {
        "http://"@ + s
    } else if looks_like_host(s) {
        "https://"@ + s
    } else {
        replace_all(search, "%s"@, form_encode_spec(s))
    }
}

/// A path typed from the home directory, `~/` and the rest, opens as a
/// file under the home directory: `file://`, the home directory, `/` and
/// the rest; for a home directory that does not end in `/` and a rest
/// that does not start with one and holds no `://`.
pub proof fn law_home_path_opens_as_a_file(input: Seq<char>, rest: Seq<char>, search: Seq<char>, home: Seq<char>)
    requires
        trim(input) == "~/"@ + rest,
        forall|k: int| 0 <= k && k + 3 <= rest.len() ==> #[trigger] rest.subrange(k, k + 3) != "://"@,
        !(rest.len() > 0 && rest[0] == '/'),
        home.len() > 0,
        home.last() != '/',
    ensures
        to_uri_spec(input, search, home) == "file://"@ + home + "/"@ + rest,
{
    reveal_strlit("~/");
    reveal_strlit("://");
    reveal_strlit("/");
    reveal_strlit("about:");
    reveal_strlit("gaze:");
    reveal_strlit("data:");
    reveal_strlit("mailto:");
    let s = trim(input);
    crate::text::lemma_find_sub(s, "://"@);
    if let Some(i) = find_sub(s, "://"@) {
        assert(s.subrange(i, i + 3) == "://"@);
        assert(s.subrange(i, i + 3)[0] == s[i]);
        assert("://"@[0] == ':');
        if i >= 2 {
            assert(s.len() == rest.len() + 2);
            assert(i + 3 <= s.len());
            let k = i - 2;
            assert(rest.subrange(k, k + 3) =~= s.subrange(i, i + 3));
            assert(rest.subrange(k, k + 3) != "://"@);
            assert(false);
        } else if i == 1 {
            assert(s[1] == '/');
            assert(false);
        } else {
            assert(s[0] == '~');
            assert(false);
        }
    }
    assert(s[0] == '~');
    assert(!starts_with(s, "about:"@)) by {
        if starts_with(s, "about:"@) {
            assert(s.take(6)[0] == s[0]);
        }
    }
    assert(!starts_with(s, "gaze:"@)) by {
        if starts_with(s, "gaze:"@) {
            assert(s.take(5)[0] == s[0]);
        }
    }
    assert(!starts_with(s, "data:"@)) by {
        if starts_with(s, "data:"@) {
            assert(s.take(5)[0] == s[0]);
        }
    }
    assert(!starts_with(s, "mailto:"@)) by {
        if starts_with(s, "mailto:"@) {
            assert(s.take(7)[0] == s[0]);
        }
    }
    assert(s.take(2) =~= "~/"@);
    assert(starts_with(s, "~/"@));
    assert(s.skip(2) =~= rest);
    assert(find_sub(s, "://"@) is None);
    assert(s.len() > 0);
    assert(join_path(home, rest) == home + seq!['/'] + rest);
    assert(seq!['/'] =~= "/"@);
    assert(expand_spec(s, home) == home + "/"@ + rest);
    assert(to_uri_spec(input, search, home) == "file://"@ + expand_spec(s, home));
    assert("file://"@ + (home + "/"@ + rest) =~= "file://"@ + home + "/"@ + rest);
}

/// A path typed from the root, `/` and the rest, opens as that file:
/// `file://` and the path as typed, for a path that holds no `://`.
pub proof fn law_root_path_opens_as_a_file(input: Seq<char>, rest: Seq<char>, search: Seq<char>, home: Seq<char>)
    requires
        trim(input) == "/"@ + rest,
        forall|k: int| 0 <= k && k + 3 <= rest.len() ==> #[trigger] rest.subrange(k, k + 3) != "://"@,
    ensures
        to_uri_spec(input, search, home) == "file://"@ + "/"@ + rest,
{
    reveal_strlit("://");
    reveal_strlit("/");
    reveal_strlit("~/");
    reveal_strlit("about:");
    reveal_strlit("gaze:");
    reveal_strlit("data:");
    reveal_strlit("mailto:");
    let s = trim(input);
    assert(s.len() == rest.len() + 1);
    assert(s[0] == '/');
    crate::text::lemma_find_sub(s, "://"@);
    if let Some(i) = find_sub(s, "://"@) {
        assert(s.subrange(i, i + 3) == "://"@);
        assert(s.subrange(i, i + 3)[0] == s[i]);
        assert("://"@[0] == ':');
        if i >= 1 {
            let k = i - 1;
            assert(rest.subrange(k, k + 3) =~= s.subrange(i, i + 3));
            assert(rest.subrange(k, k + 3) != "://"@);
            assert(false);
        } else {
            assert(false);
        }
    }
    assert(!starts_with(s, "about:"@)) by {
        if starts_with(s, "about:"@) {
            assert(s.take(6)[0] == s[0]);
        }
    }
    assert(!starts_with(s, "gaze:"@)) by {
        if starts_with(s, "gaze:"@) {
            assert(s.take(5)[0] == s[0]);
        }
    }
    assert(!starts_with(s, "data:"@)) by {
        if starts_with(s, "data:"@) {
            assert(s.take(5)[0] == s[0]);
        }
    }
    assert(!starts_with(s, "mailto:"@)) by {
        if starts_with(s, "mailto:"@) {
            assert(s.take(7)[0] == s[0]);
        }
    }
    assert(s.take(1) =~= "/"@);
    assert(!starts_with(s, "~/"@)) by {
        if starts_with(s, "~/"@) {
            assert(s.take(2)[0] == s[0]);
        }
    }
    assert(s != "~"@) by {
        reveal_strlit("~");
        if s == "~"@ {
            assert(s[0] == '~');
        }
    }
    assert(expand_spec(s, home) == s);
}

/// `v` begins with the characters of `p`.
fn begins(v: &Vec<char>, p: &str) -> (r: bool)
    ensures
        r == starts_with(v@, p@),
{
    let pv = chars_of(p);
    starts_with_exec(v, &pv)
}

/// `v` holds `c`.
pub fn holds_char(v: &Vec<char>, c: char) -> (r: bool)
    ensures
        r == has_char(v@, c),
{
    holds(v, c)
}

fn holds(v: &Vec<char>, c: char) -> (r: bool)
    ensures
        r == has_char(v@, c),
{
    find_char(v, c).is_some()
}

fn looks_like_host_exec(s: &Vec<char>) -> (r: bool)
    ensures
        r == looks_like_host(s@),
{
    let host = match crate::passwords::find_host_end_of(s) {
        Some(i) => slice_chars(s, 0, i),
        None => slice_chars(s, 0, s.len()),
    };
    let host_only = match find_char(&host, ':') {
        Some(i) => slice_chars(&host, 0, i),
        None => slice_chars(&host, 0, host.len()),
    };
    let last = match rfind_char(&host_only, '.') {
        Some(i) => slice_chars(&host_only, i + 1, host_only.len()),
        None => slice_chars(&host_only, 0, host_only.len()),
    };
    proof {
        assert(s@.subrange(0, s@.len() as int) =~= s@);
        assert(host@.subrange(0, host@.len() as int) =~= host@);
        assert(host_only@.subrange(0, host_only@.len() as int) =~= host_only@);
        if let Some(i) = first_index(s@, host_end()) {
            assert(s@.subrange(0, i) =~= s@.take(i));
        }
        if let Some(i) = first_index(host@, is_char(':')) {
            assert(host@.subrange(0, i) =~= host@.take(i));
        }
        if let Some(i) = last_index(host_only@, is_char('.')) {
            assert(host_only@.subrange(i + 1, host_only@.len() as int) =~= host_only@.skip(i + 1));
        }
    }
    if holds(s, ' ') || !holds(&host_only, '.') {
        return false;
    }
    if host_only.len() > 0 && (host_only[0] == '.' || host_only[host_only.len() - 1] == '.') {
        return false;
    }
    all_alpha(&last) && last.len() >= 2
}

/// Every character of `v` is an ASCII letter.
fn all_alpha(v: &Vec<char>) -> (r: bool)
    ensures
        r == forall|i: int| 0 <= i < v@.len() ==> is_ascii_alpha(#[trigger] v@[i]),
{
    let mut k: usize = 0;
    while k < v.len()
        invariant
            k <= v@.len(),
            forall|j: int| 0 <= j < k ==> is_ascii_alpha(#[trigger] v@[j]),
        decreases v@.len() - k,
    {
        let u = v[k] as u32;
        if !((97 <= u && u <= 122) || (65 <= u && u <= 90)) {
            assert(!is_ascii_alpha(v@[k as int]));
            return false;
        }
        k += 1;
    }
    true
}

/// What you typed in the open prompt, as a URI: a URL as it is, a host
/// with https in front, a path as a file (a leading `~` standing for the
/// home directory `home`), anything else as a search with `search`, in
/// which `%s` stands for what you typed.
pub fn to_uri(input: &str, search: &str, home: &str) -> (r: String)
    ensures
        r@ == to_uri_spec(input@, search@, home@),
{
    let s = trim_str(input);
    if s.len() == 0 {
        return "about:blank".to_owned();
    }
    let sep = chars_of("://");
    if find_sub_exec(&s, &sep).is_some() || begins(&s, "about:") || begins(&s, "gaze:") || begins(
        &s,
        "data:",
    ) || begins(&s, "mailto:") {
        return string_of(s.as_slice());
    }
    if begins(&s, "/") || begins(&s, "~/") {
        let h = chars_of(home);
        let e = expand_chars(&s, &h);
        let f = chars_of("file://");
        return string_of(concat_chars(&f, &e).as_slice());
    }
    let lh = chars_of("localhost");
    if same_chars(&s, &lh) || begins(&s, "localhost:") || begins(&s, "localhost/") {
        let f = chars_of("http://");
        return string_of(concat_chars(&f, &s).as_slice());
    }
    if looks_like_host_exec(&s) {
        let f = chars_of("https://");
        return string_of(concat_chars(&f, &s).as_slice());
    }
    let st = string_of(s.as_slice());
    let enc = chars_of(form_encode(st.as_str()).as_str());
    let sv = chars_of(search);
    let pat = chars_of("%s");
    proof {
        reveal_strlit("%s");
    }
    string_of(replace_chars(&sv, &pat, &enc).as_slice())
}

/// The sites' settings a line of the file gives: `<site> on` or
/// `<site> off` (any word but `on` is off); none for an empty line, a
/// comment, or a line of one word.
pub open spec fn site_line(l: Seq<char>) -> Option<(Seq<char>, bool)> {
    let t = trim(l);
    let w = words(t);
    if t.len() == 0 || t[0] == '#' || w.len() < 2 {
        None
    } else {
        Some((w[0], w[1] == "on"@))
    }
}

/// The settings the lines `ls` give, a later line winning.
pub open spec fn sites_of_lines(ls: Seq<Seq<char>>) -> Map<Seq<char>, bool>
    decreases ls.len(),
{
    if ls.len() == 0 {
        Map::empty()
    } else {
        let before = sites_of_lines(ls.drop_last());
        match site_line(ls.last()) {
            Some(x) => before.insert(x.0, x.1),
            None => before,
        }
    }
}

/// The line of the file for one site.
pub open spec fn site_text(x: (Seq<char>, bool)) -> Seq<char> {
    x.0 + if x.1 {
        " on"@
    } else {
        " off"@
    }
}

/// The file's text: the note as a comment, then a line per site.
pub open spec fn sites_text(note: Seq<char>, e: Seq<(Seq<char>, bool)>) -> Seq<char>
    decreases e.len(),
{
    if e.len() == 0 {
        "# "@ + note + seq!['\n']
    } else {
        sites_text(note, e.drop_last()) + site_text(e.last()) + seq!['\n']
    }
}

/// Sites where dark pages differ from the default, one `<site> on` or
/// `<site> off` per line of a file, under a comment that says what the
/// list is for.
pub struct DarkSites {
    sites: Vec<(String, bool)>,
    path: PathBuf,
    note: String,
}

/// The name a page is filed under in the list of dark sites, as the
/// page script reads it: an http or https page by its host, in lower case
/// and without a leading `www.`; any other page by its scheme, in lower
/// case.
pub open spec fn dark_site_spec(uri: Seq<char>) -> Seq<char> {
    let t = trim(uri);
    let scheme = lower_ascii(before_first(t, is_char(':')));
    if scheme == "http"@ || scheme == "https"@ {
        strip_prefix(lower_ascii(bare_host(split_scheme(t).1)), "www."@)
    } else {
        scheme
    }
}

/// The name the page at `uri` is filed under in the list of dark sites.
pub fn dark_site(uri: &str) -> (r: String)
    ensures
        r@ == dark_site_spec(uri@),
{
    let t = trim_str(uri);
    let sc = match find_char(&t, ':') {
        Some(i) => slice_chars(&t, 0, i),
        None => slice_chars(&t, 0, t.len()),
    };
    proof {
        assert(t@.subrange(0, t@.len() as int) =~= t@);
        if let Some(i) = first_index(t@, is_char(':')) {
            assert(t@.subrange(0, i) =~= t@.take(i));
        }
        reveal_strlit("http");
        reveal_strlit("https");
    }
    let ls = lower_ascii_chars(&sc);
    if same_chars(&ls, &chars_of("http")) || same_chars(&ls, &chars_of("https")) {
        let (_, rest) = split_scheme_of(&t);
        let h = site_host(&rest);
        string_of(h.as_slice())
    } else {
        string_of(ls.as_slice())
    }
}

impl View for DarkSites {
    type V = Map<Seq<char>, bool>;

    closed spec fn view(&self) -> Map<Seq<char>, bool> {
        map_of(self.entries())
    }
}

impl DarkSites {
    /// The sites and their settings, in order.
    pub closed spec fn entries(&self) -> Seq<(Seq<char>, bool)> {
        entries_view(self.sites@)
    }

    /// The sites are kept in order, each once.
    pub open spec fn wf(&self) -> bool {
        sorted_keys(self.entries())
    }

    /// The comment at the top of the file.
    pub closed spec fn note(&self) -> Seq<char> {
        self.note@
    }

    /// The file the list lives in.
    pub closed spec fn path(&self) -> PathBuf {
        self.path
    }

    /// The list kept in `path`, from its text `text` (empty when there is
    /// no file yet).
    pub fn load(path: PathBuf, text: &str) -> (r: DarkSites)
        ensures
            r.wf(),
            r@ == sites_of_lines(lines(text@)),
            r.note() == "Sites where dark pages differ from the default in config.yml."@,
            r.path() == path,
    {
        DarkSites::load_noted(path, "Sites where dark pages differ from the default in config.yml.", text)
    }

    /// The same list under another name and another heading; the
    /// microphone list is one of these.
    pub fn load_noted(path: PathBuf, note: &str, text: &str) -> (r: DarkSites)
        ensures
            r.wf(),
            r@ == sites_of_lines(lines(text@)),
            r.note() == note@,
            r.path() == path,
    {
        let all = chars_of(text);
        let ls = lines_of(&all);
        let mut d = DarkSites { sites: Vec::new(), path, note: note.to_owned() };
        assert(d.entries() =~= Seq::<(Seq<char>, bool)>::empty());
        assert(d@ =~= Map::<Seq<char>, bool>::empty());
        let mut i: usize = 0;
        while i < ls.len()
            invariant
                i <= ls@.len(),
                char_lines(ls@) == lines(all@),
                all@ == text@,
                d.wf(),
                d@ == sites_of_lines(char_lines(ls@).take(i as int)),
                d.note() == note@,
                d.path() == path,
            decreases ls@.len() - i,
        {
            let t = trim_chars(&ls[i]);
            assert(char_lines(ls@).take(i + 1).drop_last() =~= char_lines(ls@).take(i as int));
            assert(char_lines(ls@).take(i + 1).last() == ls@[i as int]@);
            if t.len() > 0 && t[0] != '#' {
                let w = words_of(&t);
                if w.len() >= 2 {
                    let on_word = chars_of("on");
                    let on = crate::text::same_chars(&w[1], &on_word);
                    let site = string_of(w[0].as_slice());
                    put_entry(&mut d.sites, site, on);
                }
            }
            i += 1;
        }
        assert(char_lines(ls@).take(ls@.len() as int) =~= char_lines(ls@));
        d
    }
}

impl DarkSites {
    /// The file the list lives in.
    pub fn file(&self) -> (r: &PathBuf)
        ensures
            *r == self.path(),
    {
        &self.path
    }

    /// The sites and their settings, in the order of their names.
    pub fn sites(&self) -> (r: &[(String, bool)])
        ensures
            entries_view(r@) == self.entries(),
    {
        self.sites.as_slice()
    }

    /// The setting for `site`, if it has one.
    pub fn get(&self, site: &str) -> (r: Option<bool>)
        requires
            self.wf(),
        ensures
            r == (if self@.dom().contains(site@) {
                Some(self@[site@])
            } else {
                None::<bool>
            }),
    {
        let k = chars_of(site);
        let ghost e = self.entries();
        proof {
            lemma_map_of(e);
        }
        let mut i: usize = 0;
        while i < self.sites.len()
            invariant
                i <= self.sites@.len(),
                e == self.entries(),
                k@ == site@,
                forall|j: int| 0 <= j < i ==> #[trigger] e[j].0 != site@,
                self.wf(),
            decreases self.sites@.len() - i,
        {
            assert(e[i as int] == (self.sites@[i as int].0@, self.sites@[i as int].1));
            if str_is(self.sites[i].0.as_str(), &k) {
                proof {
                    lemma_map_of(e);
                }
                assert(map_of(e)[e[i as int].0] == e[i as int].1);
                return Some(self.sites[i].1);
            }
            i += 1;
        }
        None
    }

    /// Some site asks for dark pages, whatever the default says; the page
    /// script is needed then.
    pub fn any_on(&self) -> (r: bool)
        requires
            self.wf(),
        ensures
            r == exists|k: Seq<char>| self@.dom().contains(k) && #[trigger] self@[k],
    {
        let ghost e = self.entries();
        proof {
            lemma_map_of(e);
        }
        let mut i: usize = 0;
        while i < self.sites.len()
            invariant
                i <= self.sites@.len(),
                e == self.entries(),
                forall|j: int| 0 <= j < i ==> !(#[trigger] e[j]).1,
                self.wf(),
            decreases self.sites@.len() - i,
        {
            assert(e[i as int] == (self.sites@[i as int].0@, self.sites@[i as int].1));
            if self.sites[i].1 {
                proof {
                    lemma_map_of(e);
                }
                assert(self@.dom().contains(e[i as int].0));
                assert(self@[e[i as int].0]);
                return true;
            }
            i += 1;
        }
        assert forall|k: Seq<char>| self@.dom().contains(k) implies !#[trigger] self@[k] by {
            let j = choose|j: int| 0 <= j < e.len() && #[trigger] e[j].0 == k;
            assert(map_of(e)[e[j].0] == e[j].1);
            assert(!e[j].1);
        }
        false
    }

    /// Give `site` the setting `on`. The file is written from `text`.
    pub fn set(&mut self, site: &str, on: bool)
        requires
            old(self).wf(),
        ensures
            final(self).wf(),
            final(self)@ == old(self)@.insert(site@, on),
            final(self).note() == old(self).note(),
            final(self).path() == old(self).path(),
    {
        put_entry(&mut self.sites, site.to_owned(), on);
    }

    /// Turn dark pages for `site` the other way from how it shows now: its
    /// own setting, or `default` when it has none; the new setting is
    /// kept and returned. A name the file cannot hold on one line (empty,
    /// with white space, or starting with `#`) is refused with `None`, and
    /// nothing changes.
    pub fn toggle(&mut self, site: &str, default: bool) -> (r: Option<bool>)
        requires
            old(self).wf(),
        ensures
            final(self).wf(),
            final(self).note() == old(self).note(),
            final(self).path() == old(self).path(),
            plain_site(site@) ==> r == Some(
                !(if old(self)@.dom().contains(site@) {
                    old(self)@[site@]
                } else {
                    default
                }),
            ) && final(self)@ == old(self)@.insert(site@, r->0),
            !plain_site(site@) ==> r is None && final(self).entries() == old(self).entries(),
    {
        let v = chars_of(site);
        if v.len() == 0 || v[0] == '#' {
            return None;
        }
        let mut i: usize = 0;
        while i < v.len()
            invariant
                i <= v@.len(),
                v@ == site@,
                self.wf(),
                *self == *old(self),
                forall|k: int| 0 <= k < i ==> !is_ws(#[trigger] v@[k]),
            decreases v@.len() - i,
        {
            if crate::text::is_ws_char(v[i]) {
                return None;
            }
            i += 1;
        }
        let now = match self.get(site) {
            Some(b) => b,
            None => default,
        };
        self.set(site, !now);
        Some(!now)
    }

    /// The file's text: the note as a comment, then `<site> on` or
    /// `<site> off` for each site, in order.
    pub fn text(&self) -> (r: String)
        ensures
            r@ == sites_text(self.note(), self.entries()),
            self@ == map_of(self.entries()),
    {
        let mut out: Vec<char> = Vec::new();
        out.push('#');
        out.push(' ');
        let n = chars_of(self.note.as_str());
        out = crate::text::concat_chars(&out, &n);
        out.push('\n');
        proof {
            reveal_strlit("# ");
            reveal_strlit(" on");
            reveal_strlit(" off");
        }
        let ghost e = self.entries();
        assert(out@ =~= sites_text(self.note(), e.take(0)));
        let mut i: usize = 0;
        while i < self.sites.len()
            invariant
                i <= self.sites@.len(),
                e == self.entries(),
                out@ == sites_text(self.note(), e.take(i as int)),
            decreases self.sites@.len() - i,
        {
            assert(e[i as int] == (self.sites@[i as int].0@, self.sites@[i as int].1));
            let site = chars_of(self.sites[i].0.as_str());
            let word = if self.sites[i].1 {
                chars_of(" on")
            } else {
                chars_of(" off")
            };
            let l = crate::text::concat_chars(&site, &word);
            let ghost before = out@;
            out = crate::text::concat_chars(&out, &l);
            out.push('\n');
            assert(e.take(i + 1).drop_last() =~= e.take(i as int));
            assert(out@ =~= before + site_text(e[i as int]) + seq!['\n']);
            i += 1;
        }
        assert(e.take(e.len() as int) =~= e);
        string_of(out.as_slice())
    }
}

/// A site name that reads back from the file as it is: not empty, no
/// white space in it, and not the start of a comment.
pub open spec fn plain_site(s: Seq<char>) -> bool {
    &&& s.len() > 0
    &&& s[0] != '#'
    &&& forall|i: int| 0 <= i < s.len() ==> !is_ws(#[trigger] s[i])
}

/// A text that starts with no white space keeps its first character when
/// trimmed.
proof fn lemma_trim_keeps_first(s: Seq<char>)
    requires
        s.len() > 0,
        !is_ws(s[0]),
    ensures
        trim(s).len() > 0,
        trim(s)[0] == s[0],
{
    assert(crate::text::trim_start(s) == s);
    lemma_trim_end_keeps_first(s);
}

proof fn lemma_trim_end_keeps_first(s: Seq<char>)
    requires
        s.len() > 0,
        !is_ws(s[0]),
    ensures
        crate::text::trim_end(s).len() > 0,
        crate::text::trim_end(s)[0] == s[0],
    decreases s.len(),
{
    if s.len() > 1 && is_ws(s.last()) {
        lemma_trim_end_keeps_first(s.drop_last());
    }
}

/// Words that run on without white space stay one word.
proof fn lemma_words_run(cur: Seq<char>, w: Seq<char>, rest: Seq<char>)
    requires
        forall|i: int| 0 <= i < w.len() ==> !is_ws(#[trigger] w[i]),
    ensures
        crate::text::words_from(cur, w + rest) == crate::text::words_from(cur + w, rest),
    decreases w.len(),
{
    if w.len() == 0 {
        assert(w + rest =~= rest);
        assert(cur + w =~= cur);
    } else {
        assert((w + rest).drop_first() =~= w.drop_first() + rest);
        assert((w + rest)[0] == w[0]);
        assert(!is_ws(w[0]));
        lemma_words_run(cur.push(w[0]), w.drop_first(), rest);
        assert(cur.push(w[0]) + w.drop_first() =~= cur + w);
    }
}

/// A site's line reads back as the site and its setting.
proof fn lemma_site_line(x: (Seq<char>, bool))
    requires
        plain_site(x.0),
    ensures
        site_line(site_text(x)) == Some(x),
        forall|i: int| 0 <= i < site_text(x).len() ==> #[trigger] site_text(x)[i] != '\n',
        strip_cr(site_text(x)) == site_text(x),
{
    reveal_strlit(" on");
    reveal_strlit(" off");
    reveal_strlit("on");
    reveal_strlit("off");
    let l = site_text(x);
    let word: Seq<char> = if x.1 {
        "on"@
    } else {
        "off"@
    };
    assert(l =~= x.0 + seq![' '] + word);
    assert(!is_ws(l[0]));
    assert(!is_ws(l.last()));
    assert(crate::text::trim_start(l) == l);
    assert(crate::text::trim_end(l) == l);
    lemma_words_run(Seq::empty(), x.0, seq![' '] + word);
    assert(x.0 + (seq![' '] + word) =~= l);
    assert(Seq::<char>::empty() + x.0 =~= x.0);
    assert((seq![' '] + word).drop_first() =~= word);
    lemma_words_run(Seq::empty(), word, Seq::empty());
    assert(word + Seq::<char>::empty() =~= word);
    assert(Seq::<char>::empty() + word =~= word);
    assert(words(l) =~= seq![x.0, word]);
    assert(word == "on"@ <==> x.1);
    assert forall|i: int| 0 <= i < l.len() implies #[trigger] l[i] != '\n' by {
        if i < x.0.len() {
            assert(l[i] == x.0[i]);
        }
    }
}

/// Writing the list and reading the file back gives the same settings,
/// for sites whose names fit the file's lines and a note on one line.
pub proof fn law_saved_sites_read_back(note: Seq<char>, e: Seq<(Seq<char>, bool)>)
    requires
        forall|i: int| 0 <= i < note.len() ==> #[trigger] note[i] != '\n',
        forall|i: int| 0 <= i < e.len() ==> plain_site(#[trigger] e[i].0),
    ensures
        sites_of_lines(lines(sites_text(note, e))) == map_of(e),
    decreases e.len(),
{
    reveal_strlit("# ");
    if e.len() == 0 {
        let h = "# "@ + note;
        assert forall|i: int| 0 <= i < h.len() implies #[trigger] h[i] != '\n' by {
            if i >= 2 {
                assert(h[i] == note[i - 2]);
            }
        }
        assert(sites_text(note, e) =~= h.push('\n'));
        crate::text::lemma_lines_one(Seq::empty(), h);
        assert(Seq::<char>::empty() + h =~= h);
        let l = strip_cr(h);
        assert(l[0] == '#');
        lemma_trim_keeps_first(l);
        let ls = lines(sites_text(note, e));
        assert(ls == seq![l]);
        assert(ls.drop_last() =~= Seq::<Seq<char>>::empty());
        assert(site_line(l) is None);
        assert(sites_of_lines(ls) == sites_of_lines(Seq::<Seq<char>>::empty()));
        assert(map_of(e) =~= Map::<Seq<char>, bool>::empty());
    } else {
        let p = e.drop_last();
        assert forall|i: int| 0 <= i < p.len() implies plain_site(#[trigger] p[i].0) by {
            assert(p[i] == e[i]);
        }
        law_saved_sites_read_back(note, p);
        let x = e.last();
        assert(plain_site(e[e.len() - 1].0));
        lemma_site_line(x);
        let q = site_text(x).push('\n');
        assert(sites_text(note, e) =~= sites_text(note, p) + q);
        crate::text::lemma_lines_one(Seq::empty(), site_text(x));
        assert(Seq::<char>::empty() + site_text(x) =~= site_text(x));
        assert(sites_text(note, p).len() > 0 && sites_text(note, p).last() == '\n');
        crate::text::lemma_lines_split(Seq::empty(), sites_text(note, p), q);
        let ls = lines(sites_text(note, e));
        assert(ls =~= lines(sites_text(note, p)).push(site_text(x)));
        assert(ls.drop_last() =~= lines(sites_text(note, p)));
        assert(ls.last() == site_text(x));
        assert(sites_of_lines(ls) == sites_of_lines(lines(sites_text(note, p))).insert(x.0, x.1));
        assert(map_of(e) == map_of(p).insert(x.0, x.1));
    }
}

/// The lines of `text` joined by newlines, with one at the end.
pub open spec fn join_lines(ls: Seq<Seq<char>>) -> Seq<char>
    decreases ls.len(),
{
    if ls.len() == 0 {
        Seq::empty()
    } else if ls.len() == 1 {
        ls[0]
    } else {
        join_lines(ls.drop_last()) + seq!['\n'] + ls.last()
    }
}

/// The `dark:` line of config.yml for `on`.
pub open spec fn dark_line(on: bool) -> Seq<char> {
    if on {
        "dark: true"@
    } else {
        "dark: false"@
    }
}

/// config.yml's text with the dark-pages flag set to `on`: every line
/// that starts with `dark:` made the new line, or the line added at the
/// end when there is none; the rest of the file, comments and all, as it
/// stands.
pub open spec fn with_dark_spec(text: Seq<char>, on: bool) -> Seq<char> {
    let ls = lines(text);
    let mapped = ls.map_values(
        |l: Seq<char>|
            if starts_with(l, "dark:"@) {
                dark_line(on)
            } else {
                l
            },
    );
    let found = exists|i: int| 0 <= i < ls.len() && starts_with(#[trigger] ls[i], "dark:"@);
    join_lines(
        if found {
            mapped
        } else {
            mapped.push(dark_line(on))
        },
    ) + seq!['\n']
}

/// config.yml's text with the dark-pages flag set to `on`, the rest of
/// the file as it stands.
pub fn with_dark(text: &str, on: bool) -> (r: String)
    ensures
        r@ == with_dark_spec(text@, on),
{
    let all = chars_of(text);
    let ls = lines_of(&all);
    let line = if on {
        chars_of("dark: true")
    } else {
        chars_of("dark: false")
    };
    let key = chars_of("dark:");
    let ghost cl = char_lines(ls@);
    let ghost mapped = cl.map_values(
        |l: Seq<char>|
            if starts_with(l, "dark:"@) {
                dark_line(on)
            } else {
                l
            },
    );
    let mut out: Vec<char> = Vec::new();
    let mut found = false;
    let mut i: usize = 0;
    while i < ls.len()
        invariant
            i <= ls@.len(),
            cl == char_lines(ls@),
            cl == lines(all@),
            all@ == text@,
            key@ == "dark:"@,
            line@ == dark_line(on),
            mapped.len() == cl.len(),
            forall|j: int| 0 <= j < cl.len() ==> #[trigger] mapped[j] == if starts_with(cl[j], "dark:"@) {
                dark_line(on)
            } else {
                cl[j]
            },
            out@ == join_lines(mapped.take(i as int)),
            found == exists|j: int| 0 <= j < i && starts_with(#[trigger] cl[j], "dark:"@),
        decreases ls@.len() - i,
    {
        let l = &ls[i];
        assert(cl[i as int] == l@);
        let hit = starts_with_exec(l, &key);
        let piece = if hit {
            crate::text::slice_chars(&line, 0, line.len())
        } else {
            crate::text::slice_chars(l, 0, l.len())
        };
        assert(line@.subrange(0, line@.len() as int) =~= line@);
        assert(l@.subrange(0, l@.len() as int) =~= l@);
        assert(piece@ == mapped[i as int]);
        let ghost before = out@;
        if i > 0 {
            out.push('\n');
        }
        out = crate::text::concat_chars(&out, &piece);
        assert(mapped.take(i + 1).drop_last() =~= mapped.take(i as int));
        if i == 0 {
            assert(out@ =~= mapped.take(1)[0]);
        } else {
            assert(out@ =~= before + seq!['\n'] + mapped.take(i + 1).last());
        }
        if hit {
            found = true;
        }
        i += 1;
    }
    assert(mapped.take(mapped.len() as int) =~= mapped);
    if !found {
        let ghost before = out@;
        if ls.len() > 0 {
            out.push('\n');
        }
        out = crate::text::concat_chars(&out, &line);
        if ls.len() == 0 {
            assert(mapped.push(dark_line(on)) =~= seq![dark_line(on)]);
        } else {
            assert(mapped.push(dark_line(on)).drop_last() =~= mapped);
        }
    }
    out.push('\n');
    string_of(out.as_slice())
}

/// A site given a setting keeps it when the list is written and read
/// again, and every other site keeps its own: for a list whose sites all
/// fit the file's lines, a site that does too, and a note on one line.
pub proof fn law_set_site_reads_back(
    before: Map<Seq<char>, bool>,
    after: Seq<(Seq<char>, bool)>,
    note: Seq<char>,
    site: Seq<char>,
    on: bool,
)
    requires
        forall|k: Seq<char>| #[trigger] before.dom().contains(k) ==> plain_site(k),
        plain_site(site),
        map_of(after) == before.insert(site, on),
        forall|i: int| 0 <= i < note.len() ==> #[trigger] note[i] != '\n',
    ensures
        sites_of_lines(lines(sites_text(note, after))) == before.insert(site, on),
{
    lemma_map_of(after);
    assert forall|i: int| 0 <= i < after.len() implies plain_site(#[trigger] after[i].0) by {
        assert(map_of(after).dom().contains(after[i].0));
    }
    law_saved_sites_read_back(note, after);
}


} // verus!
