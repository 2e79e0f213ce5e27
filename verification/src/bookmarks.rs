//! Bookmarks: one per line, the URL, a tab, the title. A plain text file
//! that can be edited by hand; the library reads and writes its text.

use vstd::prelude::*;
use std::path::PathBuf;
use crate::passwords::before_first;
use crate::seqs::{first_index, found_at, keep_where, lemma_first_index};
use crate::config::{replace_all, replace_chars};
use crate::text::{lemma_lines_one, lemma_lines_split, lemma_trimmed_end, strip_cr, char_lines, chars_of, find_char, find_char_in, find_sub, find_sub_in, is_char, lemma_find_sub, lines, lines_of, lower_ascii, lower_ascii_chars, slice_chars, starts_with, starts_with_exec, str_is, string_of, trim, trim_chars, trim_str, words, words_of};

verus! {

/// A bookmarked page.
#[derive(Clone, Debug, PartialEq)]
pub struct Bookmark {
    pub url: String,
    pub title: String,
}

/// A bookmark as plain text: its URL and its title.
pub open spec fn mark_view(b: Bookmark) -> (Seq<char>, Seq<char>) {
    (b.url@, b.title@)
}

/// The bookmarks, in the order they were added, and the file they live in.
pub struct Bookmarks {
    list: Vec<Bookmark>,
    path: PathBuf,
}

impl View for Bookmarks {
    type V = Seq<(Seq<char>, Seq<char>)>;

    closed spec fn view(&self) -> Seq<(Seq<char>, Seq<char>)> {
        self.list@.map_values(|b: Bookmark| mark_view(b))
    }
}

/// The bookmark a line of the file holds: the URL before the first tab,
/// the title after it, both trimmed; none for a line without a URL.
pub open spec fn line_mark(l: Seq<char>) -> Option<(Seq<char>, Seq<char>)> {
    let url = trim(before_first(l, is_char('\t')));
    let title = match first_index(l, is_char('\t')) {
        Some(i) => trim(l.skip(i + 1)),
        None => Seq::empty(),
    };
    if url.len() == 0 {
        None
    } else {
        Some((url, title))
    }
}

/// The bookmarks the lines `ls` hold, in order.
pub open spec fn marks_of_lines(ls: Seq<Seq<char>>) -> Seq<(Seq<char>, Seq<char>)>
    decreases ls.len(),
{
    if ls.len() == 0 {
        Seq::empty()
    } else {
        let before = marks_of_lines(ls.drop_last());
        match line_mark(ls.last()) {
            Some(m) => before.push(m),
            None => before,
        }
    }
}

/// Some bookmark in `m` has the URL `url`.
pub open spec fn has_url(m: Seq<(Seq<char>, Seq<char>)>, url: Seq<char>) -> bool {
    exists|i: int| 0 <= i < m.len() && #[trigger] m[i].0 == url
}

/// Holds of a bookmark with the URL `url`.
pub open spec fn url_is(url: Seq<char>) -> spec_fn((Seq<char>, Seq<char>)) -> bool {
    |m: (Seq<char>, Seq<char>)| m.0 == url
}

/// Holds of a bookmark with another URL than `url`.
pub open spec fn url_is_not(url: Seq<char>) -> spec_fn((Seq<char>, Seq<char>)) -> bool {
    |m: (Seq<char>, Seq<char>)| m.0 != url
}

/// The bookmarks after `add(url, title)` for a `url` that is not empty
/// once trimmed: a known URL gets the new title when one is given, an
/// unknown one is added at the end.
pub open spec fn add_mark(m: Seq<(Seq<char>, Seq<char>)>, url: Seq<char>, title: Seq<char>) -> Seq<
    (Seq<char>, Seq<char>),
> {
    let u = trim(url);
    let t = trim(title);
    match first_index(m, url_is(u)) {
        Some(i) => if t.len() > 0 {
            m.update(i, (u, t))
        } else {
            m
        },
        None => m.push((u, t)),
    }
}

/// The file's text for the bookmarks `m`: one `url<TAB>title` line each.
pub open spec fn marks_text(m: Seq<(Seq<char>, Seq<char>)>) -> Seq<char>
    decreases m.len(),
{
    if m.len() == 0 {
        Seq::empty()
    } else {
        marks_text(m.drop_last()) + m.last().0 + seq!['\t'] + m.last().1 + seq!['\n']
    }
}

/// The characters of `s` outside tags: neither `<` nor `>`, nor between
/// them; `inside` says whether `s` begins inside a tag.
pub open spec fn outside_tags(inside: bool, s: Seq<char>) -> Seq<char>
    decreases s.len(),
{
    if s.len() == 0 {
        Seq::empty()
    } else if s[0] == '<' {
        outside_tags(true, s.drop_first())
    } else if s[0] == '>' {
        outside_tags(false, s.drop_first())
    } else if inside {
        outside_tags(true, s.drop_first())
    } else {
        seq![s[0]] + outside_tags(false, s.drop_first())
    }
}

/// Words joined by single spaces.
pub open spec fn join_words(ws: Seq<Seq<char>>) -> Seq<char>
    decreases ws.len(),
{
    if ws.len() == 0 {
        Seq::empty()
    } else if ws.len() == 1 {
        ws[0]
    } else {
        join_words(ws.drop_last()) + seq![' '] + ws.last()
    }
}

/// The text of a piece of HTML: its tags dropped, its white space
/// squeezed to single spaces, none at either end.
pub open spec fn strip_tags_spec(s: Seq<char>) -> Seq<char> {
    join_words(words(outside_tags(false, s)))
}

/// HTML text with its character references for `&`, `<`, `>`, `"` and
/// `'` made the characters themselves, replaced one kind after another.
pub open spec fn unescape_spec(s: Seq<char>) -> Seq<char> {
    let a = replace_all(s, "&amp;"@, "&"@);
    let b = replace_all(a, "&lt;"@, "<"@);
    let c = replace_all(b, "&gt;"@, ">"@);
    let d = replace_all(c, "&quot;"@, "\""@);
    let e = replace_all(d, "&#39;"@, "'"@);
    replace_all(e, "&apos;"@, "'"@)
}

/// Holds of a space or a `>`.
pub open spec fn space_or_gt() -> spec_fn(char) -> bool {
    |c: char| c == ' ' || c == '>'
}

/// The URL an `href=` attribute gives, from what follows the `=`: up to
/// the closing quote when it is quoted, else up to a space.
pub open spec fn anchor_url(rest: Seq<char>) -> Seq<char> {
    let q = rest[0];
    if q == '"' || q == '\'' {
        before_first(rest.skip(1), is_char(q))
    } else {
        before_first(rest, space_or_gt())
    }
}

/// The links of `html` from `at` on, each a URL and its text, as the scan
/// for `<a ` tags finds them; none where an `href=` stands right at the
/// end of its tag, which the scan cannot read past.
pub open spec fn anchors_from(html: Seq<char>, at: int) -> Option<Seq<(Seq<char>, Seq<char>)>>
    decreases html.len() - at,
    when 0 <= at <= html.len()
{
    let lower = lower_ascii(html);
    let n = html.len() as int;
    match find_sub(lower.subrange(at, n), "<a "@) {
        None => Some(Seq::empty()),
        Some(i) => {
            let start = at + i;
            proof {
                lemma_find_sub(lower.subrange(at, n), "<a "@);
            }
            match first_index(lower.subrange(start, n), is_char('>')) {
                None => Some(Seq::empty()),
                Some(tag_end) => {
                    proof {
                        lemma_first_index(lower.subrange(start, n), is_char('>'));
                        reveal_strlit("<a ");
                        assert(lower.subrange(at, n).subrange(i, i + 3)[0] == '<');
                        assert(lower.subrange(start, n)[0] == lower.subrange(at, n)[i]);
                    }
                    match find_sub(lower.subrange(start, start + tag_end), "href="@) {
                        None => anchors_from(html, start + tag_end),
                        Some(h) => {
                            proof {
                                lemma_find_sub(lower.subrange(start, start + tag_end), "href="@);
                                reveal_strlit("href=");
                            }
                            let rest = html.subrange(start + h + 5, start + tag_end);
                            if rest.len() == 0 {
                                None
                            } else {
                                let body_start = start + tag_end + 1;
                                let close = match find_sub(lower.subrange(body_start, n), "</a>"@) {
                                    Some(c) => body_start + c,
                                    None => n,
                                };
                                proof {
                                    lemma_find_sub(lower.subrange(body_start, n), "</a>"@);
                                }
                                let url = anchor_url(rest);
                                let title = unescape_spec(
                                    strip_tags_spec(html.subrange(body_start, close)),
                                );
                                match anchors_from(html, close) {
                                    None => None,
                                    Some(more) => Some(
                                        if url.len() > 0 {
                                            seq![(unescape_spec(url), title)] + more
                                        } else {
                                            more
                                        },
                                    ),
                                }
                            }
                        },
                    }
                },
            }
        },
    }
}

/// Every `<a href="…">text</a>` in a page, in order: the URL and the text,
/// unescaped.
pub open spec fn anchors_spec(html: Seq<char>) -> Option<Seq<(Seq<char>, Seq<char>)>> {
    anchors_from(html, 0)
}

/// Pairs of strings as pairs of character sequences.
pub open spec fn pairs_view(v: Seq<(String, String)>) -> Seq<(Seq<char>, Seq<char>)> {
    v.map_values(|p: (String, String)| (p.0@, p.1@))
}

/// The bookmarks after importing the links `found`: those to a `place:`
/// or a `javascript:` URL and those already known are passed over, the
/// others added at the end in order.
pub open spec fn import_marks(m: Seq<(Seq<char>, Seq<char>)>, found: Seq<(Seq<char>, Seq<char>)>) -> Seq<
    (Seq<char>, Seq<char>),
>
    decreases found.len(),
{
    if found.len() == 0 {
        m
    } else {
        let before = import_marks(m, found.drop_last());
        let url = found.last().0;
        if starts_with(url, "place:"@) || starts_with(url, "javascript:"@) || has_url(before, url) {
            before
        } else {
            before.push(found.last())
        }
    }
}

/// The text of a piece of HTML, its tags dropped and its white space
/// squeezed.
pub fn strip_tags(s: &Vec<char>) -> (r: Vec<char>)
    ensures
        r@ == strip_tags_spec(s@),
{
    let mut out: Vec<char> = Vec::new();
    let mut inside = false;
    let mut i: usize = 0;
    assert(s@.skip(0) =~= s@);
    while i < s.len()
        invariant
            i <= s@.len(),
            outside_tags(false, s@) == out@ + outside_tags(inside, s@.skip(i as int)),
        decreases s@.len() - i,
    {
        let ghost rest = s@.skip(i as int);
        assert(rest[0] == s@[i as int]);
        assert(rest.drop_first() =~= s@.skip(i + 1));
        let c = s[i];
        if c == '<' {
            inside = true;
        } else if c == '>' {
            inside = false;
        } else if !inside {
            let ghost before = out@;
            out.push(c);
            assert(before + (seq![c] + outside_tags(false, rest.drop_first())) =~= out@
                + outside_tags(false, rest.drop_first()));
        }
        i += 1;
    }
    assert(out@ + outside_tags(inside, s@.skip(i as int)) =~= out@);
    let ws = words_of(&out);
    join_chars(&ws)
}

/// Words joined by single spaces.
fn join_chars(ws: &Vec<Vec<char>>) -> (r: Vec<char>)
    ensures
        r@ == join_words(char_lines(ws@)),
{
    let ghost all = char_lines(ws@);
    let mut out: Vec<char> = Vec::new();
    let mut k: usize = 0;
    while k < ws.len()
        invariant
            k <= ws@.len(),
            all == char_lines(ws@),
            out@ == join_words(all.take(k as int)),
        decreases ws@.len() - k,
    {
        let ghost before = out@;
        if k > 0 {
            out.push(' ');
        }
        let w = &ws[k];
        let mut j: usize = 0;
        let ghost mid = out@;
        while j < w.len()
            invariant
                j <= w@.len(),
                out@ == mid + w@.take(j as int),
            decreases w@.len() - j,
        {
            out.push(w[j]);
            assert(w@.take(j + 1) =~= w@.take(j as int).push(w@[j as int]));
            j += 1;
        }
        assert(w@.take(w@.len() as int) =~= w@);
        assert(all.take(k + 1).drop_last() =~= all.take(k as int));
        assert(all.take(k + 1).last() == w@);
        if k == 0 {
            assert(all.take(1)[0] == w@);
            assert(out@ =~= w@);
        } else {
            assert(out@ =~= before + seq![' '] + w@);
        }
        k += 1;
    }
    assert(all.take(ws@.len() as int) =~= all);
    out
}

/// One kind of character reference made its character.
fn replace_lit(s: &Vec<char>, pat: &str, rep: &str) -> (r: Vec<char>)
    requires
        pat@.len() > 0,
    ensures
        r@ == replace_all(s@, pat@, rep@),
{
    let p = chars_of(pat);
    let q = chars_of(rep);
    replace_chars(s, &p, &q)
}

/// HTML text with its character references for `&`, `<`, `>`, `"` and
/// `'` made the characters themselves.
pub fn unescape(s: &Vec<char>) -> (r: Vec<char>)
    ensures
        r@ == unescape_spec(s@),
{
    proof {
        reveal_strlit("&amp;");
        reveal_strlit("&lt;");
        reveal_strlit("&gt;");
        reveal_strlit("&quot;");
        reveal_strlit("&#39;");
        reveal_strlit("&apos;");
    }
    let a = replace_lit(s, "&amp;", "&");
    let b = replace_lit(&a, "&lt;", "<");
    let c = replace_lit(&b, "&gt;", ">");
    let d = replace_lit(&c, "&quot;", "\"");
    let e = replace_lit(&d, "&#39;", "'");
    replace_lit(&e, "&apos;", "'")
}

/// The URL an `href=` attribute gives, from the non-empty text after its `=`.
fn anchor_url_of(rest: &Vec<char>) -> (r: Vec<char>)
    requires
        rest@.len() > 0,
    ensures
        r@ == anchor_url(rest@),
{
    let q = rest[0];
    if q == '"' || q == '\'' {
        assert(rest@.subrange(1, rest@.len() as int) =~= rest@.skip(1));
        match find_char_in(rest, q, 1, rest.len()) {
            Some(k) => {
                assert(rest@.subrange(1, 1 + k) =~= rest@.skip(1).take(k as int));
                slice_chars(rest, 1, 1 + k)
            },
            None => slice_chars(rest, 1, rest.len()),
        }
    } else {
        let mut k: usize = 0;
        while k < rest.len() && rest[k] != ' ' && rest[k] != '>'
            invariant
                k <= rest@.len(),
                forall|j: int| 0 <= j < k ==> !space_or_gt()(#[trigger] rest@[j]),
            decreases rest@.len() - k,
        {
            k += 1;
        }
        proof {
            lemma_first_index(rest@, space_or_gt());
            assert(rest@.subrange(0, k as int) =~= rest@.take(k as int));
            assert(rest@.subrange(0, rest@.len() as int) =~= rest@);
        }
        slice_chars(rest, 0, k)
    }
}

/// `o` with the links `v` in front.
pub open spec fn after_links(
    v: Seq<(Seq<char>, Seq<char>)>,
    o: Option<Seq<(Seq<char>, Seq<char>)>>,
) -> Option<Seq<(Seq<char>, Seq<char>)>> {
    match o {
        Some(m) => Some(v + m),
        None => None,
    }
}

/// Every `<a href="…">text</a>` in a page, in order, the URL and the text
/// unescaped; none when an `href=` stands right at the end of its tag.
pub fn anchors(html: &str) -> (r: Option<Vec<(String, String)>>)
    ensures
        match r {
            Some(v) => anchors_spec(html@) == Some(pairs_view(v@)),
            None => anchors_spec(html@) is None,
        },
{
    let h = chars_of(html);
    let lower = lower_ascii_chars(&h);
    let n = h.len();
    let open_tag = chars_of("<a ");
    let href = chars_of("href=");
    let close_tag = chars_of("</a>");
    proof {
        reveal_strlit("href=");
    }
    let mut out: Vec<(String, String)> = Vec::new();
    let mut at: usize = 0;
    assert(pairs_view(out@) + Seq::<(Seq<char>, Seq<char>)>::empty() =~= pairs_view(out@));
    loop
        invariant
            at <= n,
            n == h@.len(),
            h@ == html@,
            lower@ == lower_ascii(h@),
            open_tag@ == "<a "@,
            href@ == "href="@,
            close_tag@ == "</a>"@,
            anchors_spec(h@) == after_links(pairs_view(out@), anchors_from(h@, at as int)),
        decreases n - at,
    {
        let i = match find_sub_in(&lower, &open_tag, at, n) {
            None => {
                assert(pairs_view(out@) + Seq::<(Seq<char>, Seq<char>)>::empty() =~= pairs_view(out@));
                return Some(out);
            },
            Some(i) => i,
        };
        let start = at + i;
        proof {
            lemma_find_sub(lower@.subrange(at as int, n as int), "<a "@);
        }
        let tag_end = match find_char_in(&lower, '>', start, n) {
            None => {
                assert(pairs_view(out@) + Seq::<(Seq<char>, Seq<char>)>::empty() =~= pairs_view(out@));
                return Some(out);
            },
            Some(t) => t,
        };
        proof {
            lemma_first_index(lower@.subrange(start as int, n as int), is_char('>'));
            reveal_strlit("<a ");
            assert(lower@.subrange(at as int, n as int).subrange(i as int, i + 3)[0] == '<');
            assert(lower@.subrange(start as int, n as int)[0] == lower@.subrange(at as int, n as int)[i as int]);
        }
        match find_sub_in(&lower, &href, start, start + tag_end) {
            None => {
                at = start + tag_end;
            },
            Some(hh) => {
                proof {
                    reveal_strlit("href=");
                    lemma_find_sub(lower@.subrange(start as int, start + tag_end), "href="@);
                }
                if start + hh + 5 == start + tag_end {
                    return None;
                }
                let rest = slice_chars(&h, start + hh + 5, start + tag_end);
                let body_start = start + tag_end + 1;
                let close = match find_sub_in(&lower, &close_tag, body_start, n) {
                    Some(c) => body_start + c,
                    None => n,
                };
                proof {
                    lemma_find_sub(lower@.subrange(body_start as int, n as int), "</a>"@);
                }
                let url = anchor_url_of(&rest);
                let body = slice_chars(&h, body_start, close);
                let title = unescape(&strip_tags(&body));
                let ghost before = pairs_view(out@);
                if url.len() > 0 {
                    let u = unescape(&url);
                    out.push((string_of(u.as_slice()), string_of(title.as_slice())));
                    assert(pairs_view(out@) =~= before.push((unescape_spec(url@), title@)));
                    assert(before + (seq![(unescape_spec(url@), title@)] + anchors_from(h@, close as int)->0)
                        =~= pairs_view(out@) + anchors_from(h@, close as int)->0);
                }
                at = close;
            },
        }
    }
}

impl Bookmarks {
    /// Import the HTML file Firefox writes from Bookmarks → Manage →
    /// Import and Backup → Export Bookmarks to HTML; gives how many were
    /// new.
    pub fn import_html(&mut self, html: &str) -> (r: Result<usize, String>)
        requires
            anchors_spec(html@) is Some,
        ensures
            final(self)@ == import_marks(old(self)@, anchors_spec(html@)->0),
            r == Ok::<usize, String>((final(self)@.len() - old(self)@.len()) as usize),
            final(self).path() == old(self).path(),
    {
        let found = match anchors(html) {
            Some(v) => v,
            None => {
                return Ok(0);
            },
        };
        let ghost fv = pairs_view(found@);
        let ghost old_view = self@;
        let place = chars_of("place:");
        let js = chars_of("javascript:");
        let mut added: usize = 0;
        let mut k: usize = 0;
        while k < found.len()
            invariant
                k <= found@.len(),
                fv == pairs_view(found@),
                place@ == "place:"@,
                js@ == "javascript:"@,
                self@ == import_marks(old_view, fv.take(k as int)),
                self@.len() == old_view.len() + added,
                added <= k,
                self.path() == old(self).path(),
            decreases found@.len() - k,
        {
            let u = chars_of(found[k].0.as_str());
            assert(fv.take(k + 1).drop_last() =~= fv.take(k as int));
            assert(fv.take(k + 1).last() == fv[k as int]);
            if !starts_with_exec(&u, &place) && !starts_with_exec(&u, &js) && self.position(&u).is_none() {
                let ghost before = self@;
                self.list.push(Bookmark { url: found[k].0.clone(), title: found[k].1.clone() });
                assert(self@ =~= before.push(fv[k as int]));
                added += 1;
            }
            k += 1;
        }
        assert(fv.take(fv.len() as int) =~= fv);
        Ok(added)
    }
}

/// What `keep_where` keeps: only elements where `p` holds, and some
/// element exactly when `p` holds somewhere.
pub proof fn lemma_keep_where<T>(s: Seq<T>, p: spec_fn(T) -> bool)
    ensures
        forall|i: int| 0 <= i < keep_where(s, p).len() ==> p(#[trigger] keep_where(s, p)[i]),
        keep_where(s, p).len() > 0 <==> exists|i: int| 0 <= i < s.len() && p(#[trigger] s[i]),
        (forall|i: int| 0 <= i < s.len() ==> p(#[trigger] s[i])) ==> keep_where(s, p) == s,
    decreases s.len(),
{
    if s.len() > 0 {
        lemma_keep_where(s.drop_last(), p);
        let k = keep_where(s.drop_last(), p);
        if p(s.last()) {
            assert forall|i: int| 0 <= i < keep_where(s, p).len() implies p(
                #[trigger] keep_where(s, p)[i],
            ) by {
                if i < k.len() {
                    assert(keep_where(s, p)[i] == k[i]);
                }
            }
            assert(p(s[s.len() - 1]));
        } else {
            if exists|i: int| 0 <= i < s.len() && p(#[trigger] s[i]) {
                let i = choose|i: int| 0 <= i < s.len() && p(#[trigger] s[i]);
                assert(i < s.len() - 1);
                assert(s.drop_last()[i] == s[i]);
            }
        }
        if k.len() > 0 {
            let j = choose|j: int| 0 <= j < s.drop_last().len() && p(#[trigger] s.drop_last()[j]);
            assert(s[j] == s.drop_last()[j]);
        }
        if forall|i: int| 0 <= i < s.len() ==> p(#[trigger] s[i]) {
            assert forall|i: int| 0 <= i < s.drop_last().len() implies p(#[trigger] s.drop_last()[i]) by {
                assert(s.drop_last()[i] == s[i]);
            }
            assert(s.drop_last().push(s.last()) =~= s);
        }
    }
}

/// What `keep_where` keeps when one element is changed: as many where `p`
/// holds of both or of neither, and the same where it holds of neither.
pub proof fn lemma_keep_where_update<T>(s: Seq<T>, i: int, x: T, p: spec_fn(T) -> bool)
    requires
        0 <= i < s.len(),
    ensures
        p(s[i]) == p(x) ==> keep_where(s.update(i, x), p).len() == keep_where(s, p).len(),
        !p(s[i]) && !p(x) ==> keep_where(s.update(i, x), p) == keep_where(s, p),
    decreases s.len(),
{
    let u = s.update(i, x);
    if i == s.len() - 1 {
        assert(u.drop_last() =~= s.drop_last());
    } else {
        assert(u.drop_last() =~= s.drop_last().update(i, x));
        lemma_keep_where_update(s.drop_last(), i, x, p);
    }
}

/// Adding a bookmark keeps its URL once: afterwards the list has it, as
/// often as before when it was there and else once, and the bookmarks of
/// every other URL stay as they were, in order.
pub proof fn law_add_keeps_a_url_once(
    m: Seq<(Seq<char>, Seq<char>)>,
    url: Seq<char>,
    title: Seq<char>,
    other: Seq<char>,
)
    requires
        trim(url).len() > 0,
    ensures
        has_url(add_mark(m, url, title), trim(url)),
        keep_where(add_mark(m, url, title), url_is(trim(url))).len() == if has_url(m, trim(url)) {
            keep_where(m, url_is(trim(url))).len()
        } else {
            1
        },
        other != trim(url) ==> keep_where(add_mark(m, url, title), url_is(other)) == keep_where(
            m,
            url_is(other),
        ),
{
    let u = trim(url);
    let t = trim(title);
    let r = add_mark(m, url, title);
    lemma_first_index(m, url_is(u));
    lemma_keep_where(m, url_is(u));
    match first_index(m, url_is(u)) {
        Some(i) => {
            assert(m[i].0 == u);
            if t.len() > 0 {
                lemma_keep_where_update(m, i, (u, t), url_is(u));
                lemma_keep_where_update(m, i, (u, t), url_is(other));
                assert(r[i].0 == u);
            } else {
                assert(r[i].0 == u);
            }
        },
        None => {
            assert(r.drop_last() =~= m);
            assert(r[m.len() as int].0 == u);
            if has_url(m, u) {
                let j = choose|j: int| 0 <= j < m.len() && #[trigger] m[j].0 == u;
                assert(url_is(u)(m[j]));
            }
        },
    }
}

/// Removing a URL leaves no bookmark with it.
pub proof fn law_removed_url_is_gone(m: Seq<(Seq<char>, Seq<char>)>, url: Seq<char>)
    ensures
        !has_url(keep_where(m, url_is_not(trim(url))), trim(url)),
{
    let k = keep_where(m, url_is_not(trim(url)));
    lemma_keep_where(m, url_is_not(trim(url)));
    if has_url(k, trim(url)) {
        let j = choose|j: int| 0 <= j < k.len() && #[trigger] k[j].0 == trim(url);
        assert(url_is_not(trim(url))(k[j]));
    }
}

/// Importing keeps every bookmark there was, in place.
proof fn lemma_import_keeps(m: Seq<(Seq<char>, Seq<char>)>, found: Seq<(Seq<char>, Seq<char>)>)
    ensures
        import_marks(m, found).len() >= m.len(),
        forall|j: int| 0 <= j < m.len() ==> #[trigger] import_marks(m, found)[j] == m[j],
    decreases found.len(),
{
    if found.len() > 0 {
        lemma_import_keeps(m, found.drop_last());
    }
}

/// After an import, every link it could take is there.
proof fn lemma_import_has(m: Seq<(Seq<char>, Seq<char>)>, found: Seq<(Seq<char>, Seq<char>)>)
    ensures
        forall|k: int|
            0 <= k < found.len() && !starts_with(found[k].0, "place:"@) && !starts_with(
                found[k].0,
                "javascript:"@,
            ) ==> has_url(import_marks(m, found), #[trigger] found[k].0),
    decreases found.len(),
{
    if found.len() > 0 {
        let f = found.drop_last();
        lemma_import_has(m, f);
        let before = import_marks(m, f);
        lemma_import_keeps(before, seq![found.last()]);
        assert forall|k: int|
            0 <= k < found.len() && !starts_with(found[k].0, "place:"@) && !starts_with(
                found[k].0,
                "javascript:"@,
            ) implies has_url(import_marks(m, found), #[trigger] found[k].0) by {
            let r = import_marks(m, found);
            if k < found.len() - 1 {
                assert(found[k] == f[k]);
                assert(has_url(before, f[k].0));
                let j = choose|j: int| 0 <= j < before.len() && #[trigger] before[j].0 == f[k].0;
                assert(r.len() >= before.len());
                assert(r[j] == before[j]);
            } else {
                if !has_url(before, found.last().0) {
                    assert(r[before.len() as int].0 == found.last().0);
                } else {
                    assert(r == before);
                }
            }
        }
    }
}

/// An import that can take nothing changes nothing.
proof fn lemma_import_none(m: Seq<(Seq<char>, Seq<char>)>, found: Seq<(Seq<char>, Seq<char>)>)
    requires
        forall|k: int|
            0 <= k < found.len() ==> starts_with(#[trigger] found[k].0, "place:"@) || starts_with(
                found[k].0,
                "javascript:"@,
            ) || has_url(m, found[k].0),
    ensures
        import_marks(m, found) == m,
    decreases found.len(),
{
    if found.len() > 0 {
        let f = found.drop_last();
        assert forall|k: int| 0 <= k < f.len() implies starts_with(#[trigger] f[k].0, "place:"@)
            || starts_with(f[k].0, "javascript:"@) || has_url(m, f[k].0) by {
            assert(f[k] == found[k]);
        }
        lemma_import_none(m, f);
        assert(found.last() == found[found.len() - 1]);
    }
}

/// Importing the same page twice: the second time adds nothing.
pub proof fn law_import_twice_adds_nothing(
    m: Seq<(Seq<char>, Seq<char>)>,
    found: Seq<(Seq<char>, Seq<char>)>,
)
    ensures
        import_marks(import_marks(m, found), found) == import_marks(m, found),
{
    lemma_import_has(m, found);
    lemma_import_none(import_marks(m, found), found);
}

/// A bookmark that a line of the file can hold: a URL, trimmed and not
/// empty, with no tab or line break in it, and a trimmed title on one line.
pub open spec fn plain_mark(m: (Seq<char>, Seq<char>)) -> bool {
    &&& m.0.len() > 0
    &&& trim(m.0) == m.0
    &&& trim(m.1) == m.1
    &&& forall|i: int| 0 <= i < m.0.len() ==> #[trigger] m.0[i] != '\t' && m.0[i] != '\n'
    &&& forall|i: int| 0 <= i < m.1.len() ==> #[trigger] m.1[i] != '\n'
}

/// The line of the file that holds `m`, without its newline.
pub open spec fn mark_line(m: (Seq<char>, Seq<char>)) -> Seq<char> {
    m.0 + seq!['\t'] + m.1
}

/// A bookmark's line reads back as the bookmark.
proof fn lemma_mark_line(m: (Seq<char>, Seq<char>))
    requires
        plain_mark(m),
    ensures
        line_mark(mark_line(m)) == Some(m),
        strip_cr(mark_line(m)) == mark_line(m),
        forall|i: int| 0 <= i < mark_line(m).len() ==> #[trigger] mark_line(m)[i] != '\n',
{
    let l = mark_line(m);
    let n = m.0.len() as int;
    assert(l[n] == '\t');
    lemma_first_index(l, is_char('\t'));
    match first_index(l, is_char('\t')) {
        Some(i) => {
            if i < n {
                assert(l[i] == m.0[i]);
            }
            if i > n {
                assert(!is_char('\t')(l[n]));
            }
            assert(i == n);
        },
        None => {
            assert(!is_char('\t')(l[n]));
        },
    }
    assert(l.take(n) =~= m.0);
    assert(l.skip(n + 1) =~= m.1);
    if m.1.len() > 0 {
        lemma_trimmed_end(m.1);
        assert(l.last() == m.1.last());
    } else {
        assert(l.last() == '\t');
    }
    assert forall|i: int| 0 <= i < l.len() implies #[trigger] l[i] != '\n' by {
        if i < n {
            assert(l[i] == m.0[i]);
        } else if i > n {
            assert(l[i] == m.1[i - n - 1]);
        }
    }
}

/// The file's text ends each bookmark with a line break.
proof fn lemma_marks_text_ends(m: Seq<(Seq<char>, Seq<char>)>)
    ensures
        m.len() > 0 ==> marks_text(m).len() > 0 && marks_text(m).last() == '\n',
        marks_text(m).len() == 0 <==> m.len() == 0,
{
}

/// Saving the bookmarks and reading the file back gives the same
/// bookmarks, in the same order, for bookmarks whose URL and title fit on
/// one line of it.
pub proof fn law_saved_bookmarks_read_back(m: Seq<(Seq<char>, Seq<char>)>)
    requires
        forall|i: int| 0 <= i < m.len() ==> plain_mark(#[trigger] m[i]),
    ensures
        marks_of_lines(lines(marks_text(m))) == m,
    decreases m.len(),
{
    if m.len() > 0 {
        let p = m.drop_last();
        assert forall|i: int| 0 <= i < p.len() implies plain_mark(#[trigger] p[i]) by {
            assert(p[i] == m[i]);
        }
        law_saved_bookmarks_read_back(p);
        let x = m.last();
        assert(plain_mark(m[m.len() - 1]));
        lemma_mark_line(x);
        let q = mark_line(x).push('\n');
        assert(marks_text(m) =~= marks_text(p) + q);
        lemma_lines_one(Seq::empty(), mark_line(x));
        assert(Seq::<char>::empty() + mark_line(x) =~= mark_line(x));
        lemma_marks_text_ends(p);
        if p.len() > 0 {
            lemma_lines_split(Seq::empty(), marks_text(p), q);
        } else {
            assert(marks_text(p) + q =~= q);
            assert(lines(marks_text(p)) =~= Seq::<Seq<char>>::empty());
        }
        let ls = lines(marks_text(m));
        assert(ls =~= lines(marks_text(p)).push(mark_line(x)));
        assert(ls.drop_last() =~= lines(marks_text(p)));
        assert(m =~= p.push(x));
    }
}

/// The bookmark the line `l` holds.
fn mark_of_line(l: &Vec<char>) -> (r: Option<Bookmark>)
    ensures
        match r {
            Some(b) => line_mark(l@) == Some(mark_view(b)),
            None => line_mark(l@) is None,
        },
{
    let tab = find_char(l, '\t');
    assert(tab matches Some(i) ==> i < l@.len());
    let (u, t) = match tab {
        Some(i) => {
            assert(i < l.len());
            (slice_chars(l, 0, i), slice_chars(l, i + 1, l.len()))
        },
        None => (slice_chars(l, 0, l.len()), Vec::new()),
    };
    proof {
        assert(l@.subrange(0, l@.len() as int) =~= l@);
        if let Some(i) = tab {
            assert(l@.subrange(0, i as int) =~= l@.take(i as int));
            assert(l@.subrange(i + 1, l@.len() as int) =~= l@.skip(i + 1));
        } else {
            assert(trim(Seq::<char>::empty()) =~= Seq::<char>::empty()) by {
                reveal_with_fuel(crate::text::trim_start, 1);
                reveal_with_fuel(crate::text::trim_end, 1);
            }
            assert(t@ =~= Seq::<char>::empty());
        }
    }
    let url = trim_chars(&u);
    let title = trim_chars(&t);
    if url.len() == 0 {
        None
    } else {
        Some(Bookmark { url: string_of(url.as_slice()), title: string_of(title.as_slice()) })
    }
}

impl Bookmarks {
    /// The bookmarks the file at `path` holds, from its text `text` (empty
    /// when there is no file yet).
    pub fn load(path: PathBuf, text: &str) -> (r: Bookmarks)
        ensures
            r@ == marks_of_lines(lines(text@)),
            r.path() == path,
    {
        let all = chars_of(text);
        let ls = lines_of(&all);
        let mut list: Vec<Bookmark> = Vec::new();
        let mut i: usize = 0;
        while i < ls.len()
            invariant
                i <= ls@.len(),
                char_lines(ls@) == lines(all@),
                all@ == text@,
                list@.map_values(|b: Bookmark| mark_view(b)) == marks_of_lines(
                    char_lines(ls@).take(i as int),
                ),
            decreases ls@.len() - i,
        {
            let m = mark_of_line(&ls[i]);
            let ghost before = list@;
            assert(char_lines(ls@).take(i + 1).drop_last() =~= char_lines(ls@).take(i as int));
            assert(char_lines(ls@).take(i + 1).last() == ls@[i as int]@);
            if let Some(b) = m {
                list.push(b);
                assert(list@.map_values(|b: Bookmark| mark_view(b)) =~= before.map_values(
                    |b: Bookmark| mark_view(b),
                ).push(mark_view(b)));
            }
            i += 1;
        }
        assert(char_lines(ls@).take(ls@.len() as int) =~= char_lines(ls@));
        Bookmarks { list, path }
    }

    /// The file the bookmarks live in.
    pub closed spec fn path(&self) -> PathBuf {
        self.path
    }

    /// The file the bookmarks live in.
    pub fn file(&self) -> (r: &PathBuf)
        ensures
            *r == self.path(),
    {
        &self.path
    }

    /// The bookmarks, in order.
    pub fn list(&self) -> (r: &[Bookmark])
        ensures
            r@.map_values(|b: Bookmark| mark_view(b)) == self@,
    {
        self.list.as_slice()
    }

    /// Some bookmark has the URL `url`, compared as it is.
    pub fn has(&self, url: &str) -> (r: bool)
        ensures
            r == has_url(self@, url@),
    {
        let u = chars_of(url);
        self.position(&u).is_some()
    }

    /// Where the first bookmark with the URL `u` stands.
    fn position(&self, u: &Vec<char>) -> (r: Option<usize>)
        ensures
            found_at(r, first_index(self@, url_is(u@))),
            r is Some <==> has_url(self@, u@),
            r matches Some(i) ==> i < self@.len(),
    {
        let mut i: usize = 0;
        while i < self.list.len()
            invariant
                i <= self.list@.len(),
                self@ == self.list@.map_values(|b: Bookmark| mark_view(b)),
                forall|k: int| 0 <= k < i ==> #[trigger] self@[k].0 != u@,
            decreases self.list@.len() - i,
        {
            assert(self@[i as int].0 == self.list@[i as int].url@);
            if str_is(self.list[i].url.as_str(), u) {
                proof {
                    lemma_first_index(self@, url_is(u@));
                }
                return Some(i);
            }
            i += 1;
        }
        proof {
            lemma_first_index(self@, url_is(u@));
        }
        None
    }

    /// Add a bookmark, or give a known URL its new title when one is
    /// given; true when the URL is new. The URL and the title are trimmed;
    /// an empty URL is refused.
    pub fn add(&mut self, url: &str, title: &str) -> (r: Result<bool, String>)
        ensures
            trim(url@).len() == 0 ==> (r matches Err(e) && e@ == "nothing to bookmark"@),
            trim(url@).len() == 0 ==> final(self)@ == old(self)@,
            trim(url@).len() > 0 ==> r == Ok::<bool, String>(!has_url(old(self)@, trim(url@)))
                && final(self)@ == add_mark(old(self)@, url@, title@),
            final(self).path() == old(self).path(),
    {
        let u = trim_str(url);
        if u.len() == 0 {
            return Err("nothing to bookmark".to_owned());
        }
        let t = trim_str(title);
        match self.position(&u) {
            Some(i) => {
                if t.len() > 0 {
                    let ghost before = self@;
                    let b = Bookmark { url: string_of(u.as_slice()), title: string_of(t.as_slice()) };
                    self.list.set(i, b);
                    assert(self@ =~= before.update(i as int, (u@, t@)));
                }
                Ok(false)
            },
            None => {
                let ghost before = self@;
                self.list.push(Bookmark { url: string_of(u.as_slice()), title: string_of(t.as_slice()) });
                assert(self@ =~= before.push((u@, t@)));
                Ok(true)
            },
        }
    }

    /// Drop every bookmark with the URL `url`, trimmed; true when there
    /// was one.
    pub fn remove(&mut self, url: &str) -> (r: Result<bool, String>)
        ensures
            final(self)@ == keep_where(old(self)@, url_is_not(trim(url@))),
            r == Ok::<bool, String>(has_url(old(self)@, trim(url@))),
            final(self).path() == old(self).path(),
    {
        let u = trim_str(url);
        let ghost old_view = self@;
        let mut kept: Vec<Bookmark> = Vec::new();
        let mut found = false;
        let mut i: usize = 0;
        while i < self.list.len()
            invariant
                i <= self.list@.len(),
                self@ == old_view,
                old_view == self.list@.map_values(|b: Bookmark| mark_view(b)),
                kept@.map_values(|b: Bookmark| mark_view(b)) == keep_where(
                    old_view.take(i as int),
                    url_is_not(u@),
                ),
                found == has_url(old_view.take(i as int), u@),
            decreases self.list@.len() - i,
        {
            let ghost k0 = kept@;
            assert(old_view.take(i + 1).drop_last() =~= old_view.take(i as int));
            assert(old_view.take(i + 1).last() == old_view[i as int]);
            assert(old_view[i as int].0 == self.list@[i as int].url@);
            if str_is(self.list[i].url.as_str(), &u) {
                found = true;
                assert(old_view.take(i + 1)[i as int].0 == u@);
                assert(!url_is_not(u@)(old_view.take(i + 1).last()));
            } else {
                let b = Bookmark { url: self.list[i].url.clone(), title: self.list[i].title.clone() };
                assert(url_is_not(u@)(old_view.take(i + 1).last()));
                kept.push(b);
                assert(kept@.map_values(|b: Bookmark| mark_view(b)) =~= k0.map_values(
                    |b: Bookmark| mark_view(b),
                ).push(mark_view(b)));
                proof {
                    if has_url(old_view.take(i + 1), u@) {
                        let j = choose|j: int|
                            0 <= j < i + 1 && #[trigger] old_view.take(i + 1)[j].0 == u@;
                        assert(old_view.take(i as int)[j].0 == u@);
                    }
                }
            }
            proof {
                if found && !(old_view.take(i + 1)[i as int].0 == u@) {
                    let j = choose|j: int| 0 <= j < i && #[trigger] old_view.take(i as int)[j].0 == u@;
                    assert(old_view.take(i + 1)[j].0 == u@);
                }
            }
            i += 1;
        }
        assert(old_view.take(old_view.len() as int) =~= old_view);
        self.list = kept;
        Ok(found)
    }

    /// The file's text: one `url<TAB>title` line per bookmark.
    pub fn text(&self) -> (r: String)
        ensures
            r@ == marks_text(self@),
    {
        let mut out: Vec<char> = Vec::new();
        let mut i: usize = 0;
        while i < self.list.len()
            invariant
                i <= self.list@.len(),
                self@ == self.list@.map_values(|b: Bookmark| mark_view(b)),
                out@ == marks_text(self@.take(i as int)),
            decreases self.list@.len() - i,
        {
            let u = chars_of(self.list[i].url.as_str());
            let t = chars_of(self.list[i].title.as_str());
            let ghost before = out@;
            let mut k: usize = 0;
            while k < u.len()
                invariant
                    k <= u@.len(),
                    out@ == before + u@.take(k as int),
                decreases u@.len() - k,
            {
                out.push(u[k]);
                assert(u@.take(k + 1) =~= u@.take(k as int).push(u@[k as int]));
                k += 1;
            }
            out.push('\t');
            let ghost mid = out@;
            k = 0;
            while k < t.len()
                invariant
                    k <= t@.len(),
                    out@ == mid + t@.take(k as int),
                decreases t@.len() - k,
            {
                out.push(t[k]);
                assert(t@.take(k + 1) =~= t@.take(k as int).push(t@[k as int]));
                k += 1;
            }
            out.push('\n');
            assert(u@.take(u@.len() as int) =~= u@);
            assert(t@.take(t@.len() as int) =~= t@);
            assert(self@.take(i + 1).drop_last() =~= self@.take(i as int));
            assert(out@ =~= before + u@ + seq!['\t'] + t@ + seq!['\n']);
            i += 1;
        }
        assert(self@.take(self@.len() as int) =~= self@);
        string_of(out.as_slice())
    }
}

/// A page that can be bookmarked: one with an address that is neither a
/// blank `about:` page nor one of gaze's own.
pub open spec fn bookmarkable_spec(uri: Seq<char>) -> bool {
    uri.len() > 0 && !starts_with(uri, "about:"@) && !starts_with(uri, "gaze:"@)
}

/// Whether the page at `uri` can be bookmarked.
pub fn bookmarkable(uri: &str) -> (r: bool)
    ensures
        r == bookmarkable_spec(uri@),
{
    let u = chars_of(uri);
    u.len() > 0 && !starts_with_exec(&u, &chars_of("about:")) && !starts_with_exec(&u, &chars_of("gaze:"))
}

} // verus!
