//! Pages visited, for the open prompt's completion. One line per visit is
//! appended to the history file: time, URL, a tab, the title. The file is
//! folded into one entry per URL when it is read.

use vstd::prelude::*;
use std::path::PathBuf;
use crate::passwords::{before_first, parse_u64, parse_u64_spec};
use crate::seqs::{first_index, found_at, insert_desc, key_below, lemma_first_index, sort_desc};
use crate::text::{
    concat_chars, decimal, find_sub, find_sub_exec, push_decimal, words, words_of, char_lines, chars_of, find_char_in, is_char, lines, lines_of, same_chars, slice_chars,
    starts_with, starts_with_exec, str_is, string_of,
};

verus! {

/// How many pages the history keeps.
pub const KEEP: usize = 5000;

/// A page visited: its URL and title, when it was last visited, in
/// seconds since the Unix epoch, and how often.
#[derive(Clone, Debug, PartialEq)]
pub struct Visit {
    pub url: String,
    pub title: String,
    pub last: u64,
    pub count: u32,
}

/// A visit as plain values.
pub struct VisitView {
    pub url: Seq<char>,
    pub title: Seq<char>,
    pub last: u64,
    pub count: u32,
}

impl View for Visit {
    type V = VisitView;

    open spec fn view(&self) -> VisitView {
        VisitView { url: self.url@, title: self.title@, last: self.last, count: self.count }
    }
}

/// A page the open prompt offers: a bookmark, or a page from the history.
#[derive(Clone, Debug, PartialEq)]
pub struct Candidate {
    pub url: String,
    pub title: String,
    pub bookmark: bool,
}

/// The pages visited, the latest first, and the file they live in.
pub struct History {
    visits: Vec<Visit>,
    path: PathBuf,
}

/// Visits as plain values.
pub open spec fn visit_views(v: Seq<Visit>) -> Seq<VisitView> {
    v.map_values(|x: Visit| x@)
}

impl View for History {
    type V = Seq<VisitView>;

    closed spec fn view(&self) -> Seq<VisitView> {
        visit_views(self.visits@)
    }
}

/// What a line of the history file holds: the time before the first tab
/// (0 when it is no number), the URL up to the next tab, and the title
/// after that; nothing for a line without a tab.
pub open spec fn visit_line(l: Seq<char>) -> Option<(u64, Seq<char>, Seq<char>)> {
    match first_index(l, is_char('\t')) {
        None => None,
        Some(i) => {
            let when = match parse_u64_spec(l.take(i)) {
                Some(n) => n,
                None => 0,
            };
            let rest = l.skip(i + 1);
            let url = before_first(rest, is_char('\t'));
            let title = match first_index(rest, is_char('\t')) {
                Some(j) => rest.skip(j + 1),
                None => Seq::empty(),
            };
            Some((when, url, title))
        },
    }
}

/// Holds of the visit to `url`.
pub open spec fn visit_to(url: Seq<char>) -> spec_fn(VisitView) -> bool {
    |v: VisitView| v.url == url
}

/// One more line of the file folded in: the visit to its URL counted once
/// more, and given the line's time, and its title when it has one, unless
/// it was visited later already; a new URL added at the end.
pub open spec fn fold_visit(vs: Seq<VisitView>, when: u64, url: Seq<char>, title: Seq<char>) -> Seq<
    VisitView,
> {
    match first_index(vs, visit_to(url)) {
        Some(i) => {
            let v = vs[i];
            let count = (v.count + 1) as u32;
            if when >= v.last {
                vs.update(
                    i,
                    VisitView {
                        url: v.url,
                        title: if title.len() > 0 {
                            title
                        } else {
                            v.title
                        },
                        last: when,
                        count,
                    },
                )
            } else {
                vs.update(i, VisitView { count, ..v })
            }
        },
        None => vs.push(VisitView { url, title, last: when, count: 1 }),
    }
}

/// The lines `ls` folded into one visit per URL, in the order the URLs
/// first appear.
pub open spec fn fold_lines(ls: Seq<Seq<char>>) -> Seq<VisitView>
    decreases ls.len(),
{
    if ls.len() == 0 {
        Seq::empty()
    } else {
        let vs = fold_lines(ls.drop_last());
        match visit_line(ls.last()) {
            Some(x) => fold_visit(vs, x.0, x.1, x.2),
            None => vs,
        }
    }
}

/// The key visits are ordered by: when they were last visited.
pub open spec fn last_key() -> spec_fn(VisitView) -> int {
    |v: VisitView| v.last as int
}

/// The history a file's text gives: one visit per URL, the latest first
/// (URLs visited at the same time in the order they first appear), at
/// most `KEEP` of them.
pub open spec fn history_of(text: Seq<char>) -> Seq<VisitView> {
    let sorted = sort_desc(fold_lines(lines(text)), last_key());
    if sorted.len() > KEEP {
        sorted.take(KEEP as int)
    } else {
        sorted
    }
}

/// A visit being folded, as plain values.
pub open spec fn folded_view(x: (Vec<char>, Vec<char>, u64, u32)) -> VisitView {
    VisitView { url: x.0@, title: x.1@, last: x.2, count: x.3 }
}

/// Where the visit to `url` stands in `vs`.
fn position_folded(vs: &Vec<(Vec<char>, Vec<char>, u64, u32)>, url: &Vec<char>) -> (r: Option<usize>)
    ensures
        found_at(r, first_index(vs@.map_values(|x: (Vec<char>, Vec<char>, u64, u32)| folded_view(x)), visit_to(url@))),
        r matches Some(i) ==> i < vs@.len(),
{
    let ghost view = vs@.map_values(|x: (Vec<char>, Vec<char>, u64, u32)| folded_view(x));
    let mut i: usize = 0;
    while i < vs.len()
        invariant
            i <= vs@.len(),
            view == vs@.map_values(|x: (Vec<char>, Vec<char>, u64, u32)| folded_view(x)),
            forall|k: int| 0 <= k < i ==> !visit_to(url@)(#[trigger] view[k]),
        decreases vs@.len() - i,
    {
        assert(view[i as int].url == vs@[i as int].0@);
        if same_chars(&vs[i].0, url) {
            proof {
                lemma_first_index(view, visit_to(url@));
            }
            return Some(i);
        }
        i += 1;
    }
    proof {
        lemma_first_index(view, visit_to(url@));
    }
    None
}

/// What a line of the history file holds.
fn read_visit_line(l: &Vec<char>) -> (r: Option<(u64, Vec<char>, Vec<char>)>)
    ensures
        match r {
            Some(x) => visit_line(l@) == Some((x.0, x.1@, x.2@)),
            None => visit_line(l@) is None,
        },
{
    let i = match find_char_in(l, '\t', 0, l.len()) {
        Some(i) => i,
        None => {
            assert(l@.subrange(0, l@.len() as int) =~= l@);
            return None;
        },
    };
    assert(l@.subrange(0, l@.len() as int) =~= l@);
    let head = slice_chars(l, 0, i);
    assert(head@ =~= l@.take(i as int));
    let when = match parse_u64(&head) {
        Some(n) => n,
        None => 0,
    };
    let rest = slice_chars(l, i + 1, l.len());
    assert(rest@ =~= l@.skip(i + 1));
    assert(rest@.subrange(0, rest@.len() as int) =~= rest@);
    match find_char_in(&rest, '\t', 0, rest.len()) {
        Some(j) => {
            assert(rest@.subrange(0, j as int) =~= rest@.take(j as int));
            assert(rest@.subrange(j + 1, rest@.len() as int) =~= rest@.skip(j + 1));
            Some((when, slice_chars(&rest, 0, j), slice_chars(&rest, j + 1, rest.len())))
        },
        None => {
            assert(rest@.subrange(0, rest@.len() as int) =~= rest@);
            Some((when, slice_chars(&rest, 0, rest.len()), Vec::new()))
        },
    }
}

/// Folding the lines never counts a URL past what a `u32` holds: no
/// line adds a visit to a URL already seen `u32::MAX` times.
pub open spec fn counts_fit(ls: Seq<Seq<char>>) -> bool
    decreases ls.len(),
{
    ls.len() == 0 || {
        &&& counts_fit(ls.drop_last())
        &&& match visit_line(ls.last()) {
            Some(x) => match first_index(fold_lines(ls.drop_last()), visit_to(x.1)) {
                Some(k) => fold_lines(ls.drop_last())[k].count < u32::MAX,
                None => true,
            },
            None => true,
        }
    }
}

/// The lines up to any point fit when all of them do.
proof fn lemma_counts_fit_take(ls: Seq<Seq<char>>, n: int)
    requires
        counts_fit(ls),
        0 <= n <= ls.len(),
    ensures
        counts_fit(ls.take(n)),
    decreases ls.len(),
{
    if n < ls.len() {
        assert(ls.drop_last().take(n) =~= ls.take(n));
        lemma_counts_fit_take(ls.drop_last(), n);
    } else {
        assert(ls.take(n) =~= ls);
    }
}

/// The visits of the lines `ls`, folded one per URL.
fn fold_all(ls: &Vec<Vec<char>>) -> (r: Option<Vec<(Vec<char>, Vec<char>, u64, u32)>>)
    ensures
        r is Some <==> counts_fit(char_lines(ls@)),
        r matches Some(vs) ==> vs@.map_values(|x: (Vec<char>, Vec<char>, u64, u32)| folded_view(x)) == fold_lines(char_lines(ls@)),
{
    let ghost cl = char_lines(ls@);
    let mut vs: Vec<(Vec<char>, Vec<char>, u64, u32)> = Vec::new();
    let mut i: usize = 0;
    assert(vs@.map_values(|x: (Vec<char>, Vec<char>, u64, u32)| folded_view(x)) =~= Seq::<VisitView>::empty());
    while i < ls.len()
        invariant
            i <= ls@.len(),
            cl == char_lines(ls@),
            cl.len() == ls@.len(),
            vs@.map_values(|x: (Vec<char>, Vec<char>, u64, u32)| folded_view(x)) == fold_lines(cl.take(i as int)),
            counts_fit(cl.take(i as int)),
        decreases ls@.len() - i,
    {
        let ghost view = vs@.map_values(|x: (Vec<char>, Vec<char>, u64, u32)| folded_view(x));
        assert(cl.take(i + 1).drop_last() =~= cl.take(i as int));
        assert(cl.take(i + 1).last() == ls@[i as int]@);
        match read_visit_line(&ls[i]) {
            None => {},
            Some((when, url, title)) => {
                match position_folded(&vs, &url) {
                    Some(k) => {
                        let u = slice_chars(&vs[k].0, 0, vs[k].0.len());
                        let t = slice_chars(&vs[k].1, 0, vs[k].1.len());
                        let last = vs[k].2;
                        let count = vs[k].3;
                        assert(u@ =~= vs@[k as int].0@);
                        assert(t@ =~= vs@[k as int].1@);
                        assert(view[k as int].count == count);
                        if count == u32::MAX {
                            proof {
                                if counts_fit(cl) {
                                    lemma_counts_fit_take(cl, i + 1);
                                }
                            }
                            return None;
                        }
                        let nc = count + 1;
                        if when >= last {
                            let nt = if title.len() > 0 {
                                title
                            } else {
                                t
                            };
                            vs.set(k, (u, nt, when, nc));
                        } else {
                            vs.set(k, (u, t, last, nc));
                        }
                        assert(vs@.map_values(|x: (Vec<char>, Vec<char>, u64, u32)| folded_view(x)) =~= fold_visit(view, when, url@, title@));
                    },
                    None => {
                        let ghost uv = url@;
                        let ghost tv = title@;
                        vs.push((url, title, when, 1));
                        assert(vs@.map_values(|x: (Vec<char>, Vec<char>, u64, u32)| folded_view(x)) =~= fold_visit(view, when, uv, tv));
                    },
                }
            },
        }
        assert(counts_fit(cl.take(i + 1)));
        i += 1;
    }
    assert(cl.take(ls@.len() as int) =~= cl);
    Some(vs)
}

/// `vs` made visits, the latest first, at most `KEEP` of them.
fn sorted_visits(vs: Vec<(Vec<char>, Vec<char>, u64, u32)>) -> (r: Vec<Visit>)
    ensures
        visit_views(r@) == {
            let s = sort_desc(vs@.map_values(|x: (Vec<char>, Vec<char>, u64, u32)| folded_view(x)), last_key());
            if s.len() > KEEP {
                s.take(KEEP as int)
            } else {
                s
            }
        },
{
    let ghost input = vs@.map_values(|x: (Vec<char>, Vec<char>, u64, u32)| folded_view(x));
    let mut out: Vec<Visit> = Vec::new();
    let mut i: usize = 0;
    assert(visit_views(out@) =~= sort_desc(input.take(0), last_key()));
    while i < vs.len()
        invariant
            i <= vs@.len(),
            input == vs@.map_values(|x: (Vec<char>, Vec<char>, u64, u32)| folded_view(x)),
            visit_views(out@) == sort_desc(input.take(i as int), last_key()),
        decreases vs@.len() - i,
    {
        let x = Visit {
            url: string_of(vs[i].0.as_slice()),
            title: string_of(vs[i].1.as_slice()),
            last: vs[i].2,
            count: vs[i].3,
        };
        assert(x@ == input[i as int]);
        let ghost sv = visit_views(out@);
        let mut p: usize = 0;
        while p < out.len() && out[p].last >= x.last
            invariant
                p <= out@.len(),
                sv == visit_views(out@),
                forall|j: int| 0 <= j < p ==> !key_below(last_key(), x.last as int)(#[trigger] sv[j]),
            decreases out@.len() - p,
        {
            p += 1;
        }
        proof {
            lemma_first_index(sv, key_below(last_key(), x.last as int));
            if p < out@.len() {
                assert(key_below(last_key(), x.last as int)(sv[p as int]));
            }
        }
        assert(input.take(i + 1).drop_last() =~= input.take(i as int));
        assert(input.take(i + 1).last() == x@);
        let ghost xv = x@;
        let at_end = p == out.len();
        out.insert(p, x);
        if !at_end {
            assert(visit_views(out@) =~= sv.insert(p as int, xv));
        } else {
            assert(visit_views(out@) =~= sv.push(xv));
        }
        i += 1;
    }
    assert(input.take(input.len() as int) =~= input);
    if out.len() > KEEP {
        let ghost before = visit_views(out@);
        out.truncate(KEEP);
        assert(visit_views(out@) =~= before.take(KEEP as int));
    }
    out
}

impl History {
    /// The history kept in `path`, from its text `text` (empty when there
    /// is no file yet).
    pub fn load(path: PathBuf, text: &str) -> (r: History)
        requires
            counts_fit(lines(text@)),
        ensures
            r@ == history_of(text@),
            r.path() == path,
            r.wf(),
    {
        History::try_load(path, text).unwrap()
    }

    /// The history in `path` from its text, or nothing when some URL is
    /// visited more often than a `u32` counts.
    pub fn try_load(path: PathBuf, text: &str) -> (r: Option<History>)
        ensures
            r is Some <==> counts_fit(lines(text@)),
            r matches Some(h) ==> h@ == history_of(text@) && h.path() == path && h.wf(),
    {
        let all = chars_of(text);
        let ls = lines_of(&all);
        match fold_all(&ls) {
            Some(vs) => {
                let visits = sorted_visits(vs);
                Some(History { visits, path })
            },
            None => None,
        }
    }

    /// The file the history lives in.
    pub closed spec fn path(&self) -> PathBuf {
        self.path
    }

    /// The history holds no more than `KEEP` visits.
    pub open spec fn wf(&self) -> bool {
        self@.len() <= KEEP
    }

    /// The file the history lives in.
    pub fn file(&self) -> (r: &PathBuf)
        ensures
            *r == self.path(),
    {
        &self.path
    }

    /// The visits, the latest first.
    pub fn visits(&self) -> (r: &[Visit])
        ensures
            visit_views(r@) == self@,
    {
        self.visits.as_slice()
    }

    /// Give the page at `url` the title `title`, which often arrives after
    /// the visit was noted; an empty title changes nothing.
    pub fn retitle(&mut self, url: &str, title: &str)
        ensures
            final(self)@ == (if title@.len() == 0 {
                old(self)@
            } else {
                match first_index(old(self)@, visit_to(url@)) {
                    Some(i) => old(self)@.update(i, VisitView { title: title@, ..old(self)@[i] }),
                    None => old(self)@,
                }
            }),
            final(self).path() == old(self).path(),
    {
        let tv = chars_of(title);
        if tv.len() == 0 {
            return;
        }
        let u = chars_of(url);
        let ghost view = self@;
        let mut i: usize = 0;
        while i < self.visits.len()
            invariant
                i <= self.visits@.len(),
                view == self@,
                view == visit_views(self.visits@),
                forall|k: int| 0 <= k < i ==> !visit_to(url@)(#[trigger] view[k]),
                u@ == url@,
                tv@ == title@,
                tv@.len() > 0,
                self.path == old(self).path,
                view == old(self)@,
            decreases self.visits@.len() - i,
        {
            assert(view[i as int] == self.visits@[i as int]@);
            if str_is(self.visits[i].url.as_str(), &u) {
                proof {
                    lemma_first_index(view, visit_to(url@));
                    assert(visit_to(url@)(view[i as int]));
                }
                let v = Visit {
                    url: self.visits[i].url.clone(),
                    title: title.to_owned(),
                    last: self.visits[i].last,
                    count: self.visits[i].count,
                };
                self.visits.set(i, v);
                assert(self@ =~= view.update(i as int, VisitView { title: title@, ..view[i as int] }));
                return;
            }
            i += 1;
        }
        proof {
            lemma_first_index(view, visit_to(url@));
        }
    }
}

/// A page that is not kept: no URL, or gaze's own and the browser's
/// internal pages.
pub open spec fn internal_url(url: Seq<char>) -> bool {
    url.len() == 0 || starts_with(url, "about:"@) || starts_with(url, "gaze:"@) || starts_with(
        url,
        "data:"@,
    )
}

/// The visits after a visit to `url` at `now`: the page moves to the
/// front, counted once more, with the new title when there is one; a new
/// page goes to the front and the oldest beyond `KEEP` are dropped.
pub open spec fn record_spec(vs: Seq<VisitView>, url: Seq<char>, title: Seq<char>, now: u64) -> Seq<
    VisitView,
> {
    match first_index(vs, visit_to(url)) {
        Some(i) => {
            let v = vs[i];
            seq![
                VisitView {
                    url: v.url,
                    title: if title.len() > 0 {
                        title
                    } else {
                        v.title
                    },
                    last: now,
                    count: (v.count + 1) as u32,
                },
            ] + vs.remove(i)
        },
        None => {
            let s = seq![VisitView { url, title, last: now, count: 1 }] + vs;
            if s.len() > KEEP {
                s.take(KEEP as int)
            } else {
                s
            }
        },
    }
}

/// Visiting a page already in the history brings it to the front,
/// counted once more and stamped with the time, with the new title when
/// the visit has one and its old title otherwise; every other page stays
/// as it was, in its order.
pub proof fn law_revisit_updates_the_page(vs: Seq<VisitView>, i: int, url: Seq<char>, title: Seq<char>, now: u64)
    requires
        0 <= i < vs.len(),
        vs[i].url == url,
        forall|k: int| 0 <= k < vs.len() && k != i ==> (#[trigger] vs[k]).url != url,
        vs[i].count < u32::MAX,
    ensures
        ({
            let r = record_spec(vs, url, title, now);
            &&& r.len() == vs.len()
            &&& r[0].url == url
            &&& r[0].title == (if title.len() > 0 {
                title
            } else {
                vs[i].title
            })
            &&& r[0].last == now
            &&& r[0].count == vs[i].count + 1
            &&& forall|k: int| 0 <= k < i ==> #[trigger] r[k + 1] == vs[k]
            &&& forall|k: int| i < k < vs.len() ==> #[trigger] r[k] == vs[k]
        }),
{
    lemma_first_index(vs, visit_to(url));
    match first_index(vs, visit_to(url)) {
        Some(j) => {
            assert(j == i);
        },
        None => {
            assert(visit_to(url)(vs[i]));
        },
    }
}

/// Visiting a page not in the history puts it first, with its title, the
/// time, and one visit; the pages before follow in their order.
pub proof fn law_first_visit_goes_first(vs: Seq<VisitView>, url: Seq<char>, title: Seq<char>, now: u64)
    requires
        forall|k: int| 0 <= k < vs.len() ==> (#[trigger] vs[k]).url != url,
    ensures
        ({
            let r = record_spec(vs, url, title, now);
            &&& r[0] == VisitView { url, title, last: now, count: 1 }
            &&& r.len() == (if vs.len() + 1 > KEEP { KEEP as int } else { vs.len() + 1 as int })
            &&& forall|k: int| 0 <= k < r.len() - 1 ==> #[trigger] r[k + 1] == vs[k]
        }),
{
    lemma_first_index(vs, visit_to(url));
    match first_index(vs, visit_to(url)) {
        Some(j) => {
            assert(vs[j].url == url);
        },
        None => {},
    }
}

/// A title with its tabs and line breaks made spaces.
pub open spec fn one_line(t: Seq<char>) -> Seq<char> {
    t.map_values(
        |c: char|
            if c == '\t' || c == '\n' {
                ' '
            } else {
                c
            },
    )
}

/// The line a visit adds to the file: the time, the URL and the title,
/// between tabs.
pub open spec fn visit_record(now: u64, url: Seq<char>, title: Seq<char>) -> Seq<char> {
    decimal(now as nat) + seq!['\t'] + url + seq!['\t'] + one_line(title) + seq!['\n']
}

/// The visit to `url` in `vs` has been counted fewer times than a count
/// can hold.
pub open spec fn countable(vs: Seq<VisitView>, url: Seq<char>) -> bool {
    forall|i: int| 0 <= i < vs.len() && (#[trigger] vs[i]).url == url ==> vs[i].count < u32::MAX
}

impl History {
    /// Note a visit to `url` with the title `title` at `now`; gives the
    /// line to append to the file, or nothing for a page that is not kept.
    pub fn record_at(&mut self, url: &str, title: &str, now: u64) -> (r: Option<String>)
        requires
            old(self).wf(),
            countable(old(self)@, url@),
        ensures
            final(self).wf(),
            final(self).path() == old(self).path(),
            internal_url(url@) ==> r is None && final(self)@ == old(self)@,
            !internal_url(url@) ==> (r matches Some(line) && line@ == visit_record(now, url@, title@)),
            !internal_url(url@) ==> final(self)@ == record_spec(old(self)@, url@, title@, now),
    {
        let u = chars_of(url);
        if u.len() == 0 || starts_with_exec(&u, &chars_of("about:")) || starts_with_exec(
            &u,
            &chars_of("gaze:"),
        ) || starts_with_exec(&u, &chars_of("data:")) {
            return None;
        }
        let t = chars_of(title);
        let ghost view = self@;
        let mut i: usize = 0;
        while i < self.visits.len() && !str_is(self.visits[i].url.as_str(), &u)
            invariant
                i <= self.visits@.len(),
                view == self@,
                view == visit_views(self.visits@),
                u@ == url@,
                forall|k: int| 0 <= k < i ==> !visit_to(url@)(#[trigger] view[k]),
            decreases self.visits@.len() - i,
        {
            assert(view[i as int] == self.visits@[i as int]@);
            i += 1;
        }
        let found = if i < self.visits.len() {
            assert(view[i as int] == self.visits@[i as int]@);
            assert(visit_to(url@)(view[i as int]));
            Some(i)
        } else {
            None
        };
        proof {
            lemma_first_index(view, visit_to(url@));
        }
        match found {
            Some(i) => {
                let v = self.visits.remove(i);
                assert(v@ == view[i as int]);
                assert(v.count < u32::MAX);
                let nv = Visit {
                    url: v.url,
                    title: if t.len() > 0 {
                        title.to_owned()
                    } else {
                        v.title
                    },
                    last: now,
                    count: v.count + 1,
                };
                let ghost nvv = nv@;
                self.visits.insert(0, nv);
                assert(self@ =~= seq![nvv] + view.remove(i as int));
            },
            None => {
                let nv = Visit { url: url.to_owned(), title: title.to_owned(), last: now, count: 1 };
                let ghost nvv = nv@;
                self.visits.insert(0, nv);
                assert(self@ =~= seq![nvv] + view);
                if self.visits.len() > KEEP {
                    let ghost before = self@;
                    self.visits.truncate(KEEP);
                    assert(self@ =~= before.take(KEEP as int));
                }
            },
        }
        let mut line: Vec<char> = Vec::new();
        push_decimal(&mut line, now);
        line.push('\t');
        line = concat_chars(&line, &u);
        line.push('\t');
        let ghost head = line@;
        let mut k: usize = 0;
        while k < t.len()
            invariant
                k <= t@.len(),
                line@ == head + one_line(t@.take(k as int)),
            decreases t@.len() - k,
        {
            let c = t[k];
            line.push(if c == '\t' || c == '\n' { ' ' } else { c });
            assert(one_line(t@.take(k + 1)) =~= one_line(t@.take(k as int)).push(
                if c == '\t' || c == '\n' { ' ' } else { c },
            ));
            k += 1;
        }
        assert(t@.take(t@.len() as int) =~= t@);
        line.push('\n');
        assert(line@ =~= visit_record(now, url@, title@));
        Some(string_of(line.as_slice()))
    }

    /// Note a visit to `url` with the title `title`, now; gives the line to
    /// append to the file, or nothing for a page that is not kept. The time
    /// is the system clock's, so what is stated holds whatever it said.
    pub fn record(&mut self, url: &str, title: &str) -> (r: Option<String>)
        requires
            old(self).wf(),
            countable(old(self)@, url@),
        ensures
            final(self).wf(),
            final(self).path() == old(self).path(),
            internal_url(url@) ==> r is None && final(self)@ == old(self)@,
            !internal_url(url@) ==> exists|now: u64|
                (r matches Some(line) && line@ == visit_record(now, url@, title@)) && final(self)@
                    == record_spec(old(self)@, url@, title@, now),
    {
        let now = crate::passwords::now();
        self.record_at(url, title, now)
    }
}

/// What `str::to_lowercase` gives for `s`: every character in its Unicode
/// lower case, some of them more than one character.
pub uninterp spec fn lowercase(s: Seq<char>) -> Seq<char>;

/// `s` in lower case, by `str::to_lowercase`. Its result is a function of
/// `s` alone, named `lowercase`; the Unicode case tables it follows are
/// not written out here.
#[verifier::external_body]
pub(crate) fn to_lowercase(s: &str) -> (r: String)
    ensures
        r@ == lowercase(s@),
{
    s.to_lowercase()
}

/// `s` holds `w` somewhere.
pub open spec fn holds_text(s: Seq<char>, w: Seq<char>) -> bool {
    find_sub(s, w) is Some
}

/// The words typed, in lower case.
pub open spec fn query_words(query: Seq<char>) -> Seq<Seq<char>> {
    words(query).map_values(|w: Seq<char>| lowercase(w))
}

/// Every word is in the URL or the title, compared in lower case.
pub open spec fn hit(ws: Seq<Seq<char>>, url: Seq<char>, title: Seq<char>) -> bool {
    forall|k: int|
        0 <= k < ws.len() ==> holds_text(lowercase(url), #[trigger] ws[k]) || holds_text(
            lowercase(title),
            ws[k],
        )
}

/// A candidate as plain values: URL, title, and whether it is a bookmark.
pub open spec fn candidate_view(c: Candidate) -> (Seq<char>, Seq<char>, bool) {
    (c.url@, c.title@, c.bookmark)
}

/// How often `url` was visited, 0 for a page never visited.
pub open spec fn count_of(vs: Seq<VisitView>, url: Seq<char>) -> int {
    match first_index(vs, visit_to(url)) {
        Some(i) => vs[i].count as int,
        None => 0,
    }
}

/// The bookmarks that match, each with its score: far above any page, and
/// the more visited the higher.
pub open spec fn mark_candidates(
    vs: Seq<VisitView>,
    marks: Seq<(Seq<char>, Seq<char>)>,
    hits: Seq<bool>,
) -> Seq<(int, (Seq<char>, Seq<char>, bool))>
    decreases marks.len(),
{
    if marks.len() == 0 {
        Seq::empty()
    } else {
        let before = mark_candidates(vs, marks.drop_last(), hits);
        let m = marks.last();
        if hits[marks.len() - 1] {
            before.push((1_000_000 + count_of(vs, m.0), (m.0, m.1, true)))
        } else {
            before
        }
    }
}

/// Some bookmark has the URL `url`.
pub open spec fn marked(marks: Seq<(Seq<char>, Seq<char>)>, url: Seq<char>) -> bool {
    exists|j: int| 0 <= j < marks.len() && #[trigger] marks[j].0 == url
}

/// The pages that match and are not bookmarks, each with its score: with
/// nothing typed the latest first, with words the most visited first.
pub open spec fn visit_candidates(
    vs: Seq<VisitView>,
    marks: Seq<(Seq<char>, Seq<char>)>,
    hits: Seq<bool>,
    typed: bool,
) -> Seq<(int, (Seq<char>, Seq<char>, bool))>
    decreases vs.len(),
{
    if vs.len() == 0 {
        Seq::empty()
    } else {
        let rank = vs.len() - 1;
        let before = visit_candidates(vs.drop_last(), marks, hits, typed);
        let v = vs.last();
        if marked(marks, v.url) || !hits[rank] {
            before
        } else {
            let score = if typed {
                v.count * 100 - rank
            } else {
                -rank
            };
            before.push((score, (v.url, v.title, false)))
        }
    }
}

/// The key candidates are ordered by: their score.
pub open spec fn score_key() -> spec_fn((int, (Seq<char>, Seq<char>, bool))) -> int {
    |c: (int, (Seq<char>, Seq<char>, bool))| c.0
}

/// What the open prompt offers, given which bookmarks and which pages
/// match: bookmarks first, then by score, at most `limit`.
pub open spec fn offers(
    vs: Seq<VisitView>,
    marks: Seq<(Seq<char>, Seq<char>)>,
    mark_hits: Seq<bool>,
    visit_hits: Seq<bool>,
    typed: bool,
    limit: int,
) -> Seq<(Seq<char>, Seq<char>, bool)> {
    let all = sort_desc(
        mark_candidates(vs, marks, mark_hits) + visit_candidates(vs, marks, visit_hits, typed),
        score_key(),
    );
    let kept = if all.len() > limit {
        all.take(limit)
    } else {
        all
    };
    kept.map_values(|c: (int, (Seq<char>, Seq<char>, bool))| c.1)
}

/// A scored candidate that comes from a bookmark that hit: it is marked
/// as a bookmark and scores at least a million.
pub open spec fn from_mark(
    c: (int, (Seq<char>, Seq<char>, bool)),
    marks: Seq<(Seq<char>, Seq<char>)>,
    hits: Seq<bool>,
) -> bool {
    &&& c.1.2
    &&& c.0 >= 1_000_000
    &&& exists|j: int| 0 <= j < marks.len() && hits[j] && #[trigger] marks[j] == (c.1.0, c.1.1)
}

/// A scored candidate that comes from a visited page that hit: it is not
/// marked as a bookmark and scores under a million.
pub open spec fn from_visit(
    c: (int, (Seq<char>, Seq<char>, bool)),
    vs: Seq<VisitView>,
    hits: Seq<bool>,
) -> bool {
    &&& !c.1.2
    &&& c.0 < 1_000_000
    &&& exists|i: int| 0 <= i < vs.len() && hits[i] && (#[trigger] vs[i]).url == c.1.0 && vs[i].title == c.1.1
}

proof fn lemma_mark_candidates(vs: Seq<VisitView>, marks: Seq<(Seq<char>, Seq<char>)>, hits: Seq<bool>)
    requires
        marks.len() <= hits.len(),
    ensures
        forall|k: int|
            0 <= k < mark_candidates(vs, marks, hits).len() ==> from_mark(
                #[trigger] mark_candidates(vs, marks, hits)[k],
                marks,
                hits,
            ),
    decreases marks.len(),
{
    if marks.len() > 0 {
        let p = marks.drop_last();
        lemma_mark_candidates(vs, p, hits);
        let mc = mark_candidates(vs, marks, hits);
        let before = mark_candidates(vs, p, hits);
        assert forall|k: int| 0 <= k < mc.len() implies from_mark(#[trigger] mc[k], marks, hits) by {
            if k < before.len() {
                assert(mc[k] == before[k]);
                assert(from_mark(before[k], p, hits));
                let j = choose|j: int| 0 <= j < p.len() && hits[j] && #[trigger] p[j] == (before[k].1.0, before[k].1.1);
                assert(marks[j] == p[j]);
            } else {
                let j = marks.len() - 1;
                assert(marks[j] == (mc[k].1.0, mc[k].1.1));
            }
        }
    }
}

proof fn lemma_visit_candidates(vs: Seq<VisitView>, marks: Seq<(Seq<char>, Seq<char>)>, hits: Seq<bool>, typed: bool)
    requires
        vs.len() <= hits.len(),
        forall|i: int| 0 <= i < vs.len() ==> (#[trigger] vs[i]).count < 10_000,
    ensures
        forall|k: int|
            0 <= k < visit_candidates(vs, marks, hits, typed).len() ==> from_visit(
                #[trigger] visit_candidates(vs, marks, hits, typed)[k],
                vs,
                hits,
            ),
    decreases vs.len(),
{
    if vs.len() > 0 {
        let p = vs.drop_last();
        assert forall|i: int| 0 <= i < p.len() implies (#[trigger] p[i]).count < 10_000 by {
            assert(p[i] == vs[i]);
        }
        lemma_visit_candidates(p, marks, hits, typed);
        let vc = visit_candidates(vs, marks, hits, typed);
        let before = visit_candidates(p, marks, hits, typed);
        assert forall|k: int| 0 <= k < vc.len() implies from_visit(#[trigger] vc[k], vs, hits) by {
            if k < before.len() {
                assert(vc[k] == before[k]);
                assert(from_visit(before[k], p, hits));
                let i = choose|i: int| 0 <= i < p.len() && hits[i] && (#[trigger] p[i]).url == before[k].1.0 && p[i].title == before[k].1.1;
                assert(vs[i] == p[i]);
            } else {
                let i = vs.len() - 1;
                assert(vs[i].count < 10_000);
                assert(vs[i].url == vc[k].1.0);
            }
        }
    }
}

/// What the open prompt offers: every page offered is a bookmark or a
/// visited page that matched, and bookmarks come before the other pages,
/// as long as no page was visited ten thousand times or more (a page
/// visited that often outscores the bookmarks).
pub proof fn law_offers_hit_and_bookmarks_lead(
    vs: Seq<VisitView>,
    marks: Seq<(Seq<char>, Seq<char>)>,
    mark_hits: Seq<bool>,
    visit_hits: Seq<bool>,
    typed: bool,
    limit: int,
)
    requires
        mark_hits.len() == marks.len(),
        visit_hits.len() == vs.len(),
        limit >= 0,
        forall|i: int| 0 <= i < vs.len() ==> (#[trigger] vs[i]).count < 10_000,
    ensures
        ({
            let r = offers(vs, marks, mark_hits, visit_hits, typed, limit);
            &&& forall|i: int, j: int| 0 <= i < j < r.len() && (#[trigger] r[j]).2 ==> (#[trigger] r[i]).2
            &&& forall|k: int|
                0 <= k < r.len() && (#[trigger] r[k]).2 ==> exists|j: int|
                    0 <= j < marks.len() && mark_hits[j] && #[trigger] marks[j] == (r[k].0, r[k].1)
            &&& forall|k: int|
                0 <= k < r.len() && !(#[trigger] r[k]).2 ==> exists|i: int|
                    0 <= i < vs.len() && visit_hits[i] && (#[trigger] vs[i]).url == r[k].0 && vs[i].title == r[k].1
        }),
{
    let mc = mark_candidates(vs, marks, mark_hits);
    let vc = visit_candidates(vs, marks, visit_hits, typed);
    let cand = mc + vc;
    let all = sort_desc(cand, score_key());
    lemma_mark_candidates(vs, marks, mark_hits);
    lemma_visit_candidates(vs, marks, visit_hits, typed);
    crate::seqs::lemma_sort_desc(cand, score_key());
    assert forall|m: int| 0 <= m < cand.len() implies from_mark(#[trigger] cand[m], marks, mark_hits) || from_visit(cand[m], vs, visit_hits) by {
        if m < mc.len() {
            assert(cand[m] == mc[m]);
        } else {
            assert(cand[m] == vc[m - mc.len()]);
        }
    }
    assert forall|i: int| 0 <= i < all.len() implies from_mark(#[trigger] all[i], marks, mark_hits) || from_visit(all[i], vs, visit_hits) by {
        cand.to_multiset_ensures();
        all.to_multiset_ensures();
        assert(all.contains(all[i]));
        assert(all.to_multiset().count(all[i]) > 0);
        assert(cand.to_multiset().count(all[i]) > 0);
        assert(cand.contains(all[i]));
        let m = choose|m: int| 0 <= m < cand.len() && cand[m] == all[i];
        assert(from_mark(cand[m], marks, mark_hits) || from_visit(cand[m], vs, visit_hits));
    }
    let kept = if all.len() > limit {
        all.take(limit)
    } else {
        all
    };
    let r = offers(vs, marks, mark_hits, visit_hits, typed, limit);
    assert(r == kept.map_values(|c: (int, (Seq<char>, Seq<char>, bool))| c.1));
    assert forall|i: int| 0 <= i < kept.len() implies #[trigger] kept[i] == all[i] by {}
    assert forall|i: int, j: int| 0 <= i < j < r.len() && (#[trigger] r[j]).2 implies (#[trigger] r[i]).2 by {
        assert(r[i] == kept[i].1 && r[j] == kept[j].1);
        assert(kept[i] == all[i] && kept[j] == all[j]);
        assert(score_key()(all[i]) >= score_key()(all[j]));
        assert(from_mark(all[j], marks, mark_hits) || from_visit(all[j], vs, visit_hits));
        assert(from_mark(all[i], marks, mark_hits) || from_visit(all[i], vs, visit_hits));
    }
    assert forall|k: int| 0 <= k < r.len() && (#[trigger] r[k]).2 implies exists|j: int|
        0 <= j < marks.len() && mark_hits[j] && #[trigger] marks[j] == (r[k].0, r[k].1) by {
        assert(r[k] == kept[k].1 && kept[k] == all[k]);
        assert(from_mark(all[k], marks, mark_hits) || from_visit(all[k], vs, visit_hits));
    }
    assert forall|k: int| 0 <= k < r.len() && !(#[trigger] r[k]).2 implies exists|i: int|
        0 <= i < vs.len() && visit_hits[i] && (#[trigger] vs[i]).url == r[k].0 && vs[i].title == r[k].1 by {
        assert(r[k] == kept[k].1 && kept[k] == all[k]);
        assert(from_mark(all[k], marks, mark_hits) || from_visit(all[k], vs, visit_hits));
    }
}

/// The candidate the page at `k` of `vs` makes when it matches and is no
/// bookmark.
spec fn visit_candidate(vs: Seq<VisitView>, k: int, typed: bool) -> (int, (Seq<char>, Seq<char>, bool)) {
    (if typed {
        vs[k].count * 100 - k
    } else {
        -k
    }, (vs[k].url, vs[k].title, false))
}

/// `c` is the candidate some page of `vs` makes.
spec fn made_by_visit(vs: Seq<VisitView>, c: (int, (Seq<char>, Seq<char>, bool)), typed: bool) -> bool {
    exists|k: int| 0 <= k < vs.len() && c == #[trigger] visit_candidate(vs, k, typed)
}

proof fn lemma_visit_candidate_scores(vs: Seq<VisitView>, marks: Seq<(Seq<char>, Seq<char>)>, hits: Seq<bool>, typed: bool)
    requires
        vs.len() <= hits.len(),
    ensures
        forall|k: int|
            0 <= k < vs.len() && hits[k] && !marked(marks, vs[k].url) ==> visit_candidates(vs, marks, hits, typed).contains(
                #[trigger] visit_candidate(vs, k, typed),
            ),
        forall|m: int|
            0 <= m < visit_candidates(vs, marks, hits, typed).len() ==> made_by_visit(
                vs,
                #[trigger] visit_candidates(vs, marks, hits, typed)[m],
                typed,
            ),
    decreases vs.len(),
{
    if vs.len() > 0 {
        let p = vs.drop_last();
        lemma_visit_candidate_scores(p, marks, hits, typed);
        let vc = visit_candidates(vs, marks, hits, typed);
        let before = visit_candidates(p, marks, hits, typed);
        let last = vs.len() - 1;
        assert forall|k: int| 0 <= k < p.len() implies #[trigger] visit_candidate(p, k, typed) == visit_candidate(vs, k, typed) by {
            assert(p[k] == vs[k]);
        }
        assert forall|k: int|
            0 <= k < vs.len() && hits[k] && !marked(marks, vs[k].url) implies vc.contains(
                #[trigger] visit_candidate(vs, k, typed),
            ) by {
            if k < last {
                assert(p[k] == vs[k]);
                assert(visit_candidate(p, k, typed) == visit_candidate(vs, k, typed));
                assert(before.contains(visit_candidate(p, k, typed)));
                let m = choose|m: int| 0 <= m < before.len() && before[m] == visit_candidate(p, k, typed);
                assert(vc[m] == before[m]);
            } else {
                assert(vc[vc.len() - 1] == visit_candidate(vs, k, typed));
            }
        }
        assert forall|m: int| 0 <= m < vc.len() implies made_by_visit(vs, #[trigger] vc[m], typed) by {
            if m < before.len() {
                assert(vc[m] == before[m]);
                assert(made_by_visit(p, before[m], typed));
                let k = choose|k: int| 0 <= k < p.len() && before[m] == #[trigger] visit_candidate(p, k, typed);
                assert(visit_candidate(p, k, typed) == visit_candidate(vs, k, typed));
            } else {
                assert(vc[m] == visit_candidate(vs, last, typed));
            }
        }
    }
}

/// Among pages that match and are no bookmarks, a page that scores higher
/// is offered first: with words typed, the one visited more often (by a
/// hundred visits for each place it stands further back), with nothing
/// typed, the one visited later. Said of a history where each page is
/// once: whenever the lower page is offered, the higher one is offered
/// before it.
pub proof fn law_offers_follow_visits(
    vs: Seq<VisitView>,
    marks: Seq<(Seq<char>, Seq<char>)>,
    mark_hits: Seq<bool>,
    visit_hits: Seq<bool>,
    typed: bool,
    limit: int,
    i: int,
    j: int,
)
    requires
        mark_hits.len() == marks.len(),
        visit_hits.len() == vs.len(),
        limit >= 0,
        0 <= i < vs.len(),
        0 <= j < vs.len(),
        forall|a: int, b: int| 0 <= a < b < vs.len() ==> (#[trigger] vs[a]).url != (#[trigger] vs[b]).url,
        visit_hits[i],
        visit_hits[j],
        forall|m: int| 0 <= m < marks.len() ==> (#[trigger] marks[m]).0 != vs[i].url && marks[m].0 != vs[j].url,
        if typed {
            (vs[i].count - vs[j].count) * 100 > i - j
        } else {
            i < j
        },
    ensures
        ({
            let r = offers(vs, marks, mark_hits, visit_hits, typed, limit);
            forall|q: int|
                0 <= q < r.len() && #[trigger] r[q] == (vs[j].url, vs[j].title, false) ==> exists|p: int|
                    0 <= p < q && #[trigger] r[p] == (vs[i].url, vs[i].title, false)
        }),
{
    let mc = mark_candidates(vs, marks, mark_hits);
    let vc = visit_candidates(vs, marks, visit_hits, typed);
    let cand = mc + vc;
    let all = sort_desc(cand, score_key());
    lemma_mark_candidates(vs, marks, mark_hits);
    lemma_visit_candidate_scores(vs, marks, visit_hits, typed);
    crate::seqs::lemma_sort_desc(cand, score_key());
    cand.to_multiset_ensures();
    all.to_multiset_ensures();
    let ci = visit_candidate(vs, i, typed);
    let cj = visit_candidate(vs, j, typed);
    assert(!marked(marks, vs[i].url));
    assert(!marked(marks, vs[j].url));
    assert(vc.contains(ci));
    assert(cand.contains(ci)) by {
        let m = choose|m: int| 0 <= m < vc.len() && vc[m] == ci;
        assert(cand[mc.len() + m] == ci);
    }
    assert(all.contains(ci)) by {
        assert(cand.to_multiset().count(ci) > 0);
    }
    let p = choose|p: int| 0 <= p < all.len() && all[p] == ci;
    assert(i != j) by {
        if i == j {
            if typed {
                assert((vs[i].count - vs[j].count) * 100 == 0);
            }
        }
    }
    assert(ci.0 > cj.0) by {
        if typed {
            assert(ci.0 == vs[i].count * 100 - i);
            assert(cj.0 == vs[j].count * 100 - j);
        }
    }
    let kept = if all.len() > limit {
        all.take(limit)
    } else {
        all
    };
    let r = offers(vs, marks, mark_hits, visit_hits, typed, limit);
    assert(r == kept.map_values(|c: (int, (Seq<char>, Seq<char>, bool))| c.1));
    assert forall|q: int|
        0 <= q < r.len() && #[trigger] r[q] == (vs[j].url, vs[j].title, false) implies exists|p2: int|
            0 <= p2 < q && #[trigger] r[p2] == (vs[i].url, vs[i].title, false) by {
        assert(kept[q] == all[q]);
        assert(r[q] == all[q].1);
        assert(all.contains(all[q]));
        assert(cand.to_multiset().count(all[q]) > 0);
        assert(cand.contains(all[q]));
        let m = choose|m: int| 0 <= m < cand.len() && cand[m] == all[q];
        if m < mc.len() {
            assert(cand[m] == mc[m]);
            assert(from_mark(mc[m], marks, mark_hits));
        } else {
            assert(cand[m] == vc[m - mc.len()]);
            assert(made_by_visit(vs, vc[m - mc.len()], typed));
            let k = choose|k: int| 0 <= k < vs.len() && vc[m - mc.len()] == #[trigger] visit_candidate(vs, k, typed);
            assert(vs[k].url == vs[j].url);
            if k != j {
                if k < j {
                    assert(vs[k].url != vs[j].url);
                } else {
                    assert(vs[j].url != vs[k].url);
                }
            }
            assert(all[q] == cj);
            if p > q {
                assert(score_key()(all[q]) >= score_key()(all[p]));
            }
            assert(p != q);
            assert(p < q);
            assert(kept[p] == all[p]);
            assert(r[p] == ci.1);
        }
    }
}

/// Pairs of strings as pairs of character sequences.
pub open spec fn marks_view(v: Seq<(String, String)>) -> Seq<(Seq<char>, Seq<char>)> {
    v.map_values(|p: (String, String)| (p.0@, p.1@))
}

/// A scored candidate as plain values.
pub open spec fn scored_view(c: (i64, Candidate)) -> (int, (Seq<char>, Seq<char>, bool)) {
    (c.0 as int, candidate_view(c.1))
}

/// `v` in decreasing order of score, equal scores in the order they came.
fn sort_scored(v: Vec<(i64, Candidate)>) -> (r: Vec<(i64, Candidate)>)
    ensures
        r@.map_values(|c: (i64, Candidate)| scored_view(c)) == sort_desc(
            v@.map_values(|c: (i64, Candidate)| scored_view(c)),
            score_key(),
        ),
{
    let ghost input = v@.map_values(|c: (i64, Candidate)| scored_view(c));
    let mut out: Vec<(i64, Candidate)> = Vec::new();
    let mut i: usize = 0;
    assert(out@.map_values(|c: (i64, Candidate)| scored_view(c)) =~= sort_desc(input.take(0), score_key()));
    while i < v.len()
        invariant
            i <= v@.len(),
            input == v@.map_values(|c: (i64, Candidate)| scored_view(c)),
            out@.map_values(|c: (i64, Candidate)| scored_view(c)) == sort_desc(input.take(i as int), score_key()),
        decreases v@.len() - i,
    {
        let x = (
            v[i].0,
            Candidate { url: v[i].1.url.clone(), title: v[i].1.title.clone(), bookmark: v[i].1.bookmark },
        );
        assert(scored_view(x) == input[i as int]);
        let ghost sv = out@.map_values(|c: (i64, Candidate)| scored_view(c));
        let mut p: usize = 0;
        while p < out.len() && out[p].0 >= x.0
            invariant
                p <= out@.len(),
                sv == out@.map_values(|c: (i64, Candidate)| scored_view(c)),
                forall|j: int| 0 <= j < p ==> !key_below(score_key(), x.0 as int)(#[trigger] sv[j]),
            decreases out@.len() - p,
        {
            p += 1;
        }
        proof {
            lemma_first_index(sv, key_below(score_key(), x.0 as int));
            if p < out@.len() {
                assert(key_below(score_key(), x.0 as int)(sv[p as int]));
            }
        }
        assert(input.take(i + 1).drop_last() =~= input.take(i as int));
        assert(input.take(i + 1).last() == scored_view(x));
        let ghost xv = scored_view(x);
        let at_end = p == out.len();
        out.insert(p, x);
        if !at_end {
            assert(out@.map_values(|c: (i64, Candidate)| scored_view(c)) =~= sv.insert(p as int, xv));
        } else {
            assert(out@.map_values(|c: (i64, Candidate)| scored_view(c)) =~= sv.push(xv));
        }
        i += 1;
    }
    assert(input.take(input.len() as int) =~= input);
    out
}

impl History {
    /// How often `url` was visited, 0 for a page never visited.
    fn count_for(&self, url: &str) -> (r: u32)
        ensures
            r == count_of(self@, url@),
    {
        let u = chars_of(url);
        let ghost view = self@;
        let mut i: usize = 0;
        while i < self.visits.len() && !str_is(self.visits[i].url.as_str(), &u)
            invariant
                i <= self.visits@.len(),
                view == self@,
                view == visit_views(self.visits@),
                u@ == url@,
                forall|k: int| 0 <= k < i ==> !visit_to(url@)(#[trigger] view[k]),
            decreases self.visits@.len() - i,
        {
            assert(view[i as int] == self.visits@[i as int]@);
            i += 1;
        }
        proof {
            lemma_first_index(view, visit_to(url@));
        }
        if i < self.visits.len() {
            assert(view[i as int] == self.visits@[i as int]@);
            assert(visit_to(url@)(view[i as int]));
            self.visits[i].count
        } else {
            0
        }
    }

    /// What the open prompt offers, given which bookmarks match
    /// (`mark_hits`, one per bookmark) and which pages do (`visit_hits`,
    /// one per visit): the matching bookmarks first, the more visited the
    /// higher; then the matching pages that are no bookmark, with words
    /// typed (`typed`) the most visited first, else the latest first; at
    /// most `limit` of them.
    pub fn rank(
        &self,
        marks: &[(String, String)],
        mark_hits: &[bool],
        visit_hits: &[bool],
        typed: bool,
        limit: usize,
    ) -> (r: Vec<Candidate>)
        requires
            self.wf(),
            mark_hits@.len() == marks@.len(),
            visit_hits@.len() == self@.len(),
        ensures
            r@.map_values(|c: Candidate| candidate_view(c)) == offers(
                self@,
                marks_view(marks@),
                mark_hits@,
                visit_hits@,
                typed,
                limit as int,
            ),
    {
        let ghost mv = marks_view(marks@);
        let ghost vs = self@;
        let mut all: Vec<(i64, Candidate)> = Vec::new();
        let mut k: usize = 0;
        while k < marks.len()
            invariant
                k <= marks@.len(),
                mark_hits@.len() == marks@.len(),
                mv == marks_view(marks@),
                vs == self@,
                all@.map_values(|c: (i64, Candidate)| scored_view(c)) == mark_candidates(vs, mv.take(k as int), mark_hits@),
            decreases marks@.len() - k,
        {
            assert(mv.take(k + 1).drop_last() =~= mv.take(k as int));
            assert(mv.take(k + 1).last() == mv[k as int]);
            if mark_hits[k] {
                let count = self.count_for(marks[k].0.as_str());
                let ghost before = all@.map_values(|c: (i64, Candidate)| scored_view(c));
                let c = Candidate { url: marks[k].0.clone(), title: marks[k].1.clone(), bookmark: true };
                all.push((1_000_000 + count as i64, c));
                assert(all@.map_values(|c: (i64, Candidate)| scored_view(c)) =~= before.push(
                    (1_000_000 + count_of(vs, mv[k as int].0), (mv[k as int].0, mv[k as int].1, true)),
                ));
            }
            k += 1;
        }
        assert(mv.take(mv.len() as int) =~= mv);
        let ghost from_marks = all@.map_values(|c: (i64, Candidate)| scored_view(c));
        let mut i: usize = 0;
        assert(from_marks + visit_candidates(vs.take(0), mv, visit_hits@, typed) =~= from_marks);
        while i < self.visits.len()
            invariant
                i <= self.visits@.len(),
                self.visits@.len() <= KEEP,
                visit_hits@.len() == self@.len(),
                mv == marks_view(marks@),
                vs == self@,
                vs == visit_views(self.visits@),
                all@.map_values(|c: (i64, Candidate)| scored_view(c)) == from_marks
                    + visit_candidates(vs.take(i as int), mv, visit_hits@, typed),
            decreases self.visits@.len() - i,
        {
            let v = &self.visits[i];
            assert(vs[i as int] == v@);
            assert(vs.take(i + 1).drop_last() =~= vs.take(i as int));
            assert(vs.take(i + 1).last() == v@);
            let mut j: usize = 0;
            let u = chars_of(v.url.as_str());
            while j < marks.len() && !str_is(marks[j].0.as_str(), &u)
                invariant
                    j <= marks@.len(),
                    mv == marks_view(marks@),
                    u@ == v.url@,
                    forall|q: int| 0 <= q < j ==> #[trigger] mv[q].0 != v.url@,
                decreases marks@.len() - j,
            {
                j += 1;
            }
            let is_mark = j < marks.len();
            assert(is_mark == marked(mv, v.url@)) by {
                if j < marks.len() {
                    assert(mv[j as int].0 == v.url@);
                }
            }
            if !is_mark && visit_hits[i] {
                let score: i64 = if typed {
                    v.count as i64 * 100 - i as i64
                } else {
                    -(i as i64)
                };
                let ghost before = all@.map_values(|c: (i64, Candidate)| scored_view(c));
                let c = Candidate { url: v.url.clone(), title: v.title.clone(), bookmark: false };
                all.push((score, c));
                assert(all@.map_values(|c: (i64, Candidate)| scored_view(c)) =~= before.push(
                    (score as int, (v.url@, v.title@, false)),
                ));
            }
            i += 1;
        }
        assert(vs.take(vs.len() as int) =~= vs);
        let sorted = sort_scored(all);
        let mut out: Vec<Candidate> = Vec::new();
        let ghost sv = sorted@.map_values(|c: (i64, Candidate)| scored_view(c));
        let n = if sorted.len() > limit {
            limit
        } else {
            sorted.len()
        };
        let mut q: usize = 0;
        while q < n
            invariant
                q <= n <= sorted@.len(),
                sv == sorted@.map_values(|c: (i64, Candidate)| scored_view(c)),
                out@.map_values(|c: Candidate| candidate_view(c)) == sv.take(q as int).map_values(
                    |c: (int, (Seq<char>, Seq<char>, bool))| c.1,
                ),
            decreases n - q,
        {
            let c = Candidate {
                url: sorted[q].1.url.clone(),
                title: sorted[q].1.title.clone(),
                bookmark: sorted[q].1.bookmark,
            };
            assert(candidate_view(c) == sv[q as int].1);
            out.push(c);
            assert(sv.take(q + 1).map_values(|c: (int, (Seq<char>, Seq<char>, bool))| c.1) =~= sv.take(
                q as int,
            ).map_values(|c: (int, (Seq<char>, Seq<char>, bool))| c.1).push(sv[q as int].1));
            q += 1;
        }
        if sorted.len() <= limit {
            assert(sv.take(n as int) =~= sv);
        }
        out
    }

    /// Whether every word is in the URL or the title, compared in lower
    /// case.
    fn hits(ws: &Vec<Vec<char>>, url: &str, title: &str) -> (r: bool)
        ensures
            r == hit(char_lines(ws@), url@, title@),
    {
        let lu = to_lowercase(url);
        let lt = to_lowercase(title);
        let u = chars_of(lu.as_str());
        let t = chars_of(lt.as_str());
        let ghost cw = char_lines(ws@);
        let mut k: usize = 0;
        while k < ws.len()
            invariant
                k <= ws@.len(),
                cw == char_lines(ws@),
                u@ == lowercase(url@),
                t@ == lowercase(title@),
                forall|j: int| 0 <= j < k ==> holds_text(u@, #[trigger] cw[j]) || holds_text(t@, cw[j]),
            decreases ws@.len() - k,
        {
            assert(cw[k as int] == ws@[k as int]@);
            if find_sub_exec(&u, &ws[k]).is_none() && find_sub_exec(&t, &ws[k]).is_none() {
                return false;
            }
            k += 1;
        }
        true
    }

    /// What the open prompt offers for `query`: every word must be in the
    /// URL or the title, compared in lower case. Bookmarks come first,
    /// then the most visited and the most recent pages; an empty query
    /// gives the latest pages. At most `limit` of them.
    pub fn matches(&self, query: &str, bookmarks: &[(String, String)], limit: usize) -> (r: Vec<Candidate>)
        requires
            self.wf(),
        ensures
            ({
                let ws = query_words(query@);
                r@.map_values(|c: Candidate| candidate_view(c)) == offers(
                    self@,
                    marks_view(bookmarks@),
                    marks_view(bookmarks@).map_values(|m: (Seq<char>, Seq<char>)| hit(ws, m.0, m.1)),
                    self@.map_values(|v: VisitView| hit(ws, v.url, v.title)),
                    ws.len() > 0,
                    limit as int,
                )
            }),
    {
        let q = chars_of(query);
        let raw = words_of(&q);
        let mut ws: Vec<Vec<char>> = Vec::new();
        let mut k: usize = 0;
        while k < raw.len()
            invariant
                k <= raw@.len(),
                char_lines(raw@) == words(query@),
                q@ == query@,
                char_lines(ws@) == char_lines(raw@).take(k as int).map_values(|w: Seq<char>| lowercase(w)),
            decreases raw@.len() - k,
        {
            let w = string_of(raw[k].as_slice());
            let lw = chars_of(to_lowercase(w.as_str()).as_str());
            let ghost before = char_lines(ws@);
            ws.push(lw);
            assert(char_lines(raw@)[k as int] == raw@[k as int]@);
            assert(char_lines(ws@) =~= before.push(lw@));
            assert(char_lines(raw@).take(k + 1).map_values(|w: Seq<char>| lowercase(w)) =~= char_lines(
                raw@,
            ).take(k as int).map_values(|w: Seq<char>| lowercase(w)).push(lowercase(raw@[k as int]@)));
            k += 1;
        }
        assert(char_lines(raw@).take(raw@.len() as int) =~= char_lines(raw@));
        let ghost wv = query_words(query@);
        assert(char_lines(ws@) == wv);
        let mut mark_hits: Vec<bool> = Vec::new();
        let mut j: usize = 0;
        while j < bookmarks.len()
            invariant
                j <= bookmarks@.len(),
                char_lines(ws@) == wv,
                mark_hits@ == marks_view(bookmarks@).take(j as int).map_values(
                    |m: (Seq<char>, Seq<char>)| hit(wv, m.0, m.1),
                ),
            decreases bookmarks@.len() - j,
        {
            let h = History::hits(&ws, bookmarks[j].0.as_str(), bookmarks[j].1.as_str());
            mark_hits.push(h);
            assert(marks_view(bookmarks@).take(j + 1).map_values(|m: (Seq<char>, Seq<char>)| hit(wv, m.0, m.1))
                =~= marks_view(bookmarks@).take(j as int).map_values(|m: (Seq<char>, Seq<char>)| hit(wv, m.0, m.1)).push(h));
            j += 1;
        }
        assert(marks_view(bookmarks@).take(bookmarks@.len() as int) =~= marks_view(bookmarks@));
        let mut visit_hits: Vec<bool> = Vec::new();
        let mut i: usize = 0;
        while i < self.visits.len()
            invariant
                i <= self.visits@.len(),
                char_lines(ws@) == wv,
                visit_hits@ == self@.take(i as int).map_values(|v: VisitView| hit(wv, v.url, v.title)),
            decreases self.visits@.len() - i,
        {
            let h = History::hits(&ws, self.visits[i].url.as_str(), self.visits[i].title.as_str());
            assert(self@[i as int] == self.visits@[i as int]@);
            visit_hits.push(h);
            assert(self@.take(i + 1).map_values(|v: VisitView| hit(wv, v.url, v.title)) =~= self@.take(
                i as int,
            ).map_values(|v: VisitView| hit(wv, v.url, v.title)).push(h));
            i += 1;
        }
        assert(self@.take(self@.len() as int) =~= self@);
        self.rank(bookmarks, mark_hits.as_slice(), visit_hits.as_slice(), ws.len() > 0, limit)
    }
}

/// No two visits are to the same URL.
pub open spec fn unique_urls(vs: Seq<VisitView>) -> bool {
    forall|i: int, j: int| 0 <= i < j < vs.len() ==> (#[trigger] vs[i]).url != (#[trigger] vs[j]).url
}

/// Folding lines keeps one visit per URL.
proof fn lemma_fold_unique(ls: Seq<Seq<char>>)
    ensures
        unique_urls(fold_lines(ls)),
    decreases ls.len(),
{
    if ls.len() > 0 {
        lemma_fold_unique(ls.drop_last());
        let vs = fold_lines(ls.drop_last());
        if let Some(x) = visit_line(ls.last()) {
            lemma_first_index(vs, visit_to(x.1));
            let r = fold_visit(vs, x.0, x.1, x.2);
            match first_index(vs, visit_to(x.1)) {
                Some(i) => {
                    assert forall|a: int, b: int| 0 <= a < b < r.len() implies (#[trigger] r[a]).url
                        != (#[trigger] r[b]).url by {
                        assert(r[a].url == vs[a].url && r[b].url == vs[b].url);
                    }
                },
                None => {
                    assert forall|a: int, b: int| 0 <= a < b < r.len() implies (#[trigger] r[a]).url
                        != (#[trigger] r[b]).url by {
                        if b == vs.len() {
                            assert(!visit_to(x.1)(vs[a]));
                        }
                    }
                },
            }
        }
    }
}

/// Sorting keeps one visit per URL.
proof fn lemma_sort_unique(s: Seq<VisitView>)
    requires
        unique_urls(s),
    ensures
        unique_urls(sort_desc(s, last_key())),
    decreases s.len(),
{
    if s.len() > 0 {
        let d = s.drop_last();
        assert(unique_urls(d)) by {
            assert forall|a: int, b: int| 0 <= a < b < d.len() implies (#[trigger] d[a]).url != (
            #[trigger] d[b]).url by {
                assert(d[a] == s[a] && d[b] == s[b]);
            }
        }
        lemma_sort_unique(d);
        let p = sort_desc(d, last_key());
        let x = s.last();
        crate::seqs::lemma_sort_desc(d, last_key());
        assert forall|a: int| 0 <= a < p.len() implies (#[trigger] p[a]).url != x.url by {
            assert(p.contains(p[a]));
            vstd::seq_lib::to_multiset_contains(p, p[a]);
            vstd::seq_lib::to_multiset_contains(d, p[a]);
            let k = choose|k: int| 0 <= k < d.len() && d[k] == p[a];
            assert(s[k] == d[k]);
            assert(s[s.len() - 1] == x);
        }
        lemma_first_index(p, key_below(last_key(), x.last as int));
        let r = sort_desc(s, last_key());
        match first_index(p, key_below(last_key(), x.last as int)) {
            Some(q) => {
                assert forall|a: int, b: int| 0 <= a < b < r.len() implies (#[trigger] r[a]).url
                    != (#[trigger] r[b]).url by {
                    if a < q && b > q {
                        assert(r[a] == p[a] && r[b] == p[b - 1]);
                    } else if a > q {
                        assert(r[a] == p[a - 1] && r[b] == p[b - 1]);
                    } else if b == q {
                        assert(r[a] == p[a]);
                    } else if a == q {
                        assert(r[b] == p[b - 1]);
                    }
                }
            },
            None => {},
        }
    }
}

/// Reading the file keeps one visit per URL.
pub proof fn law_history_keeps_a_url_once(text: Seq<char>)
    ensures
        unique_urls(history_of(text)),
{
    lemma_fold_unique(lines(text));
    lemma_sort_unique(fold_lines(lines(text)));
}

/// A visit puts its page first, counted once more than before (once when
/// new), and keeps one visit per URL.
pub proof fn law_visit_goes_first(vs: Seq<VisitView>, url: Seq<char>, title: Seq<char>, now: u64)
    requires
        unique_urls(vs),
        countable(vs, url),
    ensures
        record_spec(vs, url, title, now)[0].url == url,
        record_spec(vs, url, title, now)[0].last == now,
        record_spec(vs, url, title, now)[0].count == count_of(vs, url) + 1,
        unique_urls(record_spec(vs, url, title, now)),
{
    lemma_first_index(vs, visit_to(url));
    let r = record_spec(vs, url, title, now);
    match first_index(vs, visit_to(url)) {
        Some(i) => {
            assert(vs[i].count < u32::MAX);
            assert forall|a: int, b: int| 0 <= a < b < r.len() implies (#[trigger] r[a]).url != (
            #[trigger] r[b]).url by {
                let rm = vs.remove(i);
                if a == 0 {
                    if b - 1 < i {
                        assert(rm[b - 1] == vs[b - 1]);
                    } else {
                        assert(rm[b - 1] == vs[b]);
                    }
                } else {
                    let x = if a - 1 < i { a - 1 } else { a };
                    let y = if b - 1 < i { b - 1 } else { b };
                    assert(rm[a - 1] == vs[x] && rm[b - 1] == vs[y]);
                }
            }
        },
        None => {
            let s = seq![VisitView { url, title, last: now, count: 1 }] + vs;
            assert forall|a: int, b: int| 0 <= a < b < s.len() implies (#[trigger] s[a]).url != (
            #[trigger] s[b]).url by {
                if a == 0 {
                    assert(!visit_to(url)(vs[b - 1]));
                } else {
                    assert(s[a] == vs[a - 1] && s[b] == vs[b - 1]);
                }
            }
        },
    }
}

/// How many times a folded file writes a visit's line: its count, at
/// most 50.
pub open spec fn kept_count(v: VisitView) -> nat {
    if v.count > 50 {
        50
    } else {
        v.count as nat
    }
}

/// A visit's line in a folded file: the time, the URL and the title.
pub open spec fn folded_line(v: VisitView) -> Seq<char> {
    decimal(v.last as nat) + seq!['\t'] + v.url + seq!['\t'] + v.title + seq!['\n']
}

/// `s` written `k` times.
pub open spec fn repeat(s: Seq<char>, k: nat) -> Seq<char>
    decreases k,
{
    if k == 0 {
        Seq::empty()
    } else {
        repeat(s, (k - 1) as nat) + s
    }
}

/// The folded file for the visits `vs`: the oldest first, each visit's
/// line as often as it was counted, up to 50 times.
pub open spec fn rewrite_spec(vs: Seq<VisitView>) -> Seq<char>
    decreases vs.len(),
{
    if vs.len() == 0 {
        Seq::empty()
    } else {
        repeat(folded_line(vs.last()), kept_count(vs.last())) + rewrite_spec(vs.drop_last())
    }
}

impl History {
    /// The text of the history file folded: written in place of a file
    /// that has grown long.
    pub fn rewrite_text(&self) -> (r: String)
        ensures
            r@ == rewrite_spec(self@),
    {
        let mut out: Vec<char> = Vec::new();
        let mut i: usize = self.visits.len();
        let ghost vs = self@;
        assert(vs.take(vs.len() as int) =~= vs);
        assert(out@ + rewrite_spec(vs.take(i as int)) =~= rewrite_spec(vs));
        while i > 0
            invariant
                i <= vs.len(),
                vs == self@,
                vs == visit_views(self.visits@),
                out@ + rewrite_spec(vs.take(i as int)) == rewrite_spec(vs),
            decreases i,
        {
            let v = &self.visits[i - 1];
            assert(vs[i - 1] == v@);
            let mut line: Vec<char> = Vec::new();
            push_decimal(&mut line, v.last);
            line.push('\t');
            line = concat_chars(&line, &chars_of(v.url.as_str()));
            line.push('\t');
            line = concat_chars(&line, &chars_of(v.title.as_str()));
            line.push('\n');
            assert(line@ =~= folded_line(v@));
            let k: u32 = if v.count > 50 {
                50
            } else {
                v.count
            };
            let ghost before = out@;
            let mut j: u32 = 0;
            while j < k
                invariant
                    j <= k,
                    out@ == before + repeat(line@, j as nat),
                decreases k - j,
            {
                out = concat_chars(&out, &line);
                assert(out@ =~= before + repeat(line@, (j + 1) as nat));
                j += 1;
            }
            let ghost t = vs.take(i as int);
            assert(t.drop_last() =~= vs.take(i - 1));
            assert(t.last() == v@);
            assert(out@ + rewrite_spec(vs.take(i - 1)) =~= before + rewrite_spec(t));
            i -= 1;
        }
        string_of(out.as_slice())
    }
}

/// A number written in decimal reads back as the number.
proof fn lemma_decimal_reads_back(n: nat)
    ensures
        decimal(n).len() > 0,
        crate::passwords::all_digits(decimal(n)),
        crate::passwords::digits_value(decimal(n)) == n,
    decreases n,
{
    let d = (n % 10) as nat;
    assert(crate::text::digit(d) as u32 == 48 + d);
    if n >= 10 {
        lemma_decimal_reads_back(n / 10);
        let p = decimal(n / 10);
        let q = decimal(n);
        assert(q.drop_last() =~= p);
        assert(q.last() == crate::text::digit(d));
        vstd::arithmetic::div_mod::lemma_fundamental_div_mod(n as int, 10);
        assert(crate::passwords::digits_value(q) == crate::passwords::digits_value(p) * 10 + d);
        assert forall|i: int| 0 <= i < q.len() implies crate::passwords::is_digit(#[trigger] q[i]) by {
            if i < p.len() {
                assert(q[i] == p[i]);
            }
        }
    } else {
        assert(d == n);
        let q = decimal(n);
        assert(q.drop_last() =~= Seq::<char>::empty());
        assert(crate::passwords::digits_value(Seq::<char>::empty()) == 0);
        assert(q.last() == crate::text::digit(d));
        assert(crate::passwords::digits_value(q) == d);
    }
}

/// The one-line title's characters: no line break or tab among them.
proof fn lemma_one_line(t: Seq<char>)
    ensures
        one_line(t).len() == t.len(),
        forall|i: int| 0 <= i < t.len() ==> #[trigger] one_line(t)[i] != '\n' && one_line(t)[i] != '\t',
        t.len() > 0 && t.last() != '\t' && t.last() != '\n' ==> one_line(t).last() == t.last(),
{
}

/// A visit's line without its newline.
pub open spec fn visit_text(now: u64, url: Seq<char>, ot: Seq<char>) -> Seq<char> {
    decimal(now as nat) + seq!['\t'] + url + seq!['\t'] + ot
}

/// A visit's line reads back as its time, URL and title.
proof fn lemma_visit_text_parses(now: u64, url: Seq<char>, ot: Seq<char>)
    requires
        forall|i: int| 0 <= i < url.len() ==> #[trigger] url[i] != '\t',
    ensures
        visit_line(visit_text(now, url, ot)) == Some((now, url, ot)),
{
    let d = decimal(now as nat);
    let l = visit_text(now, url, ot);
    lemma_decimal_reads_back(now as nat);
    let dl = d.len() as int;
    assert(l[dl] == '\t');
    lemma_first_index(l, is_char('\t'));
    match first_index(l, is_char('\t')) {
        Some(i) => {
            if i < dl {
                assert(crate::passwords::is_digit(d[i]));
                assert(l[i] == d[i]);
            }
            if i > dl {
                assert(!is_char('\t')(l[dl]));
            }
            assert(i == dl);
        },
        None => {
            assert(!is_char('\t')(l[dl]));
        },
    }
    assert(l.take(dl) =~= d);
    assert(crate::passwords::unsigned_digits(d) == d) by {
        assert(crate::passwords::is_digit(d[0]));
    }
    assert(crate::passwords::parse_u64_spec(d) == Some(now));
    let rest = l.skip(dl + 1);
    assert(rest =~= url + seq!['\t'] + ot);
    let ul = url.len() as int;
    assert(rest[ul] == '\t');
    lemma_first_index(rest, is_char('\t'));
    match first_index(rest, is_char('\t')) {
        Some(j) => {
            if j < ul {
                assert(rest[j] == url[j]);
            }
            if j > ul {
                assert(!is_char('\t')(rest[ul]));
            }
            assert(j == ul);
        },
        None => {
            assert(!is_char('\t')(rest[ul]));
        },
    }
    assert(rest.take(ul) =~= url);
    assert(rest.skip(ul + 1) =~= ot);
}

/// A visit's record is one line of the file.
proof fn lemma_visit_record_lines(now: u64, url: Seq<char>, title: Seq<char>)
    requires
        forall|i: int| 0 <= i < url.len() ==> #[trigger] url[i] != '\t' && url[i] != '\n',
        !(title.len() > 0 && title.last() == '\r'),
    ensures
        lines(visit_record(now, url, title)) == seq![visit_text(now, url, one_line(title))],
{
    let d = decimal(now as nat);
    let ot = one_line(title);
    let l = visit_text(now, url, ot);
    lemma_decimal_reads_back(now as nat);
    lemma_one_line(title);
    assert(visit_record(now, url, title) =~= l.push('\n'));
    assert forall|i: int| 0 <= i < l.len() implies #[trigger] l[i] != '\n' by {
        if i < d.len() {
            assert(crate::passwords::is_digit(d[i]));
        } else if d.len() < i < d.len() + 1 + url.len() {
            assert(l[i] == url[i - d.len() - 1]);
        } else if i > d.len() + url.len() + 1 {
            assert(l[i] == ot[i - d.len() - url.len() - 2]);
        }
    }
    crate::text::lemma_lines_one(Seq::empty(), l);
    assert(Seq::<char>::empty() + l =~= l);
    if ot.len() > 0 {
        assert(l.last() == ot.last());
        if title.last() == '\t' || title.last() == '\n' {
            assert(ot.last() == ' ');
        }
    }
    assert(crate::text::strip_cr(l) == l);
}

/// A history file of one visit's line reads back as that one visit: its
/// time, its URL and its title on one line, counted once; for a URL
/// without tabs or line breaks and a title that does not end in a
/// carriage return.
pub proof fn law_visit_line_reads_back(now: u64, url: Seq<char>, title: Seq<char>)
    requires
        forall|i: int| 0 <= i < url.len() ==> #[trigger] url[i] != '\t' && url[i] != '\n',
        !(title.len() > 0 && title.last() == '\r'),
    ensures
        history_of(visit_record(now, url, title)) == seq![
            VisitView { url, title: one_line(title), last: now, count: 1 },
        ],
{
    let ot = one_line(title);
    let l = visit_text(now, url, ot);
    lemma_visit_record_lines(now, url, title);
    lemma_visit_text_parses(now, url, ot);
    let ls = lines(visit_record(now, url, title));
    assert(ls.len() == 1 && ls.last() == l);
    assert(ls.drop_last() =~= Seq::<Seq<char>>::empty());
    let v = VisitView { url, title: ot, last: now, count: 1 };
    assert(fold_lines(ls.drop_last()) =~= Seq::<VisitView>::empty());
    assert(fold_visit(Seq::<VisitView>::empty(), now, url, ot) =~= seq![v]);
    assert(fold_lines(ls) =~= seq![v]);
    assert(seq![v].drop_last() =~= Seq::<VisitView>::empty());
    assert(sort_desc(Seq::<VisitView>::empty(), last_key()) =~= Seq::<VisitView>::empty());
    assert(insert_desc(Seq::<VisitView>::empty(), v, last_key()) =~= seq![v]);
    assert(sort_desc(seq![v], last_key()) =~= seq![v]);
}

} // verus!
