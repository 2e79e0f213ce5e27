//! Ad and tracker blocking through WebKit's content filter, built from a
//! hosts list: every domain on the list is blocked, in everything a page
//! pulls in. What is never blocked is the page you asked for: the rules
//! say which kinds of thing they cover, and a page is not one of them.

use vstd::prelude::*;
use vstd::hash_set::StringHashSet;
use crate::config::{has_char, is_ascii_alpha, replace_all, replace_chars};
use crate::passwords::before_first;
use crate::seqs::{first_index, lemma_first_index};
use crate::text::{
    char_lines, chars_of, concat_chars, find_char, is_char, is_ws, lines, lines_of, lower_ascii,
    lower_ascii_chars, same_chars, slice_chars, starts_with, starts_with_exec, string_of, trim,
    trim_chars, trim_end, trim_start, words, words_from, words_of,
};

verus! {

/// Steven Black's unified hosts list: ads and trackers, public domain.
pub const SOURCE: &'static str = "https://raw.githubusercontent.com/StevenBlack/hosts/master/hosts";

/// What the compiled filter is filed under. The name changes with the
/// shape of the rules, so a filter compiled by an older gaze is left
/// where it lies and a new one is built.
pub const FILTER: &'static str = "ads-page-safe";

/// Everything a page pulls in, which is everything but the page itself.
pub open spec fn kinds() -> Seq<char> {
    "[\"image\",\"style-sheet\",\"script\",\"font\",\"raw\",\"svg-document\",\"media\",\"popup\"]"@
}

/// `s` ends with `p`.
pub open spec fn ends_with(s: Seq<char>, p: Seq<char>) -> bool {
    p.len() <= s.len() && s.skip(s.len() - p.len()) == p
}

/// `s` without the dots at its end.
pub open spec fn trim_end_dots(s: Seq<char>) -> Seq<char>
    decreases s.len(),
{
    if s.len() > 0 && s.last() == '.' {
        trim_end_dots(s.drop_last())
    } else {
        s
    }
}

/// A character a blocked host may hold.
pub open spec fn host_char(c: char) -> bool {
    is_ascii_alpha(c) || ('0' as u32 <= c as u32 <= '9' as u32) || c == '.' || c == '-' || c == '_'
}

/// The host a line of a hosts file blocks: the name after `0.0.0.0` or
/// `127.0.0.1`, comments and a trailing dot aside, in lower case, when it
/// is a real domain: it has a dot, holds a letter and only letters,
/// digits, dots, dashes and underscores, and is none of the local names.
pub open spec fn line_host(line: Seq<char>) -> Option<Seq<char>> {
    let w = words(trim(before_first(line, is_char('#'))));
    if w.len() < 2 {
        None
    } else if w[0] != "0.0.0.0"@ && w[0] != "127.0.0.1"@ {
        None
    } else {
        let h = lower_ascii(trim_end_dots(w[1]));
        if !has_char(h, '.') || starts_with(h, "localhost"@) || ends_with(h, ".local"@) || ends_with(
            h,
            ".localdomain"@,
        ) || h == "broadcasthost"@ {
            None
        } else if !(exists|i: int| 0 <= i < h.len() && is_ascii_alpha(#[trigger] h[i])) {
            None
        } else if !(forall|i: int| 0 <= i < h.len() ==> host_char(#[trigger] h[i])) {
            None
        } else {
            Some(h)
        }
    }
}

/// The hosts the lines block, each once, in the order they first come.
pub open spec fn blocked_hosts(ls: Seq<Seq<char>>) -> Seq<Seq<char>>
    decreases ls.len(),
{
    if ls.len() == 0 {
        Seq::empty()
    } else {
        let prev = blocked_hosts(ls.drop_last());
        match line_host(ls.last()) {
            Some(h) => if prev.contains(h) {
                prev
            } else {
                prev.push(h)
            },
            None => prev,
        }
    }
}

/// A run of characters with no white space in it stays one word.
proof fn lemma_words_plain(cur: Seq<char>, w: Seq<char>, rest: Seq<char>)
    requires
        forall|i: int| 0 <= i < w.len() ==> !is_ws(#[trigger] w[i]),
    ensures
        words_from(cur, w + rest) == words_from(cur + w, rest),
    decreases w.len(),
{
    if w.len() == 0 {
        assert(w + rest =~= rest);
        assert(cur + w =~= cur);
    } else {
        let t = w.drop_first();
        assert((w + rest)[0] == w[0]);
        assert((w + rest).drop_first() =~= t + rest);
        assert forall|i: int| 0 <= i < t.len() implies !is_ws(#[trigger] t[i]) by {
            assert(t[i] == w[i + 1]);
        }
        lemma_words_plain(cur.push(w[0]), t, rest);
        assert(cur.push(w[0]) + t =~= cur + w);
    }
}

/// A lower-case domain name: letters, digits, dots, dashes and
/// underscores, with a dot and a letter in it, not ending in a dot.
pub open spec fn lower_domain(h: Seq<char>) -> bool {
    &&& forall|i: int|
        0 <= i < h.len() ==> {
            let c = #[trigger] h[i];
            ||| 'a' <= c <= 'z'
            ||| '0' <= c <= '9'
            ||| c == '.'
            ||| c == '-'
            ||| c == '_'
        }
    &&& exists|i: int| 0 <= i < h.len() && #[trigger] h[i] == '.'
    &&& exists|i: int| 0 <= i < h.len() && 'a' <= #[trigger] h[i] <= 'z'
    &&& h.last() != '.'
}

/// The line `0.0.0.0 h` or `127.0.0.1 h` of a hosts file blocks `h`, for
/// a lower-case domain `h` that is not one of the local names.
pub proof fn law_domain_line_blocks_it(ip: Seq<char>, h: Seq<char>)
    requires
        ip == "0.0.0.0"@ || ip == "127.0.0.1"@,
        lower_domain(h),
        !starts_with(h, "localhost"@),
        !ends_with(h, ".local"@),
        !ends_with(h, ".localdomain"@),
        h != "broadcasthost"@,
    ensures
        line_host(ip + " "@ + h) == Some(h),
{
    reveal_strlit("0.0.0.0");
    reveal_strlit("127.0.0.1");
    reveal_strlit(" ");
    let line = ip + " "@ + h;
    let k = choose|i: int| 0 <= i < h.len() && #[trigger] h[i] == '.';
    assert(h.len() > 0);
    assert forall|i: int| 0 <= i < ip.len() implies !is_ws(#[trigger] ip[i]) && ip[i] != '#' by {
        assert(ip[i] == '.' || ('0' <= ip[i] <= '9'));
    }
    assert forall|i: int| 0 <= i < h.len() implies !is_ws(#[trigger] h[i]) && h[i] != '#' && !(
    'A' as u32 <= h[i] as u32 <= 'Z' as u32) by {
        let c = h[i];
        assert('a' <= c <= 'z' || '0' <= c <= '9' || c == '.' || c == '-' || c == '_');
    }
    // No comment mark on the line.
    assert forall|i: int| 0 <= i < line.len() implies !is_char('#')(#[trigger] line[i]) by {
        if i < ip.len() {
            assert(line[i] == ip[i]);
        } else if i == ip.len() {
            assert(line[i] == ' ');
        } else {
            assert(line[i] == h[i - ip.len() - 1]);
        }
    }
    lemma_first_index(line, is_char('#'));
    assert(before_first(line, is_char('#')) == line);
    // Nothing to trim.
    assert(line[0] == ip[0]);
    assert(line.last() == h.last());
    assert(trim_start(line) == line);
    assert(trim_end(line) == line);
    // Two words.
    assert(line =~= ip + (" "@ + h));
    lemma_words_plain(Seq::empty(), ip, " "@ + h);
    assert(Seq::<char>::empty() + ip =~= ip);
    assert((" "@ + h)[0] == ' ');
    assert((" "@ + h).drop_first() =~= h);
    assert(ip.len() > 0);
    lemma_words_plain(Seq::empty(), h, Seq::empty());
    assert(h + Seq::<char>::empty() =~= h);
    assert(Seq::<char>::empty() + h =~= h);
    assert(words_from(h, Seq::empty()) == seq![h]);
    assert(words(line) == seq![ip] + seq![h]);
    let w = words(trim(before_first(line, is_char('#'))));
    assert(w =~= seq![ip, h]);
    // The host as it stands.
    assert(trim_end_dots(h) == h);
    assert(lower_ascii(h) =~= h);
    assert(has_char(h, '.')) by {
        lemma_first_index(h, is_char('.'));
        assert(is_char('.')(h[k]));
    }
    let j = choose|i: int| 0 <= i < h.len() && 'a' <= #[trigger] h[i] <= 'z';
    assert(is_ascii_alpha(h[j]));
    assert forall|i: int| 0 <= i < h.len() implies host_char(#[trigger] h[i]) by {
        let c = h[i];
        assert('a' <= c <= 'z' || '0' <= c <= '9' || c == '.' || c == '-' || c == '_');
    }
}

/// Every host some line of the list blocks is among the blocked hosts.
pub proof fn law_listed_host_is_blocked(ls: Seq<Seq<char>>, k: int, h: Seq<char>)
    requires
        0 <= k < ls.len(),
        line_host(ls[k]) == Some(h),
    ensures
        blocked_hosts(ls).contains(h),
    decreases ls.len(),
{
    let prev = blocked_hosts(ls.drop_last());
    if k == ls.len() - 1 {
        if !prev.contains(h) {
            assert(prev.push(h)[prev.len() as int] == h);
        }
    } else {
        assert(ls.drop_last()[k] == ls[k]);
        law_listed_host_is_blocked(ls.drop_last(), k, h);
        let i = choose|i: int| 0 <= i < prev.len() && prev[i] == h;
        match line_host(ls.last()) {
            Some(x) => if !prev.contains(x) {
                assert(prev.push(x)[i] == h);
            },
            None => {},
        }
    }
}

/// The content-filter rule that blocks `host` and its subdomains, for
/// everything but the page itself.
pub open spec fn rule(host: Seq<char>) -> Seq<char> {
    "{\"trigger\":{\"url-filter\":\"^[^:]+://+([^:/]+\\\\.)?"@ + replace_all(host, "."@, "\\\\."@)
        + "[:/]\",\"resource-type\":"@ + kinds() + "},\"action\":{\"type\":\"block\"}}"@
}

/// The rules for the hosts, each after a comma but the first.
pub open spec fn joined_rules(hosts: Seq<Seq<char>>) -> Seq<char>
    decreases hosts.len(),
{
    if hosts.len() == 0 {
        Seq::empty()
    } else if hosts.len() == 1 {
        rule(hosts[0])
    } else {
        joined_rules(hosts.drop_last()) + ","@ + rule(hosts.last())
    }
}


fn trim_end_dots_exec(v: &Vec<char>) -> (r: Vec<char>)
    ensures
        r@ == trim_end_dots(v@),
{
    let mut j: usize = v.len();
    assert(v@.take(v@.len() as int) =~= v@);
    while j > 0 && v[j - 1] == '.'
        invariant
            j <= v@.len(),
            trim_end_dots(v@) == trim_end_dots(v@.take(j as int)),
        decreases j,
    {
        assert(v@.take(j as int).drop_last() =~= v@.take(j - 1));
        j -= 1;
    }
    let r = slice_chars(v, 0, j);
    assert(r@ =~= v@.take(j as int));
    r
}

fn ends_with_exec(s: &Vec<char>, p: &str) -> (r: bool)
    ensures
        r == ends_with(s@, p@),
{
    let pv = chars_of(p);
    if pv.len() > s.len() {
        return false;
    }
    let r = crate::text::matches_at_exec(s, &pv, s.len() - pv.len());
    assert(s@.subrange(s@.len() - pv@.len(), s@.len() as int) =~= s@.skip(s@.len() - pv@.len()));
    r
}

fn is_str(v: &Vec<char>, p: &str) -> (r: bool)
    ensures
        r == (v@ == p@),
{
    let pv = chars_of(p);
    same_chars(v, &pv)
}

fn begins(v: &Vec<char>, p: &str) -> (r: bool)
    ensures
        r == starts_with(v@, p@),
{
    let pv = chars_of(p);
    starts_with_exec(v, &pv)
}

fn is_alpha_char(c: char) -> (r: bool)
    ensures
        r == is_ascii_alpha(c),
{
    let u = c as u32;
    (97 <= u && u <= 122) || (65 <= u && u <= 90)
}

fn has_alpha(h: &Vec<char>) -> (r: bool)
    ensures
        r == exists|i: int| 0 <= i < h@.len() && is_ascii_alpha(#[trigger] h@[i]),
{
    let mut i: usize = 0;
    while i < h.len()
        invariant
            i <= h@.len(),
            forall|k: int| 0 <= k < i ==> !is_ascii_alpha(#[trigger] h@[k]),
        decreases h@.len() - i,
    {
        if is_alpha_char(h[i]) {
            return true;
        }
        i += 1;
    }
    false
}

fn all_host_chars(h: &Vec<char>) -> (r: bool)
    ensures
        r == forall|i: int| 0 <= i < h@.len() ==> host_char(#[trigger] h@[i]),
{
    let mut i: usize = 0;
    while i < h.len()
        invariant
            i <= h@.len(),
            forall|k: int| 0 <= k < i ==> host_char(#[trigger] h@[k]),
        decreases h@.len() - i,
    {
        let c = h[i];
        let u = c as u32;
        if !(is_alpha_char(c) || (48 <= u && u <= 57) || c == '.' || c == '-' || c == '_') {
            assert(!host_char(h@[i as int]));
            return false;
        }
        i += 1;
    }
    true
}

/// The host a line of a hosts file blocks, if any.
fn line_host_exec(line: &Vec<char>) -> (r: Option<Vec<char>>)
    ensures
        match r {
            Some(h) => line_host(line@) == Some(h@),
            None => line_host(line@) is None,
        },
{
    let cut = match find_char(line, '#') {
        Some(i) => slice_chars(line, 0, i),
        None => slice_chars(line, 0, line.len()),
    };
    proof {
        assert(line@.subrange(0, line@.len() as int) =~= line@);
        if let Some(i) = first_index(line@, is_char('#')) {
            assert(line@.subrange(0, i) =~= line@.take(i));
        }
    }
    let t = trim_chars(&cut);
    let w = words_of(&t);
    if w.len() < 2 {
        return None;
    }
    assert(char_lines(w@)[0] == w@[0]@);
    assert(char_lines(w@)[1] == w@[1]@);
    if !is_str(&w[0], "0.0.0.0") && !is_str(&w[0], "127.0.0.1") {
        return None;
    }
    let h = lower_ascii_chars(&trim_end_dots_exec(&w[1]));
    if !crate::config::holds_char(&h, '.') || begins(&h, "localhost") || ends_with_exec(&h, ".local")
        || ends_with_exec(&h, ".localdomain") || is_str(&h, "broadcasthost") {
        return None;
    }
    if !has_alpha(&h) {
        return None;
    }
    if !all_host_chars(&h) {
        return None;
    }
    Some(h)
}

/// The rule that blocks `host`, as characters.
fn rule_chars(host: &Vec<char>) -> (r: Vec<char>)
    ensures
        r@ == rule(host@),
{
    let pre = chars_of("{\"trigger\":{\"url-filter\":\"^[^:]+://+([^:/]+\\\\.)?");
    let dot = chars_of(".");
    let esc = chars_of("\\\\.");
    proof {
        reveal_strlit(".");
    }
    let escaped = replace_chars(host, &dot, &esc);
    let mid = chars_of("[:/]\",\"resource-type\":");
    let k = chars_of("[\"image\",\"style-sheet\",\"script\",\"font\",\"raw\",\"svg-document\",\"media\",\"popup\"]");
    let post = chars_of("},\"action\":{\"type\":\"block\"}}");
    let a = concat_chars(&pre, &escaped);
    let b = concat_chars(&a, &mid);
    let c = concat_chars(&b, &k);
    concat_chars(&c, &post)
}

/// WebKit content-filter rules (Safari's JSON shape) that block each
/// domain of a hosts file and its subdomains. Returns the JSON and how
/// many domains it covers.
pub fn rules_from_hosts(text: &str) -> (r: (String, usize))
    ensures
        r.0@ == "["@ + joined_rules(blocked_hosts(lines(text@))) + "]"@,
        r.1 == blocked_hosts(lines(text@)).len(),
{
    let v = chars_of(text);
    let ls = lines_of(&v);
    let ghost lv = char_lines(ls@);
    let mut seen = StringHashSet::new();
    let mut out: Vec<char> = Vec::new();
    let mut n: usize = 0;
    let mut i: usize = 0;
    let ghost mut hosts: Seq<Seq<char>> = Seq::empty();
    assert(lv.take(0) =~= Seq::<Seq<char>>::empty());
    while i < ls.len()
        invariant
            i <= ls@.len(),
            lv == char_lines(ls@),
            lv == lines(text@),
            hosts == blocked_hosts(lv.take(i as int)),
            forall|x: Seq<char>| seen@.contains(x) <==> hosts.contains(x),
            n == hosts.len(),
            n <= i,
            out@ == joined_rules(hosts),
        decreases ls@.len() - i,
    {
        assert(lv.take(i + 1).drop_last() =~= lv.take(i as int));
        assert(lv.take(i + 1).last() == ls@[i as int]@);
        match line_host_exec(&ls[i]) {
            Some(h) => {
                let hs = string_of(h.as_slice());
                if seen.insert(hs) {
                    let rc = rule_chars(&h);
                    if n > 0 {
                        out.push(',');
                    }
                    let ghost before = out@;
                    out = concat_chars(&out, &rc);
                    proof {
                        let nh = hosts.push(h@);
                        assert(nh.drop_last() =~= hosts);
                        if n > 0 {
                            assert(joined_rules(nh) == joined_rules(hosts) + ","@ + rule(h@));
                            assert(","@ =~= seq![',']) by {
                                reveal_strlit(",");
                            }
                            assert(out@ =~= joined_rules(hosts) + ","@ + rule(h@));
                        } else {
                            assert(hosts.len() == 0);
                            assert(out@ =~= rule(h@));
                        }
                        assert forall|x: Seq<char>| seen@.contains(x) <==> nh.contains(x) by {
                            if nh.contains(x) && x != h@ {
                                let k = choose|k: int| 0 <= k < nh.len() && nh[k] == x;
                                assert(hosts[k] == x);
                            }
                            if hosts.contains(x) {
                                let k = choose|k: int| 0 <= k < hosts.len() && hosts[k] == x;
                                assert(nh[k] == x);
                            }
                            assert(nh[hosts.len() as int] == h@);
                        }
                        hosts = nh;
                    }
                    n += 1;
                }
            },
            None => {},
        }
        i += 1;
    }
    assert(lv.take(ls@.len() as int) =~= lv);
    let mut res: Vec<char> = Vec::new();
    res.push('[');
    let mut res = concat_chars(&res, &out);
    res.push(']');
    proof {
        reveal_strlit("[");
        reveal_strlit("]");
        assert(res@ =~= "["@ + out@ + "]"@);
    }
    (string_of(res.as_slice()), n)
}

} // verus!
