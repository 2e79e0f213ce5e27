//! Characters and strings: the small vocabulary the other modules share.

use vstd::prelude::*;
use crate::seqs::{first_index, found_at, last_index, lemma_first_index, lemma_last_index, positions};

verus! {

/// Appends one character to a string.
#[verifier::external_body]
pub(crate) fn push_char(s: &mut String, c: char)
    ensures
        final(s)@ == old(s)@.push(c),
{
    s.push(c);
}

/// The characters of `s`, in order.
pub fn chars_of(s: &str) -> (v: Vec<char>)
    ensures
        v@ == s@,
{
    let mut v: Vec<char> = Vec::new();
    for c in it: s.chars()
        invariant
            v@ == it.seq().take(it.index() as int),
    {
        v.push(c);
    }
    v
}

/// A string holding the characters of `v`.
pub fn string_of(v: &[char]) -> (s: String)
    ensures
        s@ == v@,
{
    let mut s = String::new();
    let mut i: usize = 0;
    while i < v.len()
        invariant
            i <= v@.len(),
            s@ == v@.take(i as int),
        decreases v@.len() - i,
    {
        push_char(&mut s, v[i]);
        assert(v@.take(i + 1) == v@.take(i as int).push(v@[i as int]));
        i += 1;
    }
    assert(v@.take(v@.len() as int) == v@);
    s
}


/// The characters Rust's `char::is_whitespace` accepts: Unicode White_Space.
pub open spec fn is_ws(c: char) -> bool {
    let u = c as u32;
    ||| 0x9 <= u <= 0xd
    ||| u == 0x20
    ||| u == 0x85
    ||| u == 0xa0
    ||| u == 0x1680
    ||| 0x2000 <= u <= 0x200a
    ||| u == 0x2028
    ||| u == 0x2029
    ||| u == 0x202f
    ||| u == 0x205f
    ||| u == 0x3000
}

pub fn is_ws_char(c: char) -> (r: bool)
    ensures
        r == is_ws(c),
{
    let u = c as u32;
    (0x9 <= u && u <= 0xd) || u == 0x20 || u == 0x85 || u == 0xa0 || u == 0x1680 || (0x2000 <= u
        && u <= 0x200a) || u == 0x2028 || u == 0x2029 || u == 0x202f || u == 0x205f || u == 0x3000
}

/// `s` without its leading white space.
pub open spec fn trim_start(s: Seq<char>) -> Seq<char>
    decreases s.len(),
{
    if s.len() > 0 && is_ws(s[0]) {
        trim_start(s.drop_first())
    } else {
        s
    }
}

/// `s` without its trailing white space.
pub open spec fn trim_end(s: Seq<char>) -> Seq<char>
    decreases s.len(),
{
    if s.len() > 0 && is_ws(s.last()) {
        trim_end(s.drop_last())
    } else {
        s
    }
}

/// `s` without white space at either end, as `str::trim` gives it.
pub open spec fn trim(s: Seq<char>) -> Seq<char> {
    trim_end(trim_start(s))
}

/// Where the characters left after `trim_start` begin.
pub fn trim_start_at(v: &Vec<char>) -> (i: usize)
    ensures
        i <= v@.len(),
        trim_start(v@) == v@.skip(i as int),
{
    let mut i: usize = 0;
    assert(v@.skip(0) =~= v@);
    while i < v.len() && is_ws_char(v[i])
        invariant
            i <= v@.len(),
            trim_start(v@) == trim_start(v@.skip(i as int)),
        decreases v@.len() - i,
    {
        assert(v@.skip(i as int).drop_first() =~= v@.skip(i + 1));
        i += 1;
    }
    i
}

/// Where the characters kept by `trim_end` stop.
pub fn trim_end_at(v: &Vec<char>, from: usize) -> (j: usize)
    requires
        from <= v@.len(),
    ensures
        from <= j <= v@.len(),
        trim_end(v@.subrange(from as int, v@.len() as int)) == v@.subrange(from as int, j as int),
{
    let mut j: usize = v.len();
    while j > from && is_ws_char(v[j - 1])
        invariant
            from <= j <= v@.len(),
            trim_end(v@.subrange(from as int, v@.len() as int)) == trim_end(
                v@.subrange(from as int, j as int),
            ),
        decreases j,
    {
        assert(v@.subrange(from as int, j as int).drop_last() =~= v@.subrange(
            from as int,
            j - 1,
        ));
        j -= 1;
    }
    j
}

/// The characters of `v` between `from` and `to`.
pub fn slice_chars(v: &Vec<char>, from: usize, to: usize) -> (r: Vec<char>)
    requires
        from <= to <= v@.len(),
    ensures
        r@ == v@.subrange(from as int, to as int),
{
    let mut r: Vec<char> = Vec::new();
    let mut i: usize = from;
    while i < to
        invariant
            from <= i <= to <= v@.len(),
            r@ == v@.subrange(from as int, i as int),
        decreases to - i,
    {
        r.push(v[i]);
        assert(v@.subrange(from as int, i + 1) == v@.subrange(from as int, i as int).push(
            v@[i as int],
        ));
        i += 1;
    }
    r
}

/// `v` trimmed at both ends.
pub fn trim_chars(v: &Vec<char>) -> (r: Vec<char>)
    ensures
        r@ == trim(v@),
{
    let i = trim_start_at(v);
    assert(v@.skip(i as int) =~= v@.subrange(i as int, v@.len() as int));
    let j = trim_end_at(v, i);
    slice_chars(v, i, j)
}

/// The characters of `s`, trimmed at both ends.
pub fn trim_str(s: &str) -> (r: Vec<char>)
    ensures
        r@ == trim(s@),
{
    let v = chars_of(s);
    trim_chars(&v)
}

/// Two character sequences are the same.
pub fn same_chars(a: &Vec<char>, b: &Vec<char>) -> (r: bool)
    ensures
        r == (a@ == b@),
{
    if a.len() != b.len() {
        return false;
    }
    let mut i: usize = 0;
    while i < a.len()
        invariant
            i <= a@.len() == b@.len(),
            forall|k: int| 0 <= k < i ==> a@[k] == b@[k],
        decreases a@.len() - i,
    {
        if a[i] != b[i] {
            return false;
        }
        i += 1;
    }
    assert(a@ =~= b@);
    true
}

/// `s` holds the same characters as `v`.
pub fn str_is(s: &str, v: &Vec<char>) -> (r: bool)
    ensures
        r == (s@ == v@),
{
    let w = chars_of(s);
    same_chars(&w, v)
}

/// Two strings hold the same characters.
pub fn str_eq(a: &str, b: &str) -> (r: bool)
    ensures
        r == (a@ == b@),
{
    let v = chars_of(b);
    str_is(a, &v)
}

/// A character in lower case, for the ASCII letters only.
pub open spec fn lower_ascii_char(c: char) -> char {
    if 'A' as u32 <= c as u32 <= 'Z' as u32 {
        ((c as u32) + 32) as char
    } else {
        c
    }
}

/// `s` with its ASCII letters in lower case, as `to_ascii_lowercase` gives it.
pub open spec fn lower_ascii(s: Seq<char>) -> Seq<char> {
    s.map_values(|c: char| lower_ascii_char(c))
}

pub fn lower_ascii_of(c: char) -> (r: char)
    ensures
        r == lower_ascii_char(c),
{
    if 'A' <= c && c <= 'Z' {
        let b = c as u8;
        (b + 32) as char
    } else {
        c
    }
}

/// `v` with its ASCII letters in lower case.
pub fn lower_ascii_chars(v: &Vec<char>) -> (r: Vec<char>)
    ensures
        r@ == lower_ascii(v@),
{
    let mut r: Vec<char> = Vec::new();
    let mut i: usize = 0;
    while i < v.len()
        invariant
            i <= v@.len(),
            r@ == lower_ascii(v@.take(i as int)),
        decreases v@.len() - i,
    {
        r.push(lower_ascii_of(v[i]));
        assert(lower_ascii(v@.take(i + 1)) =~= lower_ascii(v@.take(i as int)).push(
            lower_ascii_char(v@[i as int]),
        ));
        i += 1;
    }
    assert(v@.take(v@.len() as int) =~= v@);
    r
}

/// Two sequences are equal but for the case of ASCII letters, as
/// `eq_ignore_ascii_case` compares them.
pub open spec fn eq_ascii_nocase(a: Seq<char>, b: Seq<char>) -> bool {
    lower_ascii(a) == lower_ascii(b)
}

pub fn eq_ascii_nocase_chars(a: &Vec<char>, b: &Vec<char>) -> (r: bool)
    ensures
        r == eq_ascii_nocase(a@, b@),
{
    let la = lower_ascii_chars(a);
    let lb = lower_ascii_chars(b);
    same_chars(&la, &lb)
}

/// The decimal digit for `d`.
pub open spec fn digit(d: nat) -> char {
    ((48 + d) as u32) as char
}

/// `n` written in decimal, as `Display` writes an unsigned integer.
pub open spec fn decimal(n: nat) -> Seq<char>
    decreases n,
{
    if n < 10 {
        seq![digit(n)]
    } else {
        decimal(n / 10).push(digit(n % 10))
    }
}

/// Appends `n` in decimal.
pub fn push_decimal(out: &mut Vec<char>, n: u64)
    ensures
        final(out)@ == old(out)@ + decimal(n as nat),
    decreases n,
{
    if n >= 10 {
        push_decimal(out, n / 10);
    }
    let d = (n % 10) as u8;
    out.push((48u8 + d) as char);
    assert(((48u8 + d) as char) == digit((n % 10) as nat));
}


/// Holds of the character `c` itself.
pub open spec fn is_char(c: char) -> spec_fn(char) -> bool {
    |x: char| x == c
}

/// Where `c` first occurs in `v`.
pub fn find_char(v: &Vec<char>, c: char) -> (r: Option<usize>)
    ensures
        found_at(r, first_index(v@, is_char(c))),
        r matches Some(i) ==> i < v@.len(),
{
    let mut i: usize = 0;
    while i < v.len()
        invariant
            i <= v@.len(),
            forall|k: int| 0 <= k < i ==> #[trigger] v@[k] != c,
        decreases v@.len() - i,
    {
        if v[i] == c {
            proof {
                lemma_first_index(v@, is_char(c));
            }
            return Some(i);
        }
        i += 1;
    }
    proof {
        lemma_first_index(v@, is_char(c));
    }
    None
}

/// Where `c` last occurs in `v`.
pub fn rfind_char(v: &Vec<char>, c: char) -> (r: Option<usize>)
    ensures
        found_at(r, last_index(v@, is_char(c))),
        r matches Some(i) ==> i < v@.len(),
{
    let mut i: usize = v.len();
    while i > 0
        invariant
            i <= v@.len(),
            forall|k: int| i <= k < v@.len() ==> #[trigger] v@[k] != c,
        decreases i,
    {
        if v[i - 1] == c {
            proof {
                lemma_last_index(v@, is_char(c));
            }
            return Some(i - 1);
        }
        i -= 1;
    }
    proof {
        lemma_last_index(v@, is_char(c));
    }
    None
}

/// `s` holds `p` at `i`.
pub open spec fn matches_at(s: Seq<char>, p: Seq<char>, i: int) -> bool {
    0 <= i && i + p.len() <= s.len() && s.subrange(i, i + p.len()) == p
}

/// Holds of the places where `s` holds `p`.
pub open spec fn sub_at(s: Seq<char>, p: Seq<char>) -> spec_fn(int) -> bool {
    |i: int| matches_at(s, p, i)
}

/// Where `p` first occurs in `s`, as `str::find` gives it (counted in
/// characters).
pub open spec fn find_sub(s: Seq<char>, p: Seq<char>) -> Option<int> {
    first_index(positions(s.len() + 1), sub_at(s, p))
}

/// What `find_sub` finds: a place where `p` occurs in `s`.
pub proof fn lemma_find_sub(s: Seq<char>, p: Seq<char>)
    ensures
        find_sub(s, p) matches Some(i) ==> 0 <= i && i + p.len() <= s.len() && s.subrange(i, i + p.len())
            == p,
{
    lemma_first_index(positions(s.len() + 1), sub_at(s, p));
}

/// `s` begins with `p`.
pub open spec fn starts_with(s: Seq<char>, p: Seq<char>) -> bool {
    p.len() <= s.len() && s.take(p.len() as int) == p
}

/// `v` holds `p` at `i`.
pub fn matches_at_exec(v: &Vec<char>, p: &Vec<char>, i: usize) -> (r: bool)
    ensures
        r == matches_at(v@, p@, i as int),
{
    if i > v.len() || p.len() > v.len() - i {
        return false;
    }
    let mut k: usize = 0;
    while k < p.len()
        invariant
            k <= p@.len(),
            i + p@.len() <= v@.len(),
            v@.len() <= usize::MAX,
            forall|j: int| 0 <= j < k ==> v@[i + j] == p@[j],
        decreases p@.len() - k,
    {
        assert(i + k < v@.len());
        assert(v@.len() == v.len());
        if v[i + k] != p[k] {
            assert(v@.subrange(i as int, i + p@.len())[k as int] != p@[k as int]);
            return false;
        }
        k += 1;
    }
    assert(v@.subrange(i as int, i + p@.len()) =~= p@);
    true
}

/// `v` begins with `p`.
pub fn starts_with_exec(v: &Vec<char>, p: &Vec<char>) -> (r: bool)
    ensures
        r == starts_with(v@, p@),
{
    let r = matches_at_exec(v, p, 0);
    assert(v@.subrange(0, p@.len() as int) =~= v@.take(p@.len() as int));
    r
}

/// Where `p` first occurs in `v`.
pub fn find_sub_exec(v: &Vec<char>, p: &Vec<char>) -> (r: Option<usize>)
    ensures
        found_at(r, find_sub(v@, p@)),
        r matches Some(i) ==> matches_at(v@, p@, i as int),
{
    let mut i: usize = 0;
    loop
        invariant
            i <= v@.len(),
            forall|k: int| 0 <= k < i ==> !matches_at(v@, p@, #[trigger] positions(v@.len() + 1)[k]),
        decreases v@.len() - i,
    {
        if matches_at_exec(v, p, i) {
            proof {
                assert(positions(v@.len() + 1)[i as int] == i);
                lemma_first_index(positions(v@.len() + 1), sub_at(v@, p@));
            }
            return Some(i);
        }
        assert(positions(v@.len() + 1)[i as int] == i);
        if i == v.len() {
            proof {
                lemma_first_index(positions(v@.len() + 1), sub_at(v@, p@));
            }
            return None;
        }
        i += 1;
    }
}

/// Where `p` first occurs in `v` between `from` and `to`, counted from `from`.
pub fn find_sub_in(v: &Vec<char>, p: &Vec<char>, from: usize, to: usize) -> (r: Option<usize>)
    requires
        from <= to <= v@.len(),
    ensures
        found_at(r, find_sub(v@.subrange(from as int, to as int), p@)),
        r matches Some(k) ==> from + k + p@.len() <= to,
{
    let ghost sub = v@.subrange(from as int, to as int);
    let mut k: usize = 0;
    loop
        invariant
            from <= to <= v@.len(),
            sub == v@.subrange(from as int, to as int),
            k <= to - from,
            forall|j: int| 0 <= j < k ==> !matches_at(sub, p@, #[trigger] positions(sub.len() + 1)[j]),
        decreases to - from - k,
    {
        let hit = p.len() <= to - from - k && matches_at_exec(v, p, from + k);
        assert(positions(sub.len() + 1)[k as int] == k);
        assert(hit == matches_at(sub, p@, k as int)) by {
            if k + p@.len() <= sub.len() {
                assert(sub.subrange(k as int, k + p@.len()) =~= v@.subrange(from + k, from + k + p@.len()));
            }
        }
        if hit {
            proof {
                lemma_first_index(positions(sub.len() + 1), sub_at(sub, p@));
            }
            return Some(k);
        }
        if k == to - from {
            proof {
                lemma_first_index(positions(sub.len() + 1), sub_at(sub, p@));
            }
            return None;
        }
        k += 1;
    }
}

/// Where `c` first occurs in `v` between `from` and `to`, counted from `from`.
pub fn find_char_in(v: &Vec<char>, c: char, from: usize, to: usize) -> (r: Option<usize>)
    requires
        from <= to <= v@.len(),
    ensures
        found_at(r, first_index(v@.subrange(from as int, to as int), is_char(c))),
        r matches Some(k) ==> from + k < to,
{
    let ghost sub = v@.subrange(from as int, to as int);
    let mut i: usize = from;
    while i < to
        invariant
            from <= i <= to <= v@.len(),
            sub == v@.subrange(from as int, to as int),
            forall|k: int| 0 <= k < i - from ==> #[trigger] sub[k] != c,
        decreases to - i,
    {
        assert(sub[i - from] == v@[i as int]);
        if v[i] == c {
            proof {
                lemma_first_index(sub, is_char(c));
            }
            return Some(i - from);
        }
        i += 1;
    }
    proof {
        lemma_first_index(sub, is_char(c));
    }
    None
}

/// `v` followed by `w`.
pub fn concat_chars(v: &Vec<char>, w: &Vec<char>) -> (r: Vec<char>)
    ensures
        r@ == v@ + w@,
{
    let mut r = slice_chars(v, 0, v.len());
    let mut i: usize = 0;
    assert(v@.subrange(0, v@.len() as int) =~= v@);
    while i < w.len()
        invariant
            i <= w@.len(),
            r@ == v@ + w@.take(i as int),
        decreases w@.len() - i,
    {
        r.push(w[i]);
        assert(w@.take(i + 1) =~= w@.take(i as int).push(w@[i as int]));
        assert(v@ + w@.take(i + 1) =~= (v@ + w@.take(i as int)).push(w@[i as int]));
        i += 1;
    }
    assert(w@.take(w@.len() as int) =~= w@);
    r
}


/// A line without the carriage return of a `\r\n` ending.
pub open spec fn strip_cr(l: Seq<char>) -> Seq<char> {
    if l.len() > 0 && l.last() == '\r' {
        l.drop_last()
    } else {
        l
    }
}

/// The lines of `s`, the current line having begun with `cur`, as
/// `str::lines` gives them: split at `\n`, a `\r` before it dropped, no
/// empty line after a final newline.
pub open spec fn lines_from(cur: Seq<char>, s: Seq<char>) -> Seq<Seq<char>>
    decreases s.len(),
{
    if s.len() == 0 {
        if cur.len() > 0 {
            seq![cur]
        } else {
            Seq::empty()
        }
    } else if s[0] == '\n' {
        seq![strip_cr(cur)] + lines_from(Seq::empty(), s.drop_first())
    } else {
        lines_from(cur.push(s[0]), s.drop_first())
    }
}

/// The lines of `s`, as `str::lines` gives them.
pub open spec fn lines(s: Seq<char>) -> Seq<Seq<char>> {
    lines_from(Seq::empty(), s)
}

/// The characters of each line.
pub open spec fn char_lines(v: Seq<Vec<char>>) -> Seq<Seq<char>> {
    v.map_values(|l: Vec<char>| l@)
}

/// The lines of `v`.
pub fn lines_of(v: &Vec<char>) -> (r: Vec<Vec<char>>)
    ensures
        char_lines(r@) == lines(v@),
{
    let mut out: Vec<Vec<char>> = Vec::new();
    let mut cur: Vec<char> = Vec::new();
    let mut i: usize = 0;
    assert(v@.skip(0) =~= v@);
    assert(char_lines(out@) =~= Seq::<Seq<char>>::empty());
    assert(cur@ =~= Seq::<char>::empty());
    while i < v.len()
        invariant
            i <= v@.len(),
            lines(v@) == char_lines(out@) + lines_from(cur@, v@.skip(i as int)),
        decreases v@.len() - i,
    {
        let ghost rest = v@.skip(i as int);
        assert(rest[0] == v@[i as int]);
        assert(rest.drop_first() =~= v@.skip(i + 1));
        if v[i] == '\n' {
            let l = cur;
            cur = Vec::new();
            let line = if l.len() > 0 && l[l.len() - 1] == '\r' {
                slice_chars(&l, 0, l.len() - 1)
            } else {
                l
            };
            proof {
                if l@.len() > 0 && l@.last() == '\r' {
                    assert(l@.subrange(0, l@.len() - 1) =~= l@.drop_last());
                }
            }
            let ghost before = char_lines(out@);
            out.push(line);
            assert(char_lines(out@) =~= before.push(line@));
            assert(cur@ =~= Seq::<char>::empty());
            assert(before + (seq![line@] + lines_from(Seq::empty(), rest.drop_first())) =~= before.push(
                line@,
            ) + lines_from(Seq::empty(), rest.drop_first()));
        } else {
            cur.push(v[i]);
        }
        i += 1;
    }
    if cur.len() > 0 {
        let ghost before = char_lines(out@);
        out.push(cur);
        assert(char_lines(out@) =~= before.push(out@.last()@));
        assert(before + seq![out@.last()@] =~= before.push(out@.last()@));
    } else {
        assert(char_lines(out@) + Seq::<Seq<char>>::empty() =~= char_lines(out@));
    }
    out
}

/// Trimming never lengthens, and `trim_end` drops a white space at the end.
pub proof fn lemma_trim_len(s: Seq<char>)
    ensures
        trim_start(s).len() <= s.len(),
        trim_start(s).len() == s.len() ==> trim_start(s) == s,
        trim_end(s).len() <= s.len(),
        s.len() > 0 && is_ws(s.last()) ==> trim_end(s).len() < s.len(),
    decreases s.len(),
{
    if s.len() > 0 {
        lemma_trim_len(s.drop_first());
        lemma_trim_len(s.drop_last());
    }
}

/// A trimmed, non-empty text ends in no white space.
pub proof fn lemma_trimmed_end(s: Seq<char>)
    requires
        trim(s) == s,
        s.len() > 0,
    ensures
        !is_ws(s.last()),
{
    lemma_trim_len(s);
    lemma_trim_len(trim_start(s));
}

/// Lines split where a newline ends a first part.
pub proof fn lemma_lines_split(cur: Seq<char>, a: Seq<char>, b: Seq<char>)
    requires
        a.len() > 0,
        a.last() == '\n',
    ensures
        lines_from(cur, a + b) == lines_from(cur, a) + lines_from(Seq::empty(), b),
    decreases a.len(),
{
    assert((a + b).drop_first() =~= a.drop_first() + b);
    assert((a + b)[0] == a[0]);
    if a[0] == '\n' {
        if a.len() == 1 {
            assert(a.drop_first() + b =~= b);
            assert(lines_from(Seq::<char>::empty(), a.drop_first()) =~= Seq::<Seq<char>>::empty());
            assert(seq![strip_cr(cur)] + lines_from(Seq::empty(), b) =~= seq![strip_cr(cur)]
                + Seq::<Seq<char>>::empty() + lines_from(Seq::empty(), b));
        } else {
            lemma_lines_split(Seq::empty(), a.drop_first(), b);
            assert(seq![strip_cr(cur)] + (lines_from(Seq::empty(), a.drop_first()) + lines_from(
                Seq::empty(),
                b,
            )) =~= seq![strip_cr(cur)] + lines_from(Seq::empty(), a.drop_first()) + lines_from(
                Seq::empty(),
                b,
            ));
        }
    } else {
        lemma_lines_split(cur.push(a[0]), a.drop_first(), b);
    }
}

/// A text without a newline, then one, is one line.
pub proof fn lemma_lines_one(cur: Seq<char>, l: Seq<char>)
    requires
        forall|i: int| 0 <= i < l.len() ==> l[i] != '\n',
    ensures
        lines_from(cur, l.push('\n')) == seq![strip_cr(cur + l)],
    decreases l.len(),
{
    if l.len() == 0 {
        assert(l.push('\n').drop_first() =~= Seq::<char>::empty());
        assert(cur + l =~= cur);
        assert(lines_from(Seq::<char>::empty(), Seq::<char>::empty()) =~= Seq::<Seq<char>>::empty());
        assert(seq![strip_cr(cur)] + Seq::<Seq<char>>::empty() =~= seq![strip_cr(cur)]);
    } else {
        assert(l.push('\n').drop_first() =~= l.drop_first().push('\n'));
        assert(l.push('\n')[0] == l[0]);
        lemma_lines_one(cur.push(l[0]), l.drop_first());
        assert(cur.push(l[0]) + l.drop_first() =~= cur + l);
    }
}

/// The words of `s`, the current word having begun with `cur`, as
/// `split_whitespace` gives them.
pub open spec fn words_from(cur: Seq<char>, s: Seq<char>) -> Seq<Seq<char>>
    decreases s.len(),
{
    if s.len() == 0 {
        if cur.len() > 0 {
            seq![cur]
        } else {
            Seq::empty()
        }
    } else if is_ws(s[0]) {
        if cur.len() > 0 {
            seq![cur] + words_from(Seq::empty(), s.drop_first())
        } else {
            words_from(Seq::empty(), s.drop_first())
        }
    } else {
        words_from(cur.push(s[0]), s.drop_first())
    }
}

/// The words of `s`: the runs between white space.
pub open spec fn words(s: Seq<char>) -> Seq<Seq<char>> {
    words_from(Seq::empty(), s)
}

/// The words of `v`.
pub fn words_of(v: &Vec<char>) -> (r: Vec<Vec<char>>)
    ensures
        char_lines(r@) == words(v@),
{
    let mut out: Vec<Vec<char>> = Vec::new();
    let mut cur: Vec<char> = Vec::new();
    let mut i: usize = 0;
    assert(v@.skip(0) =~= v@);
    assert(char_lines(out@) =~= Seq::<Seq<char>>::empty());
    assert(cur@ =~= Seq::<char>::empty());
    while i < v.len()
        invariant
            i <= v@.len(),
            words(v@) == char_lines(out@) + words_from(cur@, v@.skip(i as int)),
        decreases v@.len() - i,
    {
        let ghost rest = v@.skip(i as int);
        assert(rest[0] == v@[i as int]);
        assert(rest.drop_first() =~= v@.skip(i + 1));
        if is_ws_char(v[i]) {
            if cur.len() > 0 {
                let w = cur;
                cur = Vec::new();
                let ghost before = char_lines(out@);
                out.push(w);
                assert(char_lines(out@) =~= before.push(w@));
                assert(cur@ =~= Seq::<char>::empty());
                assert(before + (seq![w@] + words_from(Seq::empty(), rest.drop_first())) =~= before.push(
                    w@,
                ) + words_from(Seq::empty(), rest.drop_first()));
            } else {
                assert(cur@ =~= Seq::<char>::empty());
            }
        } else {
            cur.push(v[i]);
        }
        i += 1;
    }
    if cur.len() > 0 {
        let ghost before = char_lines(out@);
        out.push(cur);
        assert(char_lines(out@) =~= before.push(out@.last()@));
        assert(before + seq![out@.last()@] =~= before.push(out@.last()@));
    } else {
        assert(char_lines(out@) + Seq::<Seq<char>>::empty() =~= char_lines(out@));
    }
    out
}

} // verus!
