//! Saved logins, kept in one sealed file.
//!
//! The file is the JSON list of logins, sealed with ChaCha20-Poly1305
//! under a key that Argon2id derives from the master password. The key
//! lives in memory only while the store is unlocked.

use vstd::prelude::*;
use chacha20poly1305::aead::rand_core::RngCore;
use chacha20poly1305::aead::{Aead, KeyInit};
use std::path::PathBuf;
use vstd::string::StringSliceAdditionalSpecFns;
use crate::seqs::{first_index, found_at, keep_where, last_index, lemma_first_index};
use crate::text::{chars_of, eq_ascii_nocase, find_char, find_sub, find_sub_exec, is_char, lower_ascii, lower_ascii_chars, rfind_char, same_chars, slice_chars, starts_with, starts_with_exec, str_eq, string_of, trim, trim_str};

verus! {

/// Holds of the characters that end a host in a URI.
pub open spec fn host_end() -> spec_fn(char) -> bool {
    |c: char| c == '/' || c == '?' || c == '#'
}

/// `s` up to where `p` first holds.
pub open spec fn before_first(s: Seq<char>, p: spec_fn(char) -> bool) -> Seq<char> {
    match first_index(s, p) {
        Some(i) => s.take(i),
        None => s,
    }
}

/// `s` after the last `c`.
pub open spec fn after_last(s: Seq<char>, c: char) -> Seq<char> {
    match last_index(s, is_char(c)) {
        Some(i) => s.skip(i + 1),
        None => s,
    }
}

/// `s` without `p` in front, when it starts with it.
pub open spec fn strip_prefix(s: Seq<char>, p: Seq<char>) -> Seq<char> {
    if starts_with(s, p) {
        s.skip(p.len() as int)
    } else {
        s
    }
}

/// The scheme of a URI and what follows `://`, or `https` and the whole
/// text when it has no `://`.
pub open spec fn split_scheme(t: Seq<char>) -> (Seq<char>, Seq<char>) {
    match find_sub(t, "://"@) {
        Some(i) => (t.take(i), t.skip(i + "://"@.len())),
        None => ("https"@, t),
    }
}

/// The host of what follows the scheme: up to the path, query or
/// fragment, after any user name, before any port.
pub open spec fn bare_host(rest: Seq<char>) -> Seq<char> {
    before_first(after_last(before_first(rest, host_end()), '@'), is_char(':'))
}

/// `scheme://host` of a URI, lower case, without a leading `www.` (in any
/// case).
pub open spec fn site_key_spec(uri: Seq<char>) -> Seq<char> {
    let (scheme, rest) = split_scheme(trim(uri));
    lower_ascii(scheme) + "://"@ + strip_prefix(lower_ascii(bare_host(rest)), "www."@)
}

/// Where any of `/`, `?` or `#` first occurs in `v`.
pub fn find_host_end_of(v: &Vec<char>) -> (r: Option<usize>)
    ensures
        found_at(r, first_index(v@, host_end())),
        r matches Some(i) ==> i < v@.len(),
{
    find_host_end(v)
}

fn find_host_end(v: &Vec<char>) -> (r: Option<usize>)
    ensures
        found_at(r, first_index(v@, host_end())),
        r matches Some(i) ==> i < v@.len(),
{
    let mut i: usize = 0;
    while i < v.len()
        invariant
            i <= v@.len(),
            forall|k: int| 0 <= k < i ==> !host_end()(#[trigger] v@[k]),
        decreases v@.len() - i,
    {
        if v[i] == '/' || v[i] == '?' || v[i] == '#' {
            proof {
                lemma_first_index(v@, host_end());
            }
            return Some(i);
        }
        i += 1;
    }
    proof {
        lemma_first_index(v@, host_end());
    }
    None
}

/// The host of `rest`, what follows a URI's scheme, in lower case and
/// without a leading `www.`.
pub fn site_host(rest: &Vec<char>) -> (r: Vec<char>)
    ensures
        r@ == strip_prefix(lower_ascii(bare_host(rest@)), "www."@),
{
    let h1 = match find_host_end(rest) {
        Some(i) => slice_chars(rest, 0, i),
        None => slice_chars(rest, 0, rest.len()),
    };
    let h2 = match rfind_char(&h1, '@') {
        Some(i) => slice_chars(&h1, i + 1, h1.len()),
        None => h1,
    };
    let h3 = match find_char(&h2, ':') {
        Some(i) => slice_chars(&h2, 0, i),
        None => h2,
    };
    proof {
        assert(h3@ == bare_host(rest@)) by {
            let a = before_first(rest@, host_end());
            assert(a.subrange(0, a.len() as int) =~= a);
            assert(rest@.subrange(0, rest@.len() as int) =~= rest@);
            if let Some(i) = first_index(rest@, host_end()) {
                assert(rest@.subrange(0, i) =~= rest@.take(i));
            }
            if let Some(i) = last_index(h1@, is_char('@')) {
                assert(h1@.subrange(i + 1, h1@.len() as int) =~= h1@.skip(i + 1));
            }
            if let Some(i) = first_index(h2@, is_char(':')) {
                assert(h2@.subrange(0, i) =~= h2@.take(i));
            }
        }
    }
    let lh = lower_ascii_chars(&h3);
    let www = chars_of("www.");
    let host = if starts_with_exec(&lh, &www) {
        slice_chars(&lh, www.len(), lh.len())
    } else {
        lh
    };
    proof {
        assert(lh@.subrange(www@.len() as int, lh@.len() as int) =~= lh@.skip(www@.len() as int));
    }
    host
}

/// A URI's scheme and what follows its `://`, as `split_scheme` says.
pub fn split_scheme_of(t: &Vec<char>) -> (r: (Vec<char>, Vec<char>))
    ensures
        (r.0@, r.1@) == split_scheme(t@),
{
    let sep = chars_of("://");
    proof {
        reveal_strlit("://");
    }
    let (scheme, rest) = match find_sub_exec(t, &sep) {
        Some(i) => {
            assert(sep@.len() == 3);
            assert(i + sep@.len() <= t@.len());
            assert(t@.len() == t.len());
            (slice_chars(t, 0, i), slice_chars(t, i + 3, t.len()))
        },
        None => (chars_of("https"), slice_chars(t, 0, t.len())),
    };
    proof {
        assert(t@.subrange(0, t@.len() as int) =~= t@);
        if let Some(i) = find_sub(t@, "://"@) {
            assert(t@.subrange(0, i) =~= t@.take(i));
            assert(t@.subrange(i + 3, t@.len() as int) =~= t@.skip(i + "://"@.len()));
        }
    }
    (scheme, rest)
}

/// `scheme://host` of a URI, lower case, without a leading `www.`, so a
/// login saved on www.example.com fills on example.com too.
pub fn site_key(uri: &str) -> (r: String)
    ensures
        r@ == site_key_spec(uri@),
{
    let t = trim_str(uri);
    let (scheme, rest) = split_scheme_of(&t);
    let mut host = site_host(&rest);
    let mut out = lower_ascii_chars(&scheme);
    let mut mid = chars_of("://");
    proof {
        reveal_strlit("://");
    }
    out.append(&mut mid);
    out.append(&mut host);
    string_of(out.as_slice())
}

/// The rows a CSV reader gives for `rest`, having read `rows` whole, the
/// fields `row` of the row it is in, the characters `field` of the field it
/// is in, and being inside double quotes when `quoted`. Commas part
/// fields and newlines part rows outside quotes; a carriage return there
/// is dropped; a doubled quote inside quotes is one quote.
pub open spec fn csv_rows_from(
    rows: Seq<Seq<Seq<char>>>,
    row: Seq<Seq<char>>,
    field: Seq<char>,
    quoted: bool,
    rest: Seq<char>,
) -> Seq<Seq<Seq<char>>>
    decreases rest.len(),
{
    if rest.len() == 0 {
        if field.len() > 0 || row.len() > 0 {
            rows.push(row.push(field))
        } else {
            rows
        }
    } else {
        let c = rest[0];
        let r = rest.drop_first();
        if quoted {
            if c == '"' {
                if r.len() > 0 && r[0] == '"' {
                    csv_rows_from(rows, row, field.push('"'), true, r.drop_first())
                } else {
                    csv_rows_from(rows, row, field, false, r)
                }
            } else {
                csv_rows_from(rows, row, field.push(c), true, r)
            }
        } else if c == '"' {
            csv_rows_from(rows, row, field, true, r)
        } else if c == ',' {
            csv_rows_from(rows, row.push(field), Seq::empty(), false, r)
        } else if c == '\r' {
            csv_rows_from(rows, row, field, false, r)
        } else if c == '\n' {
            csv_rows_from(rows.push(row.push(field)), Seq::empty(), Seq::empty(), false, r)
        } else {
            csv_rows_from(rows, row, field.push(c), false, r)
        }
    }
}

/// The rows of a CSV text, each a list of fields.
pub open spec fn csv_rows(text: Seq<char>) -> Seq<Seq<Seq<char>>> {
    csv_rows_from(Seq::empty(), Seq::empty(), Seq::empty(), false, text)
}

/// `f` with each double quote doubled.
pub open spec fn csv_escape(f: Seq<char>) -> Seq<char>
    decreases f.len(),
{
    if f.len() == 0 {
        Seq::empty()
    } else if f[0] == '"' {
        seq!['"', '"'] + csv_escape(f.drop_first())
    } else {
        seq![f[0]] + csv_escape(f.drop_first())
    }
}

/// A field in double quotes, its own quotes doubled.
pub open spec fn csv_quoted(f: Seq<char>) -> Seq<char> {
    seq!['"'] + csv_escape(f) + seq!['"']
}

/// The fields of a row, each quoted, parted by commas.
pub open spec fn csv_quoted_fields(fs: Seq<Seq<char>>) -> Seq<char>
    decreases fs.len(),
{
    if fs.len() <= 1 {
        if fs.len() == 1 {
            csv_quoted(fs[0])
        } else {
            Seq::empty()
        }
    } else {
        csv_quoted(fs[0]) + seq![','] + csv_quoted_fields(fs.drop_first())
    }
}

/// Rows written with every field quoted, each row on a line of its own.
pub open spec fn csv_quoted_text(rows: Seq<Seq<Seq<char>>>) -> Seq<char>
    decreases rows.len(),
{
    if rows.len() == 0 {
        Seq::empty()
    } else {
        csv_quoted_fields(rows[0]) + seq!['\n'] + csv_quoted_text(rows.drop_first())
    }
}

/// Inside quotes, an escaped field and its closing quote read as the
/// field, when no quote follows.
proof fn lemma_csv_escaped(
    rows: Seq<Seq<Seq<char>>>,
    row: Seq<Seq<char>>,
    field: Seq<char>,
    f: Seq<char>,
    rest: Seq<char>,
)
    requires
        rest.len() == 0 || rest[0] != '"',
    ensures
        csv_rows_from(rows, row, field, true, csv_escape(f) + seq!['"'] + rest) == csv_rows_from(
            rows,
            row,
            field + f,
            false,
            rest,
        ),
    decreases f.len(),
{
    let input = csv_escape(f) + seq!['"'] + rest;
    if f.len() == 0 {
        assert(csv_escape(f) =~= Seq::<char>::empty());
        assert(input =~= seq!['"'] + rest);
        assert(input[0] == '"');
        assert(input.drop_first() =~= rest);
        assert(field + f =~= field);
    } else {
        let t = f.drop_first();
        lemma_csv_escaped(rows, row, field.push(f[0]), t, rest);
        assert(field.push(f[0]) + t =~= field + f);
        if f[0] == '"' {
            assert(input =~= seq!['"', '"'] + (csv_escape(t) + seq!['"'] + rest));
            assert(input[0] == '"');
            assert(input.drop_first()[0] == '"');
            assert(input.drop_first().drop_first() =~= csv_escape(t) + seq!['"'] + rest);
        } else {
            assert(input =~= seq![f[0]] + (csv_escape(t) + seq!['"'] + rest));
            assert(input[0] == f[0]);
            assert(input.drop_first() =~= csv_escape(t) + seq!['"'] + rest);
        }
    }
}

/// A row of quoted fields and its line break read as that row.
proof fn lemma_csv_quoted_fields(
    rows: Seq<Seq<Seq<char>>>,
    row: Seq<Seq<char>>,
    fs: Seq<Seq<char>>,
    rest: Seq<char>,
)
    requires
        fs.len() > 0,
    ensures
        csv_rows_from(rows, row, Seq::empty(), false, csv_quoted_fields(fs) + seq!['\n'] + rest)
            == csv_rows_from(rows.push(row + fs), Seq::empty(), Seq::empty(), false, rest),
    decreases fs.len(),
{
    let f = fs[0];
    let e = Seq::<char>::empty();
    if fs.len() == 1 {
        let after = seq!['\n'] + rest;
        let input = csv_quoted_fields(fs) + seq!['\n'] + rest;
        assert(input =~= seq!['"'] + (csv_escape(f) + seq!['"'] + after));
        assert(input[0] == '"');
        assert(input.drop_first() =~= csv_escape(f) + seq!['"'] + after);
        lemma_csv_escaped(rows, row, e, f, after);
        assert(e + f =~= f);
        assert(after[0] == '\n');
        assert(after.drop_first() =~= rest);
        assert(row.push(f) =~= row + fs);
    } else {
        let t = fs.drop_first();
        let after = seq![','] + (csv_quoted_fields(t) + seq!['\n'] + rest);
        let input = csv_quoted_fields(fs) + seq!['\n'] + rest;
        assert(input =~= seq!['"'] + (csv_escape(f) + seq!['"'] + after));
        assert(input[0] == '"');
        assert(input.drop_first() =~= csv_escape(f) + seq!['"'] + after);
        lemma_csv_escaped(rows, row, e, f, after);
        assert(e + f =~= f);
        assert(after[0] == ',');
        assert(after.drop_first() =~= csv_quoted_fields(t) + seq!['\n'] + rest);
        lemma_csv_quoted_fields(rows, row.push(f), t, rest);
        assert(row.push(f) + t =~= row + fs);
    }
}

/// Reading rows written with quoted fields from any point gives them
/// after the rows read before.
proof fn lemma_csv_quoted_text(done: Seq<Seq<Seq<char>>>, rows: Seq<Seq<Seq<char>>>)
    requires
        forall|i: int| 0 <= i < rows.len() ==> (#[trigger] rows[i]).len() > 0,
    ensures
        csv_rows_from(done, Seq::empty(), Seq::empty(), false, csv_quoted_text(rows)) == done + rows,
    decreases rows.len(),
{
    if rows.len() == 0 {
        assert(done + rows =~= done);
    } else {
        let t = rows.drop_first();
        assert(rows[0].len() > 0);
        lemma_csv_quoted_fields(done, Seq::empty(), rows[0], csv_quoted_text(t));
        assert(Seq::<Seq<char>>::empty() + rows[0] =~= rows[0]);
        assert forall|i: int| 0 <= i < t.len() implies (#[trigger] t[i]).len() > 0 by {
            assert(t[i] == rows[i + 1]);
        }
        lemma_csv_quoted_text(done.push(rows[0]), t);
        assert(done.push(rows[0]) + t =~= done + rows);
    }
}

/// Writing rows with every field in double quotes and its quotes doubled,
/// one row to a line, is undone by reading the text back, whatever commas,
/// quotes, carriage returns or line breaks the fields hold, for rows that
/// have fields.
pub proof fn law_quoted_csv_reads_back(rows: Seq<Seq<Seq<char>>>)
    requires
        forall|i: int| 0 <= i < rows.len() ==> (#[trigger] rows[i]).len() > 0,
    ensures
        csv_rows(csv_quoted_text(rows)) == rows,
{
    lemma_csv_quoted_text(Seq::empty(), rows);
    assert(Seq::<Seq<Seq<char>>>::empty() + rows =~= rows);
}

/// The characters of each field of each row.
pub open spec fn rows_view(rows: Seq<Vec<String>>) -> Seq<Seq<Seq<char>>> {
    rows.map_values(|row: Vec<String>| row@.map_values(|f: String| f@))
}

/// The characters of each field of a row.
pub open spec fn row_chars(row: Seq<Vec<char>>) -> Seq<Seq<char>> {
    row.map_values(|f: Vec<char>| f@)
}

/// The characters of each field of each row.
pub open spec fn rows_chars(rows: Seq<Vec<Vec<char>>>) -> Seq<Seq<Seq<char>>> {
    rows.map_values(|r: Vec<Vec<char>>| row_chars(r@))
}

/// A row of fields as strings.
fn row_strings(row: &Vec<Vec<char>>) -> (r: Vec<String>)
    ensures
        r@.map_values(|f: String| f@) == row_chars(row@),
{
    let mut r: Vec<String> = Vec::new();
    let mut i: usize = 0;
    while i < row.len()
        invariant
            i <= row@.len(),
            r@.map_values(|f: String| f@) == row_chars(row@.take(i as int)),
        decreases row@.len() - i,
    {
        r.push(string_of(row[i].as_slice()));
        assert(row_chars(row@.take(i + 1)) =~= row_chars(row@.take(i as int)).push(row@[i as int]@));
        assert(r@.map_values(|f: String| f@) =~= row_chars(row@.take(i as int)).push(row@[i as int]@));
        i += 1;
    }
    assert(row@.take(row@.len() as int) =~= row@);
    r
}

/// A small CSV reader: commas, double quotes, doubled quotes inside a
/// quoted field, and newlines inside quotes.
pub fn parse_csv(text: &str) -> (r: Vec<Vec<String>>)
    ensures
        rows_view(r@) == csv_rows(text@),
{
    let cs = chars_of(text);
    let mut rows: Vec<Vec<Vec<char>>> = Vec::new();
    let mut row: Vec<Vec<char>> = Vec::new();
    let mut field: Vec<char> = Vec::new();
    let mut quoted = false;
    let mut i: usize = 0;
    assert(cs@.skip(0) =~= cs@);
    assert(rows_chars(rows@) =~= Seq::<Seq<Seq<char>>>::empty());
    assert(row_chars(row@) =~= Seq::<Seq<char>>::empty());
    assert(field@ =~= Seq::<char>::empty());
    while i < cs.len()
        invariant
            i <= cs@.len(),
            csv_rows(text@) == csv_rows_from(
                rows_chars(rows@),
                row_chars(row@),
                field@,
                quoted,
                cs@.skip(i as int),
            ),
        decreases cs@.len() - i,
    {
        let c = cs[i];
        let ghost rest = cs@.skip(i as int);
        assert(rest[0] == c);
        assert(rest.drop_first() =~= cs@.skip(i + 1));
        if quoted {
            if c == '"' {
                if i + 1 < cs.len() && cs[i + 1] == '"' {
                    field.push('"');
                    assert(cs@.skip(i + 1).drop_first() =~= cs@.skip(i + 2));
                    i += 2;
                } else {
                    quoted = false;
                    i += 1;
                }
            } else {
                field.push(c);
                i += 1;
            }
        } else if c == '"' {
            quoted = true;
            i += 1;
        } else if c == ',' {
            let f = field;
            field = Vec::new();
            let ghost old_row = row@;
            row.push(f);
            assert(row_chars(row@) =~= row_chars(old_row).push(f@));
            i += 1;
        } else if c == '\r' {
            i += 1;
        } else if c == '\n' {
            let f = field;
            field = Vec::new();
            let ghost old_row = row@;
            row.push(f);
            assert(row_chars(row@) =~= row_chars(old_row).push(f@));
            let rw = row;
            row = Vec::new();
            let ghost old_rows = rows@;
            rows.push(rw);
            assert(rows_chars(rows@) =~= rows_chars(old_rows).push(row_chars(rw@)));
            assert(row_chars(row@) =~= Seq::<Seq<char>>::empty());
            i += 1;
        } else {
            field.push(c);
            i += 1;
        }
    }
    assert(cs@.skip(i as int) =~= Seq::<char>::empty());
    if field.len() > 0 || row.len() > 0 {
        let ghost old_row = row@;
        row.push(field);
        assert(row_chars(row@) =~= row_chars(old_row).push(row@.last()@));
        let ghost old_rows = rows@;
        rows.push(row);
        assert(rows_chars(rows@) =~= rows_chars(old_rows).push(row_chars(rows@.last()@)));
    }
    let mut out: Vec<Vec<String>> = Vec::new();
    let mut k: usize = 0;
    while k < rows.len()
        invariant
            k <= rows@.len(),
            rows_view(out@) == rows_chars(rows@.take(k as int)),
        decreases rows@.len() - k,
    {
        let r = row_strings(&rows[k]);
        let ghost old_out = out@;
        out.push(r);
        assert(rows_view(out@) =~= rows_view(old_out).push(r@.map_values(|f: String| f@)));
        assert(rows_chars(rows@.take(k + 1)) =~= rows_chars(rows@.take(k as int)).push(row_chars(rows@[k as int]@)));
        k += 1;
    }
    assert(rows@.take(rows@.len() as int) =~= rows@);
    out
}


/// What Argon2id, with the crate's default parameters, derives from a
/// password and a salt into a 32-byte key.
pub uninterp spec fn argon2_key(pwd: Seq<u8>, salt: Seq<u8>) -> Seq<u8>;

/// What ChaCha20-Poly1305 seals `plain` into under `key` and `nonce`: the
/// ciphertext and its 16-byte tag.
pub uninterp spec fn chacha_seal(key: Seq<u8>, nonce: Seq<u8>, plain: Seq<u8>) -> Seq<u8>;

/// What ChaCha20-Poly1305 opens `sealed` into under `key` and `nonce`, or
/// nothing when the tag does not match.
pub uninterp spec fn chacha_open(key: Seq<u8>, nonce: Seq<u8>, sealed: Seq<u8>) -> Option<Seq<u8>>;

/// The most 64-byte blocks ChaCha20-Poly1305 takes in one message.
pub open spec fn max_blocks() -> int {
    0xFFFF_FFFF
}

/// `Argon2::hash_password_into` with the default parameters, into 32
/// bytes. The crate refuses a password longer than 2^32 - 1 bytes and a
/// salt shorter than 8 or longer than 2^32 - 1 bytes, and nothing else for
/// a 32-byte output; the key is named by `argon2_key`. The error's text is
/// the crate's and is left unsaid.
#[verifier::external_body]
fn argon2_derive(pwd: &[u8], salt: &[u8]) -> (r: Result<Vec<u8>, String>)
    ensures
        r is Ok <==> (pwd@.len() <= 0xFFFF_FFFF && 8 <= salt@.len() <= 0xFFFF_FFFF),
        r matches Ok(k) ==> k@ == argon2_key(pwd@, salt@) && k@.len() == 32,
{
    let mut key = [0u8; 32];
    argon2::Argon2::default().hash_password_into(pwd, salt, &mut key).map_err(|e| e.to_string())?;
    Ok(key.to_vec())
}

/// `ChaCha20Poly1305::encrypt` under a 32-byte key and a 12-byte nonce,
/// with no associated data. The crate refuses a message of 2^32 - 1 or
/// more 64-byte blocks and nothing else; what it gives is named by
/// `chacha_seal`. The error's text is the crate's and is left unsaid.
#[verifier::external_body]
fn chacha_encrypt(key: &[u8], nonce: &[u8], plain: &[u8]) -> (r: Result<Vec<u8>, String>)
    requires
        key@.len() == 32,
        nonce@.len() == 12,
    ensures
        r is Ok <==> plain@.len() / 64 < max_blocks(),
        r matches Ok(c) ==> c@ == chacha_seal(key@, nonce@, plain@),
{
    chacha20poly1305::ChaCha20Poly1305::new(chacha20poly1305::Key::from_slice(key))
        .encrypt(chacha20poly1305::Nonce::from_slice(nonce), plain)
        .map_err(|e| e.to_string())
}

/// `ChaCha20Poly1305::decrypt` under a 32-byte key and a 12-byte nonce,
/// with no associated data; what it gives is named by `chacha_open`. It
/// opens what `encrypt` sealed under the same key and nonce into the
/// message that was sealed: that is what authenticated encryption is.
#[verifier::external_body]
fn chacha_decrypt(key: &[u8], nonce: &[u8], sealed: &[u8]) -> (r: Option<Vec<u8>>)
    requires
        key@.len() == 32,
        nonce@.len() == 12,
    ensures
        r is Some ==> chacha_open(key@, nonce@, sealed@) == Some(r->0@),
        r is None ==> chacha_open(key@, nonce@, sealed@) is None,
        forall|p: Seq<u8>|
            p.len() / 64 < max_blocks() && sealed@ == #[trigger] chacha_seal(key@, nonce@, p) ==> (r is Some
                && r->0@ == p),
{
    chacha20poly1305::ChaCha20Poly1305::new(chacha20poly1305::Key::from_slice(key))
        .decrypt(chacha20poly1305::Nonce::from_slice(nonce), sealed)
        .ok()
}

/// `n` bytes from the operating system's random source, by
/// `OsRng::try_fill_bytes`; nothing when the source fails. Which bytes is
/// chance, so only their number is stated.
#[verifier::external_body]
fn random_bytes(n: usize) -> (r: Option<Vec<u8>>)
    ensures
        r matches Some(v) ==> v@.len() == n,
{
    let mut v = vec![0u8; n];
    chacha20poly1305::aead::OsRng.try_fill_bytes(&mut v).ok().map(|_| v)
}

#[verifier::external_type_specification]
#[verifier::external_body]
pub struct ExSystemTime(std::time::SystemTime);

/// What the system clock says now, by `SystemTime::now`. The time is the
/// machine's, so nothing is stated.
#[verifier::external_body]
fn clock_now() -> std::time::SystemTime {
    std::time::SystemTime::now()
}

/// How long after the Unix epoch `t` is, by `SystemTime::duration_since`;
/// nothing when `t` stands before it. What comes back rests on `t`, which
/// is opaque here, so nothing is stated.
#[verifier::external_body]
fn since_epoch(t: &std::time::SystemTime) -> Option<std::time::Duration> {
    t.duration_since(std::time::UNIX_EPOCH).ok()
}

/// The whole seconds of `d`, by `Duration::as_secs`. `d` is opaque here,
/// so nothing is stated.
#[verifier::external_body]
fn whole_secs(d: &std::time::Duration) -> u64 {
    d.as_secs()
}

/// Seconds since the Unix epoch by the system clock, or 0 when the clock
/// stands before it.
pub(crate) fn now() -> u64 {
    match since_epoch(&clock_now()) {
        Some(d) => whole_secs(&d),
        None => 0,
    }
}

#[verifier::external_type_specification]
#[verifier::external_body]
pub struct ExPathBuf(PathBuf);

/// The bytes a password file starts with: `GAZE1`.
pub open spec fn magic() -> Seq<u8> {
    seq![71u8, 65u8, 90u8, 69u8, 49u8]
}

/// How long the salt and the nonce are.
pub open spec fn salt_len() -> int {
    16
}

pub open spec fn nonce_len() -> int {
    12
}

/// A password file: the magic bytes, the salt, the nonce and the sealed
/// logins.
pub open spec fn sealed_file(salt: Seq<u8>, nonce: Seq<u8>, body: Seq<u8>) -> Seq<u8> {
    magic() + salt + nonce + body
}

/// What opening a password file with a master password comes to.
pub enum Unsealed {
    /// Too short, or not starting with the magic bytes.
    NotAFile,
    /// The key could not be derived (Argon2 refused the inputs).
    NoKey,
    /// The key opens nothing: the master password is wrong, or the file
    /// was changed.
    WrongMaster,
    /// The key, the salt and the plain logins.
    Opened(Seq<u8>, Seq<u8>, Seq<u8>),
}

/// What opening the file `raw` with the master password whose bytes are
/// `pwd` gives.
pub open spec fn unseal_spec(pwd: Seq<u8>, raw: Seq<u8>) -> Unsealed {
    if raw.len() < magic().len() + salt_len() + nonce_len() || raw.take(5) != magic() {
        Unsealed::NotAFile
    } else {
        let salt = raw.subrange(5, 21);
        let nonce = raw.subrange(21, 33);
        let body = raw.skip(33);
        if !(pwd.len() <= 0xFFFF_FFFF) {
            Unsealed::NoKey
        } else {
            let key = argon2_key(pwd, salt);
            match chacha_open(key, nonce, body) {
                Some(p) => Unsealed::Opened(key, salt, p),
                None => Unsealed::WrongMaster,
            }
        }
    }
}

/// A password file opened with its master password: the key, the salt,
/// and the logins as JSON.
pub struct Opened {
    key: Vec<u8>,
    salt: Vec<u8>,
    plain: Vec<u8>,
    pwd: Ghost<Seq<u8>>,
}

impl Opened {
    pub closed spec fn key_v(&self) -> Seq<u8> {
        self.key@
    }

    pub closed spec fn salt_v(&self) -> Seq<u8> {
        self.salt@
    }

    pub closed spec fn plain_v(&self) -> Seq<u8> {
        self.plain@
    }

    /// The bytes of the master password the key was derived from.
    pub closed spec fn pwd_v(&self) -> Seq<u8> {
        self.pwd@
    }

    /// The key is the one the master password and the salt give.
    pub closed spec fn wf(&self) -> bool {
        &&& self.key@ == argon2_key(self.pwd@, self.salt@)
        &&& self.key@.len() == 32
        &&& self.salt@.len() == salt_len()
        &&& self.pwd@.len() <= 0xFFFF_FFFF
    }

    /// The logins, as JSON.
    pub fn plain(&self) -> (r: &Vec<u8>)
        ensures
            r@ == self.plain_v(),
    {
        &self.plain
    }
}

/// The bytes of `v` from `from` to `to`.
fn byte_range(v: &[u8], from: usize, to: usize) -> (r: Vec<u8>)
    requires
        from <= to <= v@.len(),
    ensures
        r@ == v@.subrange(from as int, to as int),
{
    let mut r: Vec<u8> = Vec::new();
    let mut i: usize = from;
    while i < to
        invariant
            from <= i <= to <= v@.len(),
            r@ == v@.subrange(from as int, i as int),
        decreases to - i,
    {
        r.push(v[i]);
        assert(v@.subrange(from as int, i + 1) =~= v@.subrange(from as int, i as int).push(v@[i as int]));
        i += 1;
    }
    r
}

/// Appends the bytes of `w`.
fn push_bytes(v: &mut Vec<u8>, w: &[u8])
    ensures
        final(v)@ == old(v)@ + w@,
{
    let mut i: usize = 0;
    while i < w.len()
        invariant
            i <= w@.len(),
            v@ == old(v)@ + w@.take(i as int),
        decreases w@.len() - i,
    {
        v.push(w[i]);
        assert(old(v)@ + w@.take(i + 1) =~= (old(v)@ + w@.take(i as int)).push(w@[i as int]));
        i += 1;
    }
    assert(w@.take(w@.len() as int) =~= w@);
}

/// The magic bytes, as a vector.
fn magic_bytes() -> (r: Vec<u8>)
    ensures
        r@ == magic(),
{
    let mut r: Vec<u8> = Vec::new();
    r.push(71u8);
    r.push(65u8);
    r.push(90u8);
    r.push(69u8);
    r.push(49u8);
    assert(r@ =~= magic());
    r
}

/// Open a password file with the master password: check its magic bytes,
/// derive the key from the password and the file's salt, and open the
/// sealed logins. A file sealed under the key the password and its salt
/// give opens into the logins that were sealed.
pub fn unseal(master: &str, raw: &[u8]) -> (r: Result<Opened, String>)
    ensures
        match unseal_spec(master.spec_bytes(), raw@) {
            Unsealed::NotAFile => r matches Err(e) && e@ == "not a gaze password file"@,
            Unsealed::NoKey => r is Err,
            Unsealed::WrongMaster => r matches Err(e) && e@ == "wrong master password"@,
            Unsealed::Opened(key, salt, plain) => r matches Ok(o) && o.key_v() == key && o.salt_v()
                == salt && o.plain_v() == plain && o.pwd_v() == master.spec_bytes() && o.wf(),
        },
        forall|salt: Seq<u8>, nonce: Seq<u8>, p: Seq<u8>|
            salt.len() == salt_len() && nonce.len() == nonce_len() && p.len() / 64 < max_blocks()
                && master.spec_bytes().len() <= 0xFFFF_FFFF && raw@ == #[trigger] sealed_file(
                salt,
                nonce,
                chacha_seal(argon2_key(master.spec_bytes(), salt), nonce, p),
            ) ==> (r is Ok && r->Ok_0.plain_v() == p),
{
    let m = magic_bytes();
    if raw.len() < 33 {
        return Err("not a gaze password file".to_owned());
    }
    let head = byte_range(raw, 0, 5);
    let mut k: usize = 0;
    while k < 5
        invariant
            k <= 5,
            head@.len() == 5,
            head@ == raw@.subrange(0, 5),
            m@ == magic(),
            forall|j: int| 0 <= j < k ==> head@[j] == m@[j],
        decreases 5 - k,
    {
        if head[k] != m[k] {
            assert(raw@.take(5) =~= raw@.subrange(0, 5));
            assert(raw@.take(5)[k as int] != magic()[k as int]);
            return Err("not a gaze password file".to_owned());
        }
        k += 1;
    }
    assert(raw@.take(5) =~= raw@.subrange(0, 5));
    assert(raw@.take(5) =~= magic());
    let salt = byte_range(raw, 5, 21);
    let nonce = byte_range(raw, 21, 33);
    let body = byte_range(raw, 33, raw.len());
    assert(body@ =~= raw@.skip(33));
    let pwd = master.as_bytes();
    let key = match argon2_derive(pwd, salt.as_slice()) {
        Ok(key) => key,
        Err(e) => {
            return Err(e);
        },
    };
    proof {
        assert forall|s2: Seq<u8>, n2: Seq<u8>, p: Seq<u8>|
            s2.len() == salt_len() && n2.len() == nonce_len() && raw@ == #[trigger] sealed_file(
                s2,
                n2,
                chacha_seal(argon2_key(master.spec_bytes(), s2), n2, p),
            ) implies s2 == salt@ && n2 == nonce@ && body@ == chacha_seal(key@, nonce@, p) by {
            let f = sealed_file(s2, n2, chacha_seal(argon2_key(master.spec_bytes(), s2), n2, p));
            assert(f.subrange(5, 21) =~= s2);
            assert(f.subrange(21, 33) =~= n2);
            assert(f.skip(33) =~= chacha_seal(argon2_key(master.spec_bytes(), s2), n2, p));
        }
    }
    match chacha_decrypt(key.as_slice(), nonce.as_slice(), body.as_slice()) {
        Some(plain) => Ok(Opened { key, salt, plain, pwd: Ghost(master.spec_bytes()) }),
        None => Err("wrong master password".to_owned()),
    }
}


#[derive(Clone, PartialEq, Debug)]
pub struct Login {
    pub origin: String,
    pub username: String,
    pub password: String,
    /// Seconds since the epoch of the last fill; the most recent fills first.
    pub used: u64,
}

/// A login as characters.
pub struct LoginView {
    pub origin: Seq<char>,
    pub username: Seq<char>,
    pub password: Seq<char>,
    pub used: u64,
}

impl View for Login {
    type V = LoginView;

    open spec fn view(&self) -> LoginView {
        LoginView {
            origin: self.origin@,
            username: self.username@,
            password: self.password@,
            used: self.used,
        }
    }
}

/// The logins as characters.
pub open spec fn login_views(s: Seq<Login>) -> Seq<LoginView> {
    s.map_values(|l: Login| l@)
}

/// What keeping a login changed.
#[derive(PartialEq, Eq, Debug)]
pub enum Change {
    New,
    Updated,
    Same,
}

/// The store as it stands: the key while it is unlocked, the salt, and
/// the logins.
pub struct StoreView {
    pub key: Option<Seq<u8>>,
    pub salt: Seq<u8>,
    pub logins: Seq<LoginView>,
}

pub struct Store {
    path: PathBuf,
    key: Option<Vec<u8>>,
    salt: Vec<u8>,
    logins: Vec<Login>,
    pwd: Ghost<Seq<u8>>,
}

impl View for Store {
    type V = StoreView;

    closed spec fn view(&self) -> StoreView {
        StoreView {
            key: match &self.key {
                Some(k) => Some(k@),
                None => None,
            },
            salt: self.salt@,
            logins: login_views(self.logins@),
        }
    }
}

/// Holds of a login for site `site` and user `username`.
pub open spec fn same_login(site: Seq<char>, username: Seq<char>) -> spec_fn(LoginView) -> bool {
    |l: LoginView| site_key_spec(l.origin) == site && l.username == username
}

/// Holds of a login that is not for site `site` and user `username`.
pub open spec fn other_login(site: Seq<char>, username: Seq<char>) -> spec_fn(LoginView) -> bool {
    |l: LoginView| !(site_key_spec(l.origin) == site && l.username == username)
}

/// Holds of a login for site `site`.
pub open spec fn for_site_is(site: Seq<char>) -> spec_fn(LoginView) -> bool {
    |l: LoginView| site_key_spec(l.origin) == site
}

/// The logins after a login the page sent was kept at time `now`, and
/// what that changed: a known user of the site gets the new password, the
/// same password again changes nothing, anything else is a new login.
pub open spec fn remember_spec(logins: Seq<LoginView>, login: LoginView, now: u64) -> (Seq<LoginView>, Change) {
    match first_index(logins, same_login(site_key_spec(login.origin), login.username)) {
        Some(i) => if logins[i].password == login.password {
            (logins, Change::Same)
        } else {
            (logins.update(i, LoginView { password: login.password, used: now, ..logins[i] }), Change::Updated)
        },
        None => (logins.push(LoginView { used: now, ..login }), Change::New),
    }
}

/// `a` comes before `b` in the character order `str` compares by.
pub open spec fn seq_lt(a: Seq<char>, b: Seq<char>) -> bool
    decreases a.len(),
{
    if a.len() == 0 {
        b.len() > 0
    } else if b.len() == 0 {
        false
    } else if a[0] != b[0] {
        (a[0] as u32) < (b[0] as u32)
    } else {
        seq_lt(a.drop_first(), b.drop_first())
    }
}

/// `a` is listed before `b` for a site: the one used last first, then by
/// user name.
pub open spec fn login_first(a: LoginView, b: LoginView) -> bool {
    a.used > b.used || (a.used == b.used && seq_lt(a.username, b.username))
}

/// Holds of a login that `x` is listed before.
pub open spec fn listed_after(x: LoginView) -> spec_fn(LoginView) -> bool {
    |e: LoginView| login_first(x, e)
}

/// `x` put into the ordered list `sorted`, before the first login it is
/// listed before.
pub open spec fn insert_login(sorted: Seq<LoginView>, x: LoginView) -> Seq<LoginView> {
    match first_index(sorted, listed_after(x)) {
        Some(p) => sorted.insert(p, x),
        None => sorted.push(x),
    }
}

/// The logins in the order a site lists them, logins that compare the
/// same keeping their order.
pub open spec fn sort_logins(s: Seq<LoginView>) -> Seq<LoginView>
    decreases s.len(),
{
    if s.len() == 0 {
        Seq::empty()
    } else {
        insert_login(sort_logins(s.drop_last()), s.last())
    }
}

/// No login of `s` is listed before one that comes ahead of it.
pub open spec fn logins_in_order(s: Seq<LoginView>) -> bool {
    forall|i: int, j: int| 0 <= i < j < s.len() ==> !login_first(#[trigger] s[j], #[trigger] s[i])
}

/// Listing order never holds both ways, and it is transitive.
proof fn lemma_login_first(a: LoginView, b: LoginView, c: LoginView)
    ensures
        !(login_first(a, b) && login_first(b, a)),
        login_first(a, b) && login_first(b, c) ==> login_first(a, c),
{
    crate::entries::lemma_seq_lt_total(a.username, b.username);
    if login_first(a, b) && login_first(b, c) && a.used == b.used && b.used == c.used {
        crate::entries::lemma_seq_lt_trans(a.username, b.username, c.username);
    }
}

/// A site's logins come out in listing order, the used last first and
/// then by user name, and none is lost or added.
pub proof fn law_site_logins_sorted(s: Seq<LoginView>)
    ensures
        logins_in_order(sort_logins(s)),
        sort_logins(s).to_multiset() == s.to_multiset(),
    decreases s.len(),
{
    if s.len() > 0 {
        let p = sort_logins(s.drop_last());
        let x = s.last();
        law_site_logins_sorted(s.drop_last());
        lemma_first_index(p, listed_after(x));
        let r = sort_logins(s);
        match first_index(p, listed_after(x)) {
            Some(q) => {
                assert forall|i: int, j: int| 0 <= i < j < r.len() implies !login_first(#[trigger] r[j], #[trigger] r[i]) by {
                    if i < q && j == q {
                        assert(!listed_after(x)(p[i]));
                    } else if i == q && j > q {
                        assert(r[j] == p[j - 1]);
                        assert(listed_after(x)(p[q]));
                        lemma_login_first(p[j - 1], x, p[q]);
                        if j - 1 > q {
                            assert(!login_first(p[j - 1], p[q]));
                        }
                    } else if i < q && j > q {
                        assert(r[j] == p[j - 1]);
                    } else if i > q {
                        assert(r[i] == p[i - 1] && r[j] == p[j - 1]);
                    }
                }
                vstd::seq_lib::to_multiset_insert(p, q, x);
            },
            None => {
                assert forall|i: int, j: int| 0 <= i < j < r.len() implies !login_first(#[trigger] r[j], #[trigger] r[i]) by {
                    if j == r.len() - 1 {
                        assert(!listed_after(x)(p[i]));
                    }
                }
            },
        }
        assert(s == s.drop_last().push(x));
        vstd::seq_lib::to_multiset_build(s.drop_last(), x);
        vstd::seq_lib::to_multiset_build(p, x);
        assert(r.to_multiset() == p.to_multiset().insert(x));
    } else {
        assert(s =~= Seq::<LoginView>::empty());
    }
}

/// `a` comes before `b` in character order.
pub(crate) fn chars_lt(a: &Vec<char>, b: &Vec<char>) -> (r: bool)
    ensures
        r == seq_lt(a@, b@),
{
    let mut i: usize = 0;
    assert(a@.skip(0) =~= a@);
    assert(b@.skip(0) =~= b@);
    while i < a.len() && i < b.len()
        invariant
            i <= a@.len(),
            i <= b@.len(),
            forall|k: int| 0 <= k < i ==> a@[k] == b@[k],
            seq_lt(a@, b@) == seq_lt(a@.skip(i as int), b@.skip(i as int)),
        decreases a@.len() - i,
    {
        assert(a@.skip(i as int).drop_first() =~= a@.skip(i + 1));
        assert(b@.skip(i as int).drop_first() =~= b@.skip(i + 1));
        assert(a@.skip(i as int)[0] == a@[i as int]);
        assert(b@.skip(i as int)[0] == b@[i as int]);
        if a[i] != b[i] {
            return (a[i] as u32) < (b[i] as u32);
        }
        i += 1;
    }
    assert(a@.skip(i as int).len() == a@.len() - i);
    assert(b@.skip(i as int).len() == b@.len() - i);
    i < b.len()
}

/// Where `x` goes in the ordered list `sorted`.
fn insert_spot(sorted: &Vec<&Login>, x: &Login) -> (r: usize)
    ensures
        r <= sorted@.len(),
        match first_index(sorted@.map_values(|l: &Login| l@), listed_after(x@)) {
            Some(p) => r == p,
            None => r == sorted@.len(),
        },
{
    let ghost sv = sorted@.map_values(|l: &Login| l@);
    let xu = chars_of(x.username.as_str());
    let mut i: usize = 0;
    while i < sorted.len()
        invariant
            i <= sorted@.len(),
            sv == sorted@.map_values(|l: &Login| l@),
            xu@ == x@.username,
            forall|k: int| 0 <= k < i ==> !listed_after(x@)(#[trigger] sv[k]),
        decreases sorted@.len() - i,
    {
        let e = sorted[i];
        let eu = chars_of(e.username.as_str());
        assert(sv[i as int] == e@);
        let before = x.used > e.used || (x.used == e.used && chars_lt(&xu, &eu));
        assert(before == listed_after(x@)(sv[i as int]));
        if before {
            proof {
                lemma_first_index(sv, listed_after(x@));
            }
            return i;
        }
        i += 1;
    }
    proof {
        lemma_first_index(sv, listed_after(x@));
    }
    sorted.len()
}

/// Holds of a header cell that names column `name`, ASCII case and
/// surrounding white space aside.
pub open spec fn names_column(name: Seq<char>) -> spec_fn(Seq<char>) -> bool {
    |h: Seq<char>| eq_ascii_nocase(trim(h), name)
}

/// Where column `name` stands in the header.
pub open spec fn column(header: Seq<Seq<char>>, name: Seq<char>) -> Option<int> {
    first_index(header, names_column(name))
}

pub open spec fn is_digit(c: char) -> bool {
    '0' as u32 <= c as u32 <= '9' as u32
}

/// The number the decimal digits `d` write.
pub open spec fn digits_value(d: Seq<char>) -> int
    decreases d.len(),
{
    if d.len() == 0 {
        0
    } else {
        digits_value(d.drop_last()) * 10 + (d.last() as u32 - 48)
    }
}

/// `s` without a leading `+`.
pub open spec fn unsigned_digits(s: Seq<char>) -> Seq<char> {
    if s.len() > 0 && s[0] == '+' {
        s.drop_first()
    } else {
        s
    }
}

/// Every character of `d` is a decimal digit.
pub open spec fn all_digits(d: Seq<char>) -> bool {
    forall|i: int| 0 <= i < d.len() ==> is_digit(#[trigger] d[i])
}

/// What `u64::from_str` gives: an optional `+`, then one or more decimal
/// digits whose number fits.
pub open spec fn parse_u64_spec(s: Seq<char>) -> Option<u64> {
    let d = unsigned_digits(s);
    if d.len() == 0 || !all_digits(d) || digits_value(d) > u64::MAX {
        None
    } else {
        Some(digits_value(d) as u64)
    }
}

/// Where the columns of a login export stand.
pub struct Columns {
    pub url: int,
    pub username: int,
    pub password: int,
    pub used: Option<int>,
}

/// The logins, and the counts of added and updated ones, after one row of
/// an export: a row without the three cells, or with an empty URL or
/// password, is passed over; a known user of the site gets a changed
/// password; anything else is a new login, last used when the export says
/// (in milliseconds), or at 0.
pub open spec fn import_row(acc: (Seq<LoginView>, nat, nat), row: Seq<Seq<char>>, c: Columns) -> (Seq<LoginView>, nat, nat) {
    if !(0 <= c.url < row.len() && 0 <= c.username < row.len() && 0 <= c.password < row.len()) {
        acc
    } else {
        let origin = row[c.url];
        let username = row[c.username];
        let password = row[c.password];
        if origin.len() == 0 || password.len() == 0 {
            acc
        } else {
            let when: u64 = match c.used {
                Some(k) => if 0 <= k < row.len() {
                    match parse_u64_spec(row[k]) {
                        Some(ms) => ms / 1000,
                        None => 0,
                    }
                } else {
                    0
                },
                None => 0,
            };
            let (logins, added, updated) = acc;
            match first_index(logins, same_login(site_key_spec(origin), username)) {
                Some(i) => if logins[i].password != password {
                    (logins.update(i, LoginView { password, ..logins[i] }), added, updated + 1)
                } else {
                    acc
                },
                None => (
                    logins.push(LoginView { origin, username, password, used: when }),
                    added + 1,
                    updated,
                ),
            }
        }
    }
}

/// A row of an export for a user the store already has for that site,
/// with a different password, gives that login the row's password and
/// counts it as updated; every other login stays, and nothing is added.
pub proof fn law_import_updates_a_known_login(
    logins: Seq<LoginView>,
    added: nat,
    updated: nat,
    row: Seq<Seq<char>>,
    c: Columns,
    i: int,
)
    requires
        0 <= c.url < row.len(),
        0 <= c.username < row.len(),
        0 <= c.password < row.len(),
        row[c.url].len() > 0,
        row[c.password].len() > 0,
        0 <= i < logins.len(),
        site_key_spec(logins[i].origin) == site_key_spec(row[c.url]),
        logins[i].username == row[c.username],
        forall|k: int|
            0 <= k < logins.len() && k != i ==> !(site_key_spec((#[trigger] logins[k]).origin) == site_key_spec(
                row[c.url],
            ) && logins[k].username == row[c.username]),
        logins[i].password != row[c.password],
    ensures
        ({
            let (after, a, u) = import_row((logins, added, updated), row, c);
            &&& after.len() == logins.len()
            &&& after[i] == LoginView { password: row[c.password], ..logins[i] }
            &&& forall|k: int| 0 <= k < logins.len() && k != i ==> #[trigger] after[k] == logins[k]
            &&& a == added
            &&& u == updated + 1
        }),
{
    let f = same_login(site_key_spec(row[c.url]), row[c.username]);
    lemma_first_index(logins, f);
    match first_index(logins, f) {
        Some(j) => {
            if j != i {
                assert(f(logins[j]));
            }
        },
        None => {
            assert(f(logins[i]));
        },
    }
}

/// A row of an export for a user the store does not have for that site
/// adds the login and counts it as added.
pub proof fn law_import_adds_a_new_login(
    logins: Seq<LoginView>,
    added: nat,
    updated: nat,
    row: Seq<Seq<char>>,
    c: Columns,
)
    requires
        0 <= c.url < row.len(),
        0 <= c.username < row.len(),
        0 <= c.password < row.len(),
        row[c.url].len() > 0,
        row[c.password].len() > 0,
        forall|k: int|
            0 <= k < logins.len() ==> !(site_key_spec((#[trigger] logins[k]).origin) == site_key_spec(row[c.url])
                && logins[k].username == row[c.username]),
    ensures
        ({
            let (after, a, u) = import_row((logins, added, updated), row, c);
            &&& after.len() == logins.len() + 1
            &&& forall|k: int| 0 <= k < logins.len() ==> #[trigger] after[k] == logins[k]
            &&& after.last().origin == row[c.url]
            &&& after.last().username == row[c.username]
            &&& after.last().password == row[c.password]
            &&& a == added + 1
            &&& u == updated
        }),
{
    let f = same_login(site_key_spec(row[c.url]), row[c.username]);
    lemma_first_index(logins, f);
    match first_index(logins, f) {
        Some(j) => {
            assert(f(logins[j]));
        },
        None => {},
    }
}

/// The logins, added and updated, after the rows of an export.
pub open spec fn import_rows(logins: Seq<LoginView>, rows: Seq<Seq<Seq<char>>>, c: Columns) -> (Seq<LoginView>, nat, nat)
    decreases rows.len(),
{
    if rows.len() == 0 {
        (logins, 0, 0)
    } else {
        import_row(import_rows(logins, rows.drop_last(), c), rows.last(), c)
    }
}

/// The number `v` writes, as `u64::from_str` reads it.
pub(crate) fn parse_u64(v: &Vec<char>) -> (r: Option<u64>)
    ensures
        r == parse_u64_spec(v@),
{
    let start: usize = if v.len() > 0 && v[0] == '+' {
        1
    } else {
        0
    };
    let ghost d = unsigned_digits(v@);
    assert(d =~= v@.skip(start as int));
    if start == v.len() {
        return None;
    }
    let mut n: u64 = 0;
    let mut i: usize = start;
    while i < v.len()
        invariant
            start <= i <= v@.len(),
            d == v@.skip(start as int),
            d == unsigned_digits(v@),
            forall|k: int| start <= k < i ==> is_digit(#[trigger] v@[k]),
            n == digits_value(v@.subrange(start as int, i as int)),
        decreases v@.len() - i,
    {
        let c = v[i];
        let cu = c as u32;
        assert(v@.subrange(start as int, i + 1).drop_last() =~= v@.subrange(start as int, i as int));
        if !(48 <= cu && cu <= 57) {
            assert(d[i - start] == c);
            assert(!is_digit(d[i - start]));
            return None;
        }
        let dg = (cu - 48) as u64;
        if n > (u64::MAX - dg) / 10 {
            proof {
                let pre = v@.subrange(start as int, i + 1);
                assert(pre.last() == c);
                assert(digits_value(pre) == n * 10 + dg);
                assert(n * 10 + dg > u64::MAX) by (nonlinear_arith)
                    requires
                        n > (u64::MAX - dg) / 10,
                        dg <= 9,
                ;
                if all_digits(d) {
                    assert(d.take(pre.len() as int) =~= pre);
                    lemma_digits_grow(pre, d);
                }
            }
            return None;
        }
        n = n * 10 + dg;
        i += 1;
    }
    assert(v@.subrange(start as int, v@.len() as int) =~= d);
    Some(n)
}

/// Digits never write less than their first part does.
proof fn lemma_digits_grow(pre: Seq<char>, all: Seq<char>)
    requires
        pre.len() <= all.len(),
        all.take(pre.len() as int) == pre,
        forall|i: int| 0 <= i < all.len() ==> is_digit(#[trigger] all[i]),
    ensures
        digits_value(pre) <= digits_value(all),
        digits_value(pre) >= 0,
    decreases all.len(),
{
    if all.len() > pre.len() {
        assert(all.drop_last().take(pre.len() as int) =~= pre);
        lemma_digits_grow(pre, all.drop_last());
    } else {
        assert(pre =~= all);
    }
    lemma_digits_nonneg(all);
}

pub proof fn lemma_digits_nonneg(d: Seq<char>)
    requires
        forall|i: int| 0 <= i < d.len() ==> is_digit(#[trigger] d[i]),
    ensures
        digits_value(d) >= 0,
    decreases d.len(),
{
    if d.len() > 0 {
        lemma_digits_nonneg(d.drop_last());
    }
}

/// Where the header cell naming `name` stands.
fn find_column(header: &Vec<String>, name: &str) -> (r: Option<usize>)
    ensures
        found_at(r, column(header@.map_values(|f: String| f@), name@)),
        r matches Some(i) ==> i < header@.len(),
{
    let ghost hv = header@.map_values(|f: String| f@);
    let nv = chars_of(name);
    let mut i: usize = 0;
    while i < header.len()
        invariant
            i <= header@.len(),
            hv == header@.map_values(|f: String| f@),
            nv@ == name@,
            forall|k: int| 0 <= k < i ==> !names_column(name@)(#[trigger] hv[k]),
        decreases header@.len() - i,
    {
        let t = trim_str(header[i].as_str());
        let lt = lower_ascii_chars(&t);
        let ln = lower_ascii_chars(&nv);
        assert(hv[i as int] == header@[i as int]@);
        if same_chars(&lt, &ln) {
            proof {
                lemma_first_index(hv, names_column(name@));
            }
            return Some(i);
        }
        i += 1;
    }
    proof {
        lemma_first_index(hv, names_column(name@));
    }
    None
}

/// A new master password's key and salt, ready to take the place of the
/// old ones once the store sealed under them is written.
pub struct MasterChange {
    key: Vec<u8>,
    salt: Vec<u8>,
    pwd: Ghost<Seq<u8>>,
}

impl MasterChange {
    pub closed spec fn key_v(&self) -> Seq<u8> {
        self.key@
    }

    pub closed spec fn salt_v(&self) -> Seq<u8> {
        self.salt@
    }

    pub closed spec fn pwd_v(&self) -> Seq<u8> {
        self.pwd@
    }

    pub closed spec fn wf(&self) -> bool {
        &&& self.key@ == argon2_key(self.pwd@, self.salt@)
        &&& self.key@.len() == 32
        &&& self.salt@.len() == salt_len()
        &&& self.pwd@.len() <= 0xFFFF_FFFF
    }
}

impl Store {
    /// The bytes of the master password the key was derived from.
    pub closed spec fn master_v(&self) -> Seq<u8> {
        self.pwd@
    }

    /// While unlocked, the key is the one the master password, of a
    /// length the key derivation takes, and the salt give; while locked,
    /// no logins are held.
    pub closed spec fn wf(&self) -> bool {
        &&& self.key matches Some(k) ==> {
            &&& k@ == argon2_key(self.pwd@, self.salt@)
            &&& k@.len() == 32
            &&& self.salt@.len() == salt_len()
            &&& self.pwd@.len() <= 0xFFFF_FFFF
        }
        &&& self.key is None ==> self.logins@.len() == 0
    }

    /// A locked store holds no logins, and an unlocked one was opened with
    /// a master password of a length the key derivation takes.
    pub proof fn law_locked_store_holds_no_logins(&self)
        requires
            self.wf(),
        ensures
            self@.key is None ==> self@.logins.len() == 0,
            self@.key is Some ==> self.master_v().len() <= 0xFFFF_FFFF,
    {
    }

    /// A locked store for the file at `path`, with no logins.
    pub fn new(path: PathBuf) -> (r: Store)
        ensures
            r.wf(),
            r.file_v() == path,
            r@.key is None,
            r@.salt == Seq::new(16, |i: int| 0u8),
            r@.logins.len() == 0,
    {
        let mut salt: Vec<u8> = Vec::new();
        let mut i: usize = 0;
        while i < 16
            invariant
                i <= 16,
                salt@ == Seq::new(i as nat, |k: int| 0u8),
            decreases 16 - i,
        {
            salt.push(0u8);
            assert(salt@ =~= Seq::new((i + 1) as nat, |k: int| 0u8));
            i += 1;
        }
        let r = Store { path, key: None, salt, logins: Vec::new(), pwd: Ghost(Seq::empty()) };
        assert(r@.logins =~= Seq::<LoginView>::empty());
        r
    }

    /// Where the sealed file lives.
    pub closed spec fn file_v(&self) -> PathBuf {
        self.path
    }

    /// Where the sealed file lives.
    pub fn path(&self) -> (r: &PathBuf)
        ensures
            *r == self.file_v(),
    {
        &self.path
    }

    pub fn unlocked(&self) -> (r: bool)
        ensures
            r == self@.key is Some,
    {
        self.key.is_some()
    }

    pub fn logins(&self) -> (r: &[Login])
        ensures
            login_views(r@) == self@.logins,
    {
        self.logins.as_slice()
    }

    /// Forget the key and the logins.
    pub fn lock(&mut self)
        ensures
            final(self).file_v() == old(self).file_v(),
            final(self).wf(),
            final(self)@.key is None,
            final(self)@.logins.len() == 0,
            final(self)@.salt == old(self)@.salt,
    {
        self.key = None;
        self.logins = Vec::new();
        assert(self@.logins =~= Seq::<LoginView>::empty());
    }

    /// Start a new store under `master`, when there is no file yet: a
    /// fresh salt, the key derived from it, no logins.
    pub fn start(&mut self, master: &str) -> (r: Result<(), String>)
        requires
            old(self).wf(),
        ensures
            final(self).file_v() == old(self).file_v(),
            r is Ok || old(self)@.key is None ==> final(self).wf(),
            r is Ok ==> final(self)@.salt.len() == salt_len(),
            r is Ok ==> master.spec_bytes().len() <= 0xFFFF_FFFF,
            master.spec_bytes().len() > 0xFFFF_FFFF ==> r is Err,
            r is Ok ==> {
                &&& final(self)@.key == Some(argon2_key(master.spec_bytes(), final(self)@.salt))
                &&& final(self).master_v() == master.spec_bytes()
                &&& final(self)@.logins.len() == 0
            },
            r is Err ==> final(self)@.key == old(self)@.key && final(self)@.logins == old(self)@.logins,
    {
        let salt = match random_bytes(16) {
            Some(b) => b,
            None => {
                return Err("the system's random source failed".to_owned());
            },
        };
        let key = argon2_derive(master.as_bytes(), salt.as_slice());
        match key {
            Ok(k) => {
                self.salt = salt;
                self.key = Some(k);
                self.pwd = Ghost(master.spec_bytes());
                self.logins = Vec::new();
                assert(self@.logins =~= Seq::<LoginView>::empty());
                Ok(())
            },
            Err(e) => {
                self.salt = salt;
                Err(e)
            },
        }
    }

    /// Take the key, the salt and the logins of an opened file: the store
    /// is unlocked. Returns how many logins it holds.
    pub fn open_with(&mut self, opened: Opened, logins: Vec<Login>) -> (r: usize)
        requires
            opened.wf(),
        ensures
            final(self).file_v() == old(self).file_v(),
            final(self).wf(),
            r == logins@.len(),
            final(self)@.key == Some(opened.key_v()),
            final(self)@.salt == opened.salt_v(),
            final(self).master_v() == opened.pwd_v(),
            final(self)@.logins == login_views(logins@),
    {
        let n = logins.len();
        self.logins = logins;
        self.salt = opened.salt;
        self.key = Some(opened.key);
        self.pwd = opened.pwd;
        n
    }

    /// The file that holds `plain`, the logins as JSON, sealed under the
    /// store's key with a fresh nonce. An error while locked, or when the
    /// cipher refuses the message.
    pub fn seal(&self, plain: &[u8]) -> (r: Result<Vec<u8>, String>)
        requires
            self.wf(),
        ensures
            self@.key is None ==> (r matches Err(e) && e@ == "passwords are locked"@),
            r is Ok ==> self@.key is Some && plain@.len() / 64 < max_blocks(),
            plain@.len() / 64 >= max_blocks() ==> r is Err,
            r is Ok ==> exists|nonce: Seq<u8>|
                nonce.len() == nonce_len() && r->Ok_0@ == #[trigger] sealed_file(
                    self@.salt,
                    nonce,
                    chacha_seal(argon2_key(self.master_v(), self@.salt), nonce, plain@),
                ),
            r is Ok ==> self@.salt.len() == salt_len(),
    {
        match &self.key {
            None => Err("passwords are locked".to_owned()),
            Some(key) => {
                let r = seal_with(key, &self.salt, plain);
                proof {
                    if r is Ok {
                        let nonce = choose|nonce: Seq<u8>|
                            nonce.len() == nonce_len() && r->Ok_0@ == #[trigger] sealed_file(
                                self.salt@,
                                nonce,
                                chacha_seal(key@, nonce, plain@),
                            );
                        assert(key@ == argon2_key(self.master_v(), self@.salt));
                        assert(r->Ok_0@ == sealed_file(
                            self@.salt,
                            nonce,
                            chacha_seal(argon2_key(self.master_v(), self@.salt), nonce, plain@),
                        ));
                    }
                }
                r
            },
        }
    }

    /// Derive a key from a new master password and a fresh salt, and seal
    /// `plain`, the logins as JSON, under it. The store keeps its old key
    /// until `commit` hands it the new one, after the file is written.
    pub fn prepare_master(&self, master: &str, plain: &[u8]) -> (r: Result<(MasterChange, Vec<u8>), String>)
        ensures
            self@.key is None ==> (r matches Err(e) && e@ == "passwords are locked"@),
            r is Ok ==> master.spec_bytes().len() <= 0xFFFF_FFFF && plain@.len() / 64 < max_blocks(),
            !(master.spec_bytes().len() <= 0xFFFF_FFFF && plain@.len() / 64 < max_blocks()) ==> r is Err,
            r is Ok ==> {
                let (mc, file) = r->Ok_0;
                &&& mc.wf()
                &&& mc.pwd_v() == master.spec_bytes()
                &&& exists|nonce: Seq<u8>|
                    nonce.len() == nonce_len() && file@ == #[trigger] sealed_file(
                        mc.salt_v(),
                        nonce,
                        chacha_seal(mc.key_v(), nonce, plain@),
                    )
            },
    {
        if self.key.is_none() {
            return Err("passwords are locked".to_owned());
        }
        let salt = match random_bytes(16) {
            Some(b) => b,
            None => {
                return Err("the system's random source failed".to_owned());
            },
        };
        let key = match argon2_derive(master.as_bytes(), salt.as_slice()) {
            Ok(k) => k,
            Err(e) => {
                return Err(e);
            },
        };
        let file = match seal_with(&key, &salt, plain) {
            Ok(f) => f,
            Err(e) => {
                return Err(e);
            },
        };
        let mc = MasterChange { key, salt, pwd: Ghost(master.spec_bytes()) };
        proof {
            let nonce = choose|nonce: Seq<u8>|
                nonce.len() == nonce_len() && file@ == #[trigger] sealed_file(
                    mc.salt@,
                    nonce,
                    chacha_seal(mc.key@, nonce, plain@),
                );
            assert(file@ == sealed_file(mc.salt_v(), nonce, chacha_seal(mc.key_v(), nonce, plain@)));
        }
        Ok((mc, file))
    }

    /// Where the login for site `site` and user `username` stands.
    fn find_login(&self, site: &Vec<char>, username: &Vec<char>) -> (r: Option<usize>)
        ensures
            found_at(r, first_index(self@.logins, same_login(site@, username@))),
            r matches Some(i) ==> i < self@.logins.len(),
    {
        let mut i: usize = 0;
        while i < self.logins.len()
            invariant
                i <= self.logins@.len(),
                self@.logins == login_views(self.logins@),
                forall|k: int| 0 <= k < i ==> !same_login(site@, username@)(#[trigger] self@.logins[k]),
            decreases self.logins@.len() - i,
        {
            let sk = chars_of(site_key(self.logins[i].origin.as_str()).as_str());
            let un = chars_of(self.logins[i].username.as_str());
            assert(self@.logins[i as int] == self.logins@[i as int]@);
            if same_chars(&sk, site) && same_chars(&un, username) {
                proof {
                    lemma_first_index(self@.logins, same_login(site@, username@));
                }
                return Some(i);
            }
            i += 1;
        }
        proof {
            lemma_first_index(self@.logins, same_login(site@, username@));
        }
        None
    }

    /// Keep a login the page just sent, at time `now`. A known username on
    /// the site gets its password replaced; the same password again
    /// changes nothing. An error while locked.
    pub fn remember_at(&mut self, login: Login, now: u64) -> (r: Result<Change, String>)
        requires
            old(self).wf(),
        ensures
            final(self).file_v() == old(self).file_v(),
            final(self).wf(),
            final(self)@.key == old(self)@.key,
            final(self)@.salt == old(self)@.salt,
            final(self).master_v() == old(self).master_v(),
            old(self)@.key is None ==> (r matches Err(e) && e@ == "passwords are locked"@) && final(self)@.logins == old(self)@.logins,
            old(self)@.key is Some ==> (r matches Ok(c) && (final(self)@.logins, c) == remember_spec(old(self)@.logins, login@, now)),
    {
        if self.key.is_none() {
            return Err("passwords are locked".to_owned());
        }
        let site = chars_of(site_key(login.origin.as_str()).as_str());
        let user = chars_of(login.username.as_str());
        let ghost lv = login@;
        let ghost before = self@.logins;
        match self.find_login(&site, &user) {
            Some(i) => {
                if str_eq(self.logins[i].password.as_str(), login.password.as_str()) {
                    return Ok(Change::Same);
                }
                self.logins[i].password = login.password;
                self.logins[i].used = now;
                assert(self@.logins =~= before.update(i as int, LoginView { password: lv.password, used: now, ..before[i as int] }));
                Ok(Change::Updated)
            },
            None => {
                self.logins.push(Login { used: now, ..login });
                assert(self@.logins =~= before.push(LoginView { used: now, ..lv }));
                Ok(Change::New)
            },
        }
    }

    /// Keep a login the page just sent, noting the time.
    pub fn remember(&mut self, login: Login) -> (r: Result<Change, String>)
        requires
            old(self).wf(),
        ensures
            final(self).file_v() == old(self).file_v(),
            final(self).wf(),
            final(self)@.key == old(self)@.key,
            final(self)@.salt == old(self)@.salt,
            final(self).master_v() == old(self).master_v(),
            old(self)@.key is None ==> (r matches Err(e) && e@ == "passwords are locked"@) && final(self)@.logins == old(self)@.logins,
            old(self)@.key is Some ==> r is Ok && exists|t: u64|
                (final(self)@.logins, r->Ok_0) == #[trigger] remember_spec(old(self)@.logins, login@, t),
    {
        let t = now();
        self.remember_at(login, t)
    }

    /// Note that a login was filled at time `now`, so it comes first next
    /// time. True when there is such a login.
    pub fn touch_at(&mut self, origin: &str, username: &str, now: u64) -> (r: bool)
        requires
            old(self).wf(),
        ensures
            final(self).file_v() == old(self).file_v(),
            final(self).wf(),
            final(self)@.key == old(self)@.key,
            final(self)@.salt == old(self)@.salt,
            final(self).master_v() == old(self).master_v(),
            match first_index(old(self)@.logins, same_login(site_key_spec(origin@), username@)) {
                Some(i) => r && final(self)@.logins == old(self)@.logins.update(i, LoginView { used: now, ..old(self)@.logins[i] }),
                None => !r && final(self)@.logins == old(self)@.logins,
            },
    {
        let site = chars_of(site_key(origin).as_str());
        let user = chars_of(username);
        let ghost before = self@.logins;
        match self.find_login(&site, &user) {
            Some(i) => {
                self.logins[i].used = now;
                assert(self@.logins =~= before.update(i as int, LoginView { used: now, ..before[i as int] }));
                true
            },
            None => false,
        }
    }

    /// Note that a login was filled, so it comes first next time. True
    /// when there is such a login.
    pub fn touch(&mut self, origin: &str, username: &str) -> (r: bool)
        requires
            old(self).wf(),
        ensures
            final(self).file_v() == old(self).file_v(),
            final(self).wf(),
            final(self)@.key == old(self)@.key,
            final(self)@.salt == old(self)@.salt,
            final(self).master_v() == old(self).master_v(),
            match first_index(old(self)@.logins, same_login(site_key_spec(origin@), username@)) {
                Some(i) => r && final(self)@.logins == old(self)@.logins.update(
                    i,
                    LoginView { used: final(self)@.logins[i].used, ..old(self)@.logins[i] },
                ),
                None => !r && final(self)@.logins == old(self)@.logins,
            },
    {
        let t = now();
        let r = self.touch_at(origin, username, t);
        proof {
            if let Some(i) = first_index(old(self)@.logins, same_login(site_key_spec(origin@), username@)) {
                lemma_first_index(old(self)@.logins, same_login(site_key_spec(origin@), username@));
                assert(self@.logins[i].used == t);
            }
        }
        r
    }

    /// Forget the logins of user `username` on the site of `uri`. True
    /// when there were some.
    pub fn remove(&mut self, uri: &str, username: &str) -> (r: Result<bool, String>)
        requires
            old(self).wf(),
        ensures
            final(self).file_v() == old(self).file_v(),
            final(self).wf(),
            final(self)@.key == old(self)@.key,
            final(self)@.salt == old(self)@.salt,
            final(self).master_v() == old(self).master_v(),
            final(self)@.logins == keep_where(old(self)@.logins, other_login(site_key_spec(uri@), username@)),
            (r matches Ok(b) && b == (final(self)@.logins.len() != old(self)@.logins.len())),
    {
        let site = chars_of(site_key(uri).as_str());
        let user = chars_of(username);
        let ghost before = self@.logins;
        let before_len = self.logins.len();
        let mut all: Vec<Login> = Vec::new();
        std::mem::swap(&mut all, &mut self.logins);
        let mut kept: Vec<Login> = Vec::new();
        for l in it: all
            invariant
                login_views(it.seq()) == before,
                login_views(kept@) == keep_where(before.take(it.index() as int), other_login(site@, user@)),
        {
            let ghost j = it.index();
            assert(before.take(j + 1).drop_last() =~= before.take(j as int));
            assert(l@ == before[j as int]);
            let sk = chars_of(site_key(l.origin.as_str()).as_str());
            let un = chars_of(l.username.as_str());
            if !(same_chars(&sk, &site) && same_chars(&un, &user)) {
                let ghost old_kept = kept@;
                kept.push(l);
                assert(login_views(kept@) =~= login_views(old_kept).push(l@));
            }
        }
        assert(before.take(before.len() as int) =~= before);
        self.logins = kept;
        Ok(self.logins.len() != before_len)
    }

    /// The login that answers a site's HTTP password dialog for `host`:
    /// nothing while locked; else the first login for `https://host`, or
    /// failing that for `http://host`. Its username and password.
    pub fn auth_login(&self, host: &str) -> (r: Option<(String, String)>)
        ensures
            ({
                let https = sort_logins(keep_where(self@.logins, for_site_is(site_key_spec("https://"@ + host@))));
                let http = sort_logins(keep_where(self@.logins, for_site_is(site_key_spec("http://"@ + host@))));
                match r {
                    None => self@.key is None || (https.len() == 0 && http.len() == 0),
                    Some(p) => self@.key is Some && if https.len() > 0 {
                        (p.0@, p.1@) == (https[0].username, https[0].password)
                    } else {
                        http.len() > 0 && (p.0@, p.1@) == (http[0].username, http[0].password)
                    },
                }
            }),
    {
        if self.key.is_none() {
            return None;
        }
        let h = chars_of(host);
        let s1 = string_of(crate::text::concat_chars(&chars_of("https://"), &h).as_slice());
        let a = self.for_site(s1.as_str());
        if a.len() > 0 {
            assert(a@.map_values(|l: &Login| l@)[0] == a@[0]@);
            return Some((a[0].username.clone(), a[0].password.clone()));
        }
        let s2 = string_of(crate::text::concat_chars(&chars_of("http://"), &h).as_slice());
        let b = self.for_site(s2.as_str());
        if b.len() > 0 {
            assert(b@.map_values(|l: &Login| l@)[0] == b@[0]@);
            return Some((b[0].username.clone(), b[0].password.clone()));
        }
        None
    }

    /// The logins for the site of `uri`, the last used first, then by
    /// user name.
    pub fn for_site(&self, uri: &str) -> (r: Vec<&Login>)
        ensures
            r@.map_values(|l: &Login| l@) == sort_logins(keep_where(self@.logins, for_site_is(site_key_spec(uri@)))),
    {
        let site = chars_of(site_key(uri).as_str());
        let mut out: Vec<&Login> = Vec::new();
        let mut i: usize = 0;
        while i < self.logins.len()
            invariant
                i <= self.logins@.len(),
                self@.logins == login_views(self.logins@),
                out@.map_values(|l: &Login| l@) == sort_logins(keep_where(self@.logins.take(i as int), for_site_is(site@))),
            decreases self.logins@.len() - i,
        {
            assert(self@.logins.take(i + 1).drop_last() =~= self@.logins.take(i as int));
            let sk = chars_of(site_key(self.logins[i].origin.as_str()).as_str());
            if same_chars(&sk, &site) {
                let l = &self.logins[i];
                let ghost sorted = out@.map_values(|l: &Login| l@);
                let p = insert_spot(&out, l);
                out.insert(p, l);
                proof {
                    let k = keep_where(self@.logins.take(i + 1), for_site_is(site@));
                    assert(k == keep_where(self@.logins.take(i as int), for_site_is(site@)).push(l@));
                    assert(k.drop_last() =~= keep_where(self@.logins.take(i as int), for_site_is(site@)));
                    assert(k.last() == l@);
                    lemma_first_index(sorted, listed_after(l@));
                    assert(out@.map_values(|l: &Login| l@) =~= insert_login(sorted, l@));
                }
            }
            i += 1;
        }
        assert(self@.logins.take(self@.logins.len() as int) =~= self@.logins);
        out
    }

    /// Import the CSV Firefox writes from about:logins → Export. Returns
    /// how many logins were added and how many updated.
    pub fn import_csv(&mut self, text: &str) -> (r: Result<(usize, usize), String>)
        requires
            old(self).wf(),
        ensures
            final(self).file_v() == old(self).file_v(),
            final(self).wf(),
            final(self)@.key == old(self)@.key,
            final(self)@.salt == old(self)@.salt,
            final(self).master_v() == old(self).master_v(),
            r is Err ==> final(self)@.logins == old(self)@.logins,
            old(self)@.key is None ==> (r matches Err(e) && e@ == "passwords are locked"@),
            old(self)@.key is Some && csv_rows(text@).len() == 0 ==> (r matches Err(e) && e@
                == "empty file"@),
            old(self)@.key is Some && csv_rows(text@).len() > 0 ==> {
                let header = csv_rows(text@)[0];
                let u = column(header, "url"@);
                let us = column(header, "username"@);
                let pw = column(header, "password"@);
                if u is None || us is None || pw is None {
                    r matches Err(e) && e@
                        == "no url, username and password columns; export from Firefox's about:logins"@
                } else {
                    let c = Columns {
                        url: u->0,
                        username: us->0,
                        password: pw->0,
                        used: column(header, "timeLastUsed"@),
                    };
                    let (logins, added, updated) = import_rows(
                        old(self)@.logins,
                        csv_rows(text@).drop_first(),
                        c,
                    );
                    &&& r matches Ok((a, b)) && a == added && b == updated
                    &&& final(self)@.logins == logins
                }
            },
    {
        if self.key.is_none() {
            return Err("passwords are locked".to_owned());
        }
        let rows = parse_csv(text);
        if rows.len() == 0 {
            return Err("empty file".to_owned());
        }
        let ghost rv = rows_view(rows@);
        assert(rv[0] == rows@[0]@.map_values(|f: String| f@));
        let u = find_column(&rows[0], "url");
        let us = find_column(&rows[0], "username");
        let pw = find_column(&rows[0], "password");
        let (u, us, pw) = match (u, us, pw) {
            (Some(a), Some(b), Some(c)) => (a, b, c),
            _ => {
                return Err("no url, username and password columns; export from Firefox's about:logins".to_owned());
            },
        };
        let used = find_column(&rows[0], "timeLastUsed");
        let ghost c = Columns {
            url: u as int,
            username: us as int,
            password: pw as int,
            used: column(rv[0], "timeLastUsed"@),
        };
        let ghost body = rv.drop_first();
        let mut added: usize = 0;
        let mut updated: usize = 0;
        let mut k: usize = 1;
        assert(body.take(0) =~= Seq::<Seq<Seq<char>>>::empty());
        while k < rows.len()
            invariant
                1 <= k <= rows@.len(),
                rv == rows_view(rows@),
                body == rv.drop_first(),
                self.wf(),
                self@.key is Some,
                self@.key == old(self)@.key,
                self@.salt == old(self)@.salt,
                self.master_v() == old(self).master_v(),
                self.file_v() == old(self).file_v(),
                used matches Some(x) ==> c.used == Some(x as int) && x < rv[0].len(),
                used is None ==> c.used is None,
                c.url == u && c.username == us && c.password == pw,
                added + updated <= k - 1,
                import_rows(old(self)@.logins, body.take(k - 1), c) == (self@.logins, added as nat, updated as nat),
            decreases rows@.len() - k,
        {
            assert(body.take(k as int).drop_last() =~= body.take(k - 1));
            assert(body.take(k as int).last() == rv[k as int]);
            let row = &rows[k];
            assert(rv[k as int] == row@.map_values(|f: String| f@));
            let ghost before = self@.logins;
            if u < row.len() && us < row.len() && pw < row.len() {
                let origin = &row[u];
                let username = &row[us];
                let password = &row[pw];
                assert(rv[k as int][u as int] == origin@);
                assert(rv[k as int][us as int] == username@);
                assert(rv[k as int][pw as int] == password@);
                if !origin.as_str().is_empty() && !password.as_str().is_empty() {
                    let when: u64 = match used {
                        Some(x) => if x < row.len() {
                            assert(rv[k as int][x as int] == row@[x as int]@);
                            match parse_u64(&chars_of(row[x].as_str())) {
                                Some(ms) => ms / 1000,
                                None => 0,
                            }
                        } else {
                            0
                        },
                        None => 0,
                    };
                    let site = chars_of(site_key(origin.as_str()).as_str());
                    let un = chars_of(username.as_str());
                    match self.find_login(&site, &un) {
                        Some(i) => {
                            if !str_eq(self.logins[i].password.as_str(), password.as_str()) {
                                self.logins[i].password = password.clone();
                                assert(self@.logins =~= before.update(
                                    i as int,
                                    LoginView { password: password@, ..before[i as int] },
                                ));
                                updated += 1;
                            }
                        },
                        None => {
                            self.logins.push(
                                Login {
                                    origin: origin.clone(),
                                    username: username.clone(),
                                    password: password.clone(),
                                    used: when,
                                },
                            );
                            assert(self@.logins =~= before.push(
                                LoginView { origin: origin@, username: username@, password: password@, used: when },
                            ));
                            added += 1;
                        },
                    }
                }
            }
            k += 1;
        }
        assert(body.take(rows@.len() - 1) =~= body);
        Ok((added, updated))
    }

    /// Take the key and salt of a new master password.
    pub fn commit(&mut self, mc: MasterChange)
        requires
            mc.wf(),
        ensures
            final(self).file_v() == old(self).file_v(),
            final(self).wf(),
            final(self)@.key == Some(mc.key_v()),
            final(self)@.salt == mc.salt_v(),
            final(self).master_v() == mc.pwd_v(),
            final(self)@.logins == old(self)@.logins,
    {
        self.key = Some(mc.key);
        self.salt = mc.salt;
        self.pwd = mc.pwd;
    }
}

/// `plain` sealed under `key` with a fresh nonce, framed as a password
/// file with `salt`.
fn seal_with(key: &Vec<u8>, salt: &Vec<u8>, plain: &[u8]) -> (r: Result<Vec<u8>, String>)
    requires
        key@.len() == 32,
    ensures
        r is Ok ==> plain@.len() / 64 < max_blocks(),
        plain@.len() / 64 >= max_blocks() ==> r is Err,
        r is Ok ==> exists|nonce: Seq<u8>|
            nonce.len() == nonce_len() && r->Ok_0@ == #[trigger] sealed_file(
                salt@,
                nonce,
                chacha_seal(key@, nonce, plain@),
            ),
{
    let nonce = match random_bytes(12) {
        Some(b) => b,
        None => {
            return Err("the system's random source failed".to_owned());
        },
    };
    let body = match chacha_encrypt(key.as_slice(), nonce.as_slice(), plain) {
        Ok(b) => b,
        Err(e) => {
            return Err(e);
        },
    };
    let mut out = magic_bytes();
    push_bytes(&mut out, salt.as_slice());
    push_bytes(&mut out, nonce.as_slice());
    push_bytes(&mut out, body.as_slice());
    assert(out@ == sealed_file(salt@, nonce@, chacha_seal(key@, nonce@, plain@)));
    Ok(out)
}

/// A row of the passwords page: the site and the username.
pub open spec fn row_of(l: LoginView) -> (Seq<char>, Seq<char>) {
    (site_key_spec(l.origin), l.username)
}

/// The passwords page's order: by site, then by username.
pub open spec fn row_before(a: (Seq<char>, Seq<char>), b: (Seq<char>, Seq<char>)) -> bool {
    seq_lt(a.0, b.0) || (a.0 == b.0 && seq_lt(a.1, b.1))
}

/// Holds of the rows `x` goes before.
pub open spec fn row_after(x: (Seq<char>, Seq<char>)) -> spec_fn((Seq<char>, Seq<char>)) -> bool {
    |y: (Seq<char>, Seq<char>)| row_before(x, y)
}

/// The rows `s` in the page's order, one put in after another; rows that
/// compare equal keep their order.
pub open spec fn rows_in_order(s: Seq<(Seq<char>, Seq<char>)>) -> Seq<(Seq<char>, Seq<char>)>
    decreases s.len(),
{
    if s.len() == 0 {
        Seq::empty()
    } else {
        let p = rows_in_order(s.drop_last());
        let x = s.last();
        match first_index(p, row_after(x)) {
            Some(i) => p.insert(i, x),
            None => p.push(x),
        }
    }
}

/// The login the page just sent is worth asking about: it has a password
/// and a real origin, and it is not saved already.
pub open spec fn worth_saving(store: StoreView, login: LoginView) -> bool {
    &&& login.password.len() > 0
    &&& login.origin.len() > 0
    &&& login.origin != "null"@
    &&& !(store.key is Some && exists|i: int|
        0 <= i < store.logins.len() && site_key_spec(#[trigger] store.logins[i].origin) == site_key_spec(
            login.origin,
        ) && store.logins[i].username == login.username && store.logins[i].password == login.password)
}

/// Row `a` comes before row `b` on the passwords page.
fn row_lt(a: &(String, String), b: &(String, String)) -> (r: bool)
    ensures
        r == row_before((a.0@, a.1@), (b.0@, b.1@)),
{
    let xs = chars_of(a.0.as_str());
    let ys = chars_of(b.0.as_str());
    chars_lt(&xs, &ys) || (same_chars(&xs, &ys) && chars_lt(&chars_of(a.1.as_str()), &chars_of(b.1.as_str())))
}

impl Store {
    /// The rows of the passwords page: each login's site and username, by
    /// site and then by username. The passwords themselves stay out.
    pub fn listing(&self) -> (r: Vec<(String, String)>)
        ensures
            r@.map_values(|x: (String, String)| (x.0@, x.1@)) == rows_in_order(
                self@.logins.map_values(|l: LoginView| row_of(l)),
            ),
    {
        let ghost rows = self@.logins.map_values(|l: LoginView| row_of(l));
        let mut out: Vec<(String, String)> = Vec::new();
        let mut i: usize = 0;
        assert(out@.map_values(|x: (String, String)| (x.0@, x.1@)) =~= rows_in_order(rows.take(0)));
        while i < self.logins.len()
            invariant
                i <= self.logins@.len(),
                rows == self@.logins.map_values(|l: LoginView| row_of(l)),
                self@.logins == login_views(self.logins@),
                out@.map_values(|x: (String, String)| (x.0@, x.1@)) == rows_in_order(rows.take(i as int)),
            decreases self.logins@.len() - i,
        {
            let x = (site_key(self.logins[i].origin.as_str()), self.logins[i].username.clone());
            assert((x.0@, x.1@) == rows[i as int]);
            let ghost sv = out@.map_values(|x: (String, String)| (x.0@, x.1@));
            let mut p: usize = 0;
            while p < out.len() && !row_lt(&x, &out[p])
                invariant
                    p <= out@.len(),
                    sv == out@.map_values(|x: (String, String)| (x.0@, x.1@)),
                    forall|q: int| 0 <= q < p ==> !row_after((x.0@, x.1@))(#[trigger] sv[q]),
                decreases out@.len() - p,
            {
                assert(sv[p as int] == (out@[p as int].0@, out@[p as int].1@));
                p += 1;
            }
            proof {
                lemma_first_index(sv, row_after((x.0@, x.1@)));
            }
            if p < out.len() {
                assert(sv[p as int] == (out@[p as int].0@, out@[p as int].1@));
                let hit = row_lt(&x, &out[p]);
                assert(hit);
            }
            let at_end = p == out.len();
            assert(rows.take(i + 1).drop_last() =~= rows.take(i as int));
            assert(rows.take(i + 1).last() == rows[i as int]);
            let ghost xv = (x.0@, x.1@);
            out.insert(p, x);
            if at_end {
                assert(out@.map_values(|x: (String, String)| (x.0@, x.1@)) =~= sv.push(xv));
            } else {
                assert(out@.map_values(|x: (String, String)| (x.0@, x.1@)) =~= sv.insert(p as int, xv));
            }
            i += 1;
        }
        assert(rows.take(rows.len() as int) =~= rows);
        out
    }

    /// Whether to ask if the login a page just sent should be saved.
    pub fn offer_to_save(&self, login: &Login) -> (r: bool)
        ensures
            r == worth_saving(self@, login@),
    {
        let pw = chars_of(login.password.as_str());
        let origin = chars_of(login.origin.as_str());
        if pw.len() == 0 || origin.len() == 0 || crate::text::str_is("null", &origin) {
            return false;
        }
        if self.key.is_none() {
            return true;
        }
        let site = chars_of(site_key(login.origin.as_str()).as_str());
        assert(self@.key is Some);
        let mut i: usize = 0;
        while i < self.logins.len()
            invariant
                i <= self.logins@.len(),
                self@.key is Some,
                self@.logins == login_views(self.logins@),
                site@ == site_key_spec(login.origin@),
                forall|k: int| 0 <= k < i ==> !(site_key_spec(#[trigger] self@.logins[k].origin) == site_key_spec(
                    login.origin@,
                ) && self@.logins[k].username == login.username@ && self@.logins[k].password
                    == login.password@),
            decreases self.logins@.len() - i,
        {
            let l = &self.logins[i];
            assert(self@.logins[i as int] == l@);
            let ls = site_key(l.origin.as_str());
            if crate::text::str_is(ls.as_str(), &site) && crate::text::str_eq(
                l.username.as_str(),
                login.username.as_str(),
            ) && crate::text::str_eq(l.password.as_str(), login.password.as_str()) {
                assert(self@.key is Some);
                assert(site_key_spec(self@.logins[i as int].origin) == site_key_spec(login.origin@));
                return false;
            }
            i += 1;
        }
        true
    }
}

/// Keeping the same login twice: the second time changes nothing.
pub proof fn law_same_login_twice_is_no_change(logins: Seq<LoginView>, login: LoginView, first: u64, second: u64)
    ensures
        remember_spec(remember_spec(logins, login, first).0, login, second) == (
            remember_spec(logins, login, first).0,
            Change::Same,
        ),
{
    let p = same_login(site_key_spec(login.origin), login.username);
    lemma_first_index(logins, p);
    let l1 = remember_spec(logins, login, first).0;
    lemma_first_index(l1, p);
    match first_index(logins, p) {
        Some(i) => {
            if logins[i].password != login.password {
                assert(p(l1[i]));
                match first_index(l1, p) {
                    Some(j) => {
                        if j < i {
                            assert(l1[j] == logins[j]);
                        }
                        assert(j == i);
                    },
                    None => {},
                }
            }
        },
        None => {
            let n = logins.len() as int;
            assert(p(l1[n]));
            match first_index(l1, p) {
                Some(j) => {
                    if j < n {
                        assert(l1[j] == logins[j]);
                    }
                    assert(j == n);
                },
                None => {},
            }
        },
    }
}

} // verus!
