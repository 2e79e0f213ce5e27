//! Tabs and tab groups.
//!
//! Groups work like Firefox's: a named, coloured run of tabs that can be
//! folded away. Tabs of one group sit next to each other.

use vstd::prelude::*;
use crate::seqs::{
    found_at, first_index, indices_where, keep_where, last_index, lemma_first_index, lemma_last_index,
};
use vstd::arithmetic::div_mod::{lemma_fundamental_div_mod, lemma_fundamental_div_mod_converse};
use crate::text::{
    chars_of, decimal, eq_ascii_nocase, eq_ascii_nocase_chars, lower_ascii, lower_ascii_chars,
    push_decimal, str_eq, str_is, string_of, trim, trim_chars, trim_str,
};

verus! {

/// The names of the group colours, in the order new groups get them.
pub open spec fn color_names() -> Seq<Seq<char>> {
    seq![
        "blue"@, "red"@, "yellow"@, "green"@, "pink"@, "purple"@, "orange"@, "cyan"@, "gray"@,
    ]
}

/// The `#rrggbb` value of each colour name, in the same order.
pub open spec fn color_values() -> Seq<Seq<char>> {
    seq![
        "#4a90e2"@, "#e05252"@, "#e0b93a"@, "#4caf50"@, "#e06fb0"@, "#9b6fe0"@, "#f0883e"@,
        "#3ac7c7"@, "#9aa0a6"@,
    ]
}

/// The name of colour `i`.
pub fn color_name(i: usize) -> (r: &'static str)
    requires
        i < 9,
    ensures
        r@ == color_names()[i as int],
{
    match i {
        0 => "blue",
        1 => "red",
        2 => "yellow",
        3 => "green",
        4 => "pink",
        5 => "purple",
        6 => "orange",
        7 => "cyan",
        _ => "gray",
    }
}

/// The `#rrggbb` value of colour `i`.
pub fn color_value(i: usize) -> (r: &'static str)
    requires
        i < 9,
    ensures
        r@ == color_values()[i as int],
{
    match i {
        0 => "#4a90e2",
        1 => "#e05252",
        2 => "#e0b93a",
        3 => "#4caf50",
        4 => "#e06fb0",
        5 => "#9b6fe0",
        6 => "#f0883e",
        7 => "#3ac7c7",
        _ => "#9aa0a6",
    }
}

pub open spec fn is_hex_digit(c: char) -> bool {
    ||| '0' as u32 <= c as u32 <= '9' as u32
    ||| 'a' as u32 <= c as u32 <= 'f' as u32
    ||| 'A' as u32 <= c as u32 <= 'F' as u32
}

/// A `#rrggbb` value.
pub open spec fn is_hex(s: Seq<char>) -> bool {
    &&& s.len() == 7
    &&& s[0] == '#'
    &&& forall|i: int| 1 <= i < 7 ==> is_hex_digit(#[trigger] s[i])
}

/// A colour a group can be given: a name from the list or `#rrggbb`.
pub open spec fn valid_color(s: Seq<char>) -> bool {
    is_hex(s) || color_names().contains(s)
}

/// Holds of the sequence `name` itself.
pub open spec fn is_seq(name: Seq<char>) -> spec_fn(Seq<char>) -> bool {
    |n: Seq<char>| n == name
}

/// Where `name` stands in the list of colour names.
pub open spec fn color_index(name: Seq<char>) -> Option<int> {
    first_index(color_names(), is_seq(name))
}

/// What `color_hex` gives for a colour.
pub open spec fn color_hex_spec(name: Seq<char>) -> Seq<char> {
    if is_hex(name) {
        lower_ascii(name)
    } else {
        match color_index(name) {
            Some(i) => color_values()[i],
            None => "#9aa0a6"@,
        }
    }
}

fn hex_digit(c: char) -> (r: bool)
    ensures
        r == is_hex_digit(c),
{
    ('0' <= c && c <= '9') || ('a' <= c && c <= 'f') || ('A' <= c && c <= 'F')
}

fn is_hex_chars(s: &Vec<char>) -> (r: bool)
    ensures
        r == is_hex(s@),
{
    if s.len() != 7 || s[0] != '#' {
        return false;
    }
    let mut i: usize = 1;
    while i < 7
        invariant
            1 <= i <= 7,
            s@.len() == 7,
            forall|k: int| 1 <= k < i ==> is_hex_digit(#[trigger] s@[k]),
        decreases 7 - i,
    {
        if !hex_digit(s[i]) {
            return false;
        }
        i += 1;
    }
    true
}

/// Where `name` stands in the list of colour names, if it is one.
fn find_color(name: &Vec<char>) -> (r: Option<usize>)
    ensures
        r matches Some(i) ==> i < 9 && color_index(name@) == Some(i as int),
        r is None ==> color_index(name@) is None,
{
    proof {
        lemma_first_index(color_names(), is_seq(name@));
    }
    let mut i: usize = 0;
    while i < 9
        invariant
            i <= 9,
            forall|k: int| 0 <= k < i ==> color_names()[k] != name@,
        decreases 9 - i,
    {
        if str_is(color_name(i), name) {
            assert(color_names()[i as int] == name@);
            proof {
                lemma_first_index(color_names(), is_seq(name@));
            }
            return Some(i);
        }
        i += 1;
    }
    proof {
        lemma_first_index(color_names(), is_seq(name@));
    }
    None
}

fn valid_color_chars(c: &Vec<char>) -> (r: bool)
    ensures
        r == valid_color(c@),
{
    proof {
        lemma_first_index(color_names(), is_seq(c@));
    }
    is_hex_chars(c) || find_color(c).is_some()
}

/// A colour name from the list, or a `#rrggbb` value, as `#rrggbb`.
pub fn color_hex(name: &str) -> (r: String)
    ensures
        r@ == color_hex_spec(name@),
{
    let v = chars_of(name);
    if is_hex_chars(&v) {
        return string_of(lower_ascii_chars(&v).as_slice());
    }
    match find_color(&v) {
        Some(i) => color_value(i).to_owned(),
        None => "#9aa0a6".to_owned(),
    }
}


#[derive(Clone, PartialEq, Debug)]
pub struct Group {
    pub id: u64,
    pub name: String,
    pub color: String,
    pub collapsed: bool,
}

#[derive(Clone, PartialEq, Debug)]
pub struct Tab {
    pub id: u64,
    pub uri: String,
    pub title: String,
    pub group: Option<u64>,
    /// The tab this one was opened from as a popup; closing returns there.
    pub opener: Option<u64>,
    /// Restored from the session but not loaded yet.
    pub pending: bool,
}

#[derive(Debug)]
pub struct Tabs {
    pub tabs: Vec<Tab>,
    pub groups: Vec<Group>,
    pub active: usize,
    /// The id the next tab opened gets.
    pub next_id: u64,
}

/// Holds of the index `i` itself.
pub open spec fn is_index(i: usize) -> spec_fn(usize) -> bool {
    |k: usize| k == i
}

/// Holds of a tab with id `id`.
pub open spec fn tab_id_is(id: u64) -> spec_fn(Tab) -> bool {
    |t: Tab| t.id == id
}

/// Holds of a tab in group `gid`.
pub open spec fn tab_in(gid: u64) -> spec_fn(Tab) -> bool {
    |t: Tab| t.group == Some(gid)
}

/// Holds of a group with id `id`.
pub open spec fn group_id_is(id: u64) -> spec_fn(Group) -> bool {
    |g: Group| g.id == id
}

/// Holds of a group called `name`, ASCII case aside.
pub open spec fn group_named(name: Seq<char>) -> spec_fn(Group) -> bool {
    |g: Group| eq_ascii_nocase(g.name@, name)
}

/// Every group's tabs sit next to each other: between two tabs of one
/// group there is no tab of another group, nor one without a group.
pub open spec fn runs_contiguous(tabs: Seq<Tab>) -> bool {
    forall|i: int, j: int, k: int|
        0 <= i < j < k < tabs.len() && (#[trigger] tabs[i]).group is Some && tabs[i].group
            == (#[trigger] tabs[k]).group ==> (#[trigger] tabs[j]).group == tabs[i].group
}

/// Every tab's group is one of `groups`.
pub open spec fn groups_known(tabs: Seq<Tab>, groups: Seq<Group>) -> bool {
    forall|i: int|
        0 <= i < tabs.len() && (#[trigger] tabs[i]).group is Some ==> exists|j: int|
            0 <= j < groups.len() && (#[trigger] groups[j]).id == tabs[i].group->0
}

/// Some tab of `tabs` is in group `g`.
pub open spec fn group_used(tabs: Seq<Tab>, g: u64) -> bool {
    exists|i: int| 0 <= i < tabs.len() && (#[trigger] tabs[i]).group == Some(g)
}

/// Putting `t` at `at` in `tabs` neither lands inside another group's run
/// nor away from its own group's run.
pub open spec fn fits_at(tabs: Seq<Tab>, at: int, t: Tab) -> bool {
    &&& !(0 < at < tabs.len() && tabs[at - 1].group is Some && tabs[at - 1].group == tabs[at].group
        && t.group != tabs[at].group)
    &&& (t.group is None || !group_used(tabs, t.group->0) || (0 < at && tabs[at - 1].group
        == t.group) || (at < tabs.len() && tabs[at].group == t.group))
}

/// Taking a tab out leaves every group in one run.
pub proof fn lemma_remove_keeps_runs(s: Seq<Tab>, x: int)
    requires
        runs_contiguous(s),
        0 <= x < s.len(),
    ensures
        runs_contiguous(s.remove(x)),
{
    let r = s.remove(x);
    assert forall|i: int, j: int, k: int|
        0 <= i < j < k < r.len() && (#[trigger] r[i]).group is Some && r[i].group == (
        #[trigger] r[k]).group implies (#[trigger] r[j]).group == r[i].group by {
        let oi = if i < x {
            i
        } else {
            i + 1
        };
        let oj = if j < x {
            j
        } else {
            j + 1
        };
        let ok = if k < x {
            k
        } else {
            k + 1
        };
        assert(r[i] == s[oi]);
        assert(r[j] == s[oj]);
        assert(r[k] == s[ok]);
        assert(s[oj].group == s[oi].group);
    }
}

/// Putting a tab where it fits leaves every group in one run.
pub proof fn lemma_insert_keeps_runs(s: Seq<Tab>, at: int, t: Tab)
    requires
        runs_contiguous(s),
        0 <= at <= s.len(),
        fits_at(s, at, t),
    ensures
        runs_contiguous(s.insert(at, t)),
{
    let n = s.insert(at, t);
    assert forall|i: int, j: int, k: int|
        0 <= i < j < k < n.len() && (#[trigger] n[i]).group is Some && n[i].group == (
        #[trigger] n[k]).group implies (#[trigger] n[j]).group == n[i].group by {
        let g = n[i].group;
        if j == at {
            assert(n[i] == s[i]);
            assert(n[k] == s[k - 1]);
            if i < at - 1 {
                assert(s[at - 1].group == g);
            }
            if at < k - 1 {
                assert(s[at].group == g);
            }
        } else if i == at {
            assert(n[j] == s[j - 1]);
            assert(n[k] == s[k - 1]);
            assert(group_used(s, g->0));
            if 0 < at && s[at - 1].group == t.group {
                assert(s[j - 1].group == g);
            } else {
                assert(s[at].group == g);
                if at < j - 1 {
                    assert(s[j - 1].group == g);
                }
            }
        } else if k == at {
            assert(n[i] == s[i]);
            assert(n[j] == s[j]);
            assert(group_used(s, g->0));
            if at < s.len() && s[at].group == t.group {
                assert(s[j].group == g);
            } else {
                assert(s[at - 1].group == g);
                if j < at - 1 {
                    assert(s[j].group == g);
                }
            }
        } else {
            let oi = if i < at {
                i
            } else {
                i - 1
            };
            let oj = if j < at {
                j
            } else {
                j - 1
            };
            let ok = if k < at {
                k
            } else {
                k - 1
            };
            assert(n[i] == s[oi]);
            assert(n[j] == s[oj]);
            assert(n[k] == s[ok]);
            assert(s[oj].group == s[oi].group);
        }
    }
}

/// The largest group id, or 0 when there are no groups.
pub open spec fn max_group_id(gs: Seq<Group>) -> u64
    decreases gs.len(),
{
    if gs.len() == 0 {
        0
    } else {
        let m = max_group_id(gs.drop_last());
        if gs.last().id > m {
            gs.last().id
        } else {
            m
        }
    }
}

/// The colours the groups have.
pub open spec fn used_colors(gs: Seq<Group>) -> Seq<Seq<char>> {
    gs.map_values(|g: Group| g.color@)
}

/// Holds of a colour name that no group has.
pub open spec fn unused_in(used: Seq<Seq<char>>) -> spec_fn(Seq<char>) -> bool {
    |n: Seq<char>| !used.contains(n)
}

/// The colour a new group gets: the first of the list no group has, or
/// else the list taken round by the number of groups.
pub open spec fn new_group_color(gs: Seq<Group>) -> Seq<char> {
    match first_index(color_names(), unused_in(used_colors(gs))) {
        Some(i) => color_names()[i],
        None => color_names()[(gs.len() % 9) as int],
    }
}

/// A group called `name` can be had from `gs`: there is one, or a new id
/// is left for it.
pub open spec fn can_make_group(gs: Seq<Group>, name: Seq<char>) -> bool {
    first_index(gs, group_named(trim(name))) is Some || max_group_id(gs) < u64::MAX
}

/// `new` is `old` after the group called `name` was found or made, with
/// `color` applied when it is a valid colour, and `gid` is its id.
pub open spec fn group_ensured(
    old: Seq<Group>,
    new: Seq<Group>,
    name: Seq<char>,
    color: Seq<char>,
    gid: u64,
) -> bool {
    let n = trim(name);
    match first_index(old, group_named(n)) {
        Some(i) => {
            &&& gid == old[i].id
            &&& new.len() == old.len()
            &&& forall|j: int| 0 <= j < old.len() && j != i ==> new[j] == old[j]
            &&& new[i].id == old[i].id
            &&& new[i].name == old[i].name
            &&& new[i].collapsed == old[i].collapsed
            &&& if valid_color(color) {
                new[i].color@ == color
            } else {
                new[i].color == old[i].color
            }
        },
        None => {
            &&& gid == max_group_id(old) + 1
            &&& new.len() == old.len() + 1
            &&& new.drop_last() == old
            &&& new.last().id == gid
            &&& new.last().name@ == n
            &&& new.last().color@ == (if valid_color(color) {
                color
            } else {
                new_group_color(old)
            })
            &&& !new.last().collapsed
        },
    }
}

/// `new` is `old` with the first group of id `gid`, if any, changed by
/// `change` and all else kept.
pub open spec fn group_changed(
    old: Seq<Group>,
    new: Seq<Group>,
    gid: u64,
    change: spec_fn(Group, Group) -> bool,
) -> bool {
    &&& new.len() == old.len()
    &&& match first_index(old, group_id_is(gid)) {
        Some(i) => {
            &&& forall|j: int| 0 <= j < old.len() && j != i ==> new[j] == old[j]
            &&& new[i].id == old[i].id
            &&& change(old[i], new[i])
        },
        None => new == old,
    }
}

/// No tab of `tabs` is in group `g`.
pub open spec fn group_empty(tabs: Seq<Tab>) -> spec_fn(Group) -> bool {
    |g: Group| !group_used(tabs, g.id)
}

/// Holds of a group whose id is not `id`.
pub open spec fn group_id_not(id: u64) -> spec_fn(Group) -> bool {
    |g: Group| g.id != id
}

/// The ids of the groups never shrink below one another: `new` keeps
/// every id `old` has.
pub open spec fn ids_kept(old: Seq<Group>, new: Seq<Group>) -> bool {
    forall|j: int| 0 <= j < old.len() ==> has_group_id(new, (#[trigger] old[j]).id)
}

/// Some group has id `id`.
pub open spec fn has_group_id(gs: Seq<Group>, id: u64) -> bool {
    exists|k: int| 0 <= k < gs.len() && (#[trigger] gs[k]).id == id
}

/// Every group id `old` has, `new` has too, so the tabs' groups stay known.
pub proof fn lemma_ids_kept(tabs: Seq<Tab>, old: Seq<Group>, new: Seq<Group>)
    requires
        groups_known(tabs, old),
        ids_kept(old, new),
    ensures
        groups_known(tabs, new),
{
    assert forall|i: int| 0 <= i < tabs.len() && (#[trigger] tabs[i]).group is Some implies exists|k: int|
        0 <= k < new.len() && (#[trigger] new[k]).id == tabs[i].group->0 by {
        let j = choose|j: int| 0 <= j < old.len() && (#[trigger] old[j]).id == tabs[i].group->0;
        assert(has_group_id(new, old[j].id));
    }
}

/// No index is listed exactly when `p` holds nowhere.
pub proof fn lemma_indices_where_empty<T>(s: Seq<T>, p: spec_fn(T) -> bool)
    ensures
        indices_where(s, p).len() == 0 <==> forall|i: int| 0 <= i < s.len() ==> !p(#[trigger] s[i]),
    decreases s.len(),
{
    if s.len() > 0 {
        lemma_indices_where_empty(s.drop_last(), p);
        assert forall|i: int| 0 <= i < s.len() - 1 implies s[i] == s.drop_last()[i] by {}
    }
}

/// Where a tab joining group `gid` lands among the other tabs: right
/// after the group's last tab; when the group has none, where it stood,
/// unless that is inside the run of the group it leaves, and then right
/// after that run, so that no group is split.
pub open spec fn join_spot(rest: Seq<Tab>, gid: u64, idx: int) -> int {
    match last_index(rest, tab_in(gid)) {
        Some(l) => l + 1,
        None => if idx < rest.len() {
            if 0 < idx && rest[idx - 1].group is Some && rest[idx - 1].group == rest[idx].group {
                match last_index(rest, tab_in(rest[idx - 1].group->0)) {
                    Some(l) => l + 1,
                    None => idx,
                }
            } else {
                idx
            }
        } else {
            rest.len() as int
        },
    }
}

/// The group of the current tab, if it has one.
pub open spec fn current_group(tabs: Seq<Tab>, active: int) -> Option<u64> {
    if 0 <= active < tabs.len() {
        tabs[active].group
    } else {
        None
    }
}

/// What the groups listing says of group `g`: its name, how many tabs it
/// has, its colour, and whether it is folded.
pub open spec fn group_summary(tabs: Seq<Tab>, g: Group) -> Seq<char> {
    g.name@ + " ("@ + decimal(indices_where(tabs, tab_in(g.id)).len()) + ", "@ + g.color@ + (if g.collapsed {
        ", folded"@
    } else {
        Seq::empty()
    }) + ")"@
}

/// The groups listed in order, parted by a middle dot.
pub open spec fn groups_listing(tabs: Seq<Tab>, gs: Seq<Group>) -> Seq<char>
    decreases gs.len(),
{
    if gs.len() == 0 {
        Seq::empty()
    } else if gs.len() == 1 {
        group_summary(tabs, gs[0])
    } else {
        groups_listing(tabs, gs.drop_last()) + "  ·  "@ + group_summary(tabs, gs.last())
    }
}

/// Where the current tab is after the tabs moved: the tab with its id,
/// or the first tab when there is none.
pub open spec fn index_or_first(tabs: Seq<Tab>, id: u64) -> int {
    match first_index(tabs, tab_id_is(id)) {
        Some(k) => k,
        None => 0,
    }
}

/// Moving `t` out of `s` at `x` and back in at `at`, with a new group,
/// keeps every tab's id below `bound`.
pub proof fn lemma_move_keeps_ids(s: Seq<Tab>, x: int, at: int, t: Tab, bound: u64)
    requires
        0 <= x < s.len(),
        0 <= at < s.len(),
        t.id == s[x].id,
        forall|i: int| 0 <= i < s.len() ==> (#[trigger] s[i]).id < bound,
    ensures
        forall|i: int| 0 <= i < s.len() ==> (#[trigger] s.remove(x).insert(at, t)[i]).id < bound,
{
    let n = s.remove(x).insert(at, t);
    assert forall|i: int| 0 <= i < s.len() implies (#[trigger] n[i]).id < bound by {
        let r = s.remove(x);
        if i < at {
            assert(n[i] == r[i]);
            if i < x {
                assert(r[i] == s[i]);
            } else {
                assert(r[i] == s[i + 1]);
            }
        } else if i > at {
            assert(n[i] == r[i - 1]);
            if i - 1 < x {
                assert(r[i - 1] == s[i - 1]);
            } else {
                assert(r[i - 1] == s[i]);
            }
        }
    }
}

/// Moving a tab out and back in with its group changed to one the groups
/// know, or to none, keeps every tab's group known.
pub proof fn lemma_move_keeps_known(s: Seq<Tab>, x: int, at: int, t: Tab, gs: Seq<Group>)
    requires
        0 <= x < s.len(),
        0 <= at < s.len(),
        groups_known(s, gs),
        t.group is Some ==> exists|k: int| 0 <= k < gs.len() && (#[trigger] gs[k]).id == t.group->0,
    ensures
        groups_known(s.remove(x).insert(at, t), gs),
{
    let n = s.remove(x).insert(at, t);
    assert forall|i: int| 0 <= i < n.len() && (#[trigger] n[i]).group is Some implies exists|k: int|
        0 <= k < gs.len() && (#[trigger] gs[k]).id == n[i].group->0 by {
        let r = s.remove(x);
        if i < at {
            assert(n[i] == r[i]);
            if i < x {
                assert(r[i] == s[i]);
            } else {
                assert(r[i] == s[i + 1]);
            }
        } else if i > at {
            assert(n[i] == r[i - 1]);
            if i - 1 < x {
                assert(r[i - 1] == s[i - 1]);
            } else {
                assert(r[i - 1] == s[i]);
            }
        }
    }
}

/// The remainder of `a / n` with the sign of `a`, as Rust's `%` gives it.
pub open spec fn rem_trunc(a: int, n: int) -> int {
    if a >= 0 {
        a % n
    } else {
        -((-a) % n)
    }
}

/// The remainder of a negative number, from that of its negation.
pub proof fn lemma_mod_of_negative(x: int, n: int)
    requires
        x < 0,
        n > 0,
    ensures
        x % n == (if (-x) % n == 0 {
            0
        } else {
            n - (-x) % n
        }),
{
    let q = (-x) / n;
    let r = (-x) % n;
    lemma_fundamental_div_mod(-x, n);
    if r == 0 {
        assert(x == (-q) * n + 0) by (nonlinear_arith)
            requires
                -x == n * q + r,
                r == 0,
        ;
        lemma_fundamental_div_mod_converse(x, n, -q, 0);
    } else {
        assert(x == (-q - 1) * n + (n - r)) by (nonlinear_arith)
            requires
                -x == n * q + r,
        ;
        lemma_fundamental_div_mod_converse(x, n, -q - 1, n - r);
    }
}

/// The largest tab id, or 0 when there are no tabs.
pub open spec fn max_tab_id(ts: Seq<Tab>) -> u64
    decreases ts.len(),
{
    if ts.len() == 0 {
        0
    } else {
        let m = max_tab_id(ts.drop_last());
        if ts.last().id > m {
            ts.last().id
        } else {
            m
        }
    }
}

proof fn lemma_max_tab_id(ts: Seq<Tab>)
    ensures
        forall|i: int| 0 <= i < ts.len() ==> (#[trigger] ts[i]).id <= max_tab_id(ts),
    decreases ts.len(),
{
    if ts.len() > 0 {
        lemma_max_tab_id(ts.drop_last());
        assert forall|i: int| 0 <= i < ts.len() - 1 implies ts[i] == ts.drop_last()[i] by {}
    }
}

/// A saved tab as a restored session has it: not loaded yet, and out of
/// its group when `groups` no longer has that group.
pub open spec fn restored(t: Tab, groups: Seq<Group>) -> Tab {
    Tab {
        pending: true,
        group: if t.group is Some && has_group_id(groups, t.group->0) {
            t.group
        } else {
            None
        },
        ..t
    }
}

/// A session saved and restored comes back as it was: every tab with its
/// id, address, title and group, only not loaded yet; and the ids handed
/// out next are none of the saved tabs' ids.
pub proof fn law_session_round_trips(tabs: Seq<Tab>, groups: Seq<Group>)
    requires
        groups_known(tabs, groups),
    ensures
        forall|i: int|
            0 <= i < tabs.len() ==> #[trigger] restored(tabs[i], groups) == (Tab { pending: true, ..tabs[i] }),
        forall|i: int| 0 <= i < tabs.len() ==> (#[trigger] tabs[i]).id < max_tab_id(tabs) + 1,
{
    lemma_max_tab_id(tabs);
    assert forall|i: int| 0 <= i < tabs.len() implies #[trigger] restored(tabs[i], groups) == (Tab {
        pending: true,
        ..tabs[i]
    }) by {
        if tabs[i].group is Some {
            let j = choose|j: int| 0 <= j < groups.len() && (#[trigger] groups[j]).id == tabs[i].group->0;
            assert(has_group_id(groups, tabs[i].group->0));
        }
    }
}

/// The group a moved tab ends up in, from the groups of the tabs it
/// lands between: its own when it lands next to its own group, the one it
/// lands inside of, or none.
pub open spec fn landing_group(own: Option<u64>, before: Option<u64>, after: Option<u64>) -> Option<u64> {
    if own is Some && (before == own || after == own) {
        own
    } else if before is Some && before == after {
        before
    } else {
        None
    }
}

/// A tab given the group it lands in fits where it lands.
pub proof fn lemma_landing_fits(rest: Seq<Tab>, to: int, t: Tab, own: Option<u64>)
    requires
        0 <= to <= rest.len(),
        t.group == landing_group(
            own,
            if to > 0 {
                rest[to - 1].group
            } else {
                None
            },
            if to < rest.len() {
                rest[to].group
            } else {
                None
            },
        ),
    ensures
        fits_at(rest, to, t),
{
}

/// Where the current tab is after the tab at `idx` moved to `to`.
pub open spec fn active_after_move(active: int, idx: int, to: int) -> int {
    if active == idx {
        to
    } else if idx < active && to >= active {
        active - 1
    } else if idx > active && to <= active {
        active + 1
    } else {
        active
    }
}

/// Where a new tab goes: after the current one.
pub open spec fn open_at(len: nat, active: int) -> int {
    if len == 0 {
        0
    } else {
        active + 1
    }
}

/// Where the focus goes when the tab at `idx` closes and `back` is the
/// index of its opener among the tabs that are left, if it is the current
/// one and was opened as a popup.
pub open spec fn active_after_close(active: int, idx: int, left: nat, back: Option<int>) -> int {
    let moved = if left == 0 {
        0
    } else if idx < active || active >= left {
        let a = if active > 0 {
            active - 1
        } else {
            0
        };
        if a < left - 1 {
            a
        } else {
            left - 1
        }
    } else {
        active
    };
    if idx == active && back is Some {
        back->0
    } else {
        moved
    }
}

/// The tabs that show below `n` are at most `n`.
pub proof fn lemma_shown_below_len(t: &Tabs, n: nat)
    ensures
        t.shown_below(n).len() <= n,
        forall|i: int| 0 <= i < t.shown_below(n).len() ==> (#[trigger] t.shown_below(n)[i]) < n,
    decreases n,
{
    if n > 0 {
        lemma_shown_below_len(t, (n - 1) as nat);
    }
}

impl Default for Tabs {
    fn default() -> (r: Tabs)
        ensures
            r.tabs@.len() == 0,
            r.groups@.len() == 0,
            r.active == 0,
            r.next_id == 0,
            r.wf(),
    {
        Tabs { tabs: Vec::new(), groups: Vec::new(), active: 0, next_id: 0 }
    }
}

impl Tabs {
    /// The current tab is one of the tabs when there are any, and every
    /// tab's id is below the next one to hand out.
    pub open spec fn wf(&self) -> bool {
        &&& (self.tabs.len() > 0 ==> self.active < self.tabs.len())
        &&& forall|i: int| 0 <= i < self.tabs.len() ==> (#[trigger] self.tabs[i]).id < self.next_id
    }

    pub fn len(&self) -> (r: usize)
        ensures
            r == self.tabs@.len(),
    {
        self.tabs.len()
    }

    pub fn is_empty(&self) -> (r: bool)
        ensures
            r == (self.tabs@.len() == 0),
    {
        self.tabs.len() == 0
    }

    /// The current tab.
    pub fn current(&self) -> (r: Option<&Tab>)
        ensures
            r == (if self.active < self.tabs@.len() {
                Some(&self.tabs@[self.active as int])
            } else {
                None
            }),
    {
        if self.active < self.tabs.len() {
            Some(&self.tabs[self.active])
        } else {
            None
        }
    }

    /// The tabs of a saved session, with its groups and current tab. None
    /// of the tabs is loaded yet. New ids start after the largest one, the
    /// current tab is one of the tabs, and a tab whose group the session no
    /// longer has loses it.
    pub fn restore(tabs: Vec<Tab>, groups: Vec<Group>, active: usize) -> (r: Tabs)
        requires
            max_tab_id(tabs@) < u64::MAX,
        ensures
            r.wf(),
            r.next_id == max_tab_id(tabs@) + 1,
            r.groups@ == groups@,
            r.active == (if active >= tabs@.len() {
                if tabs@.len() > 0 {
                    tabs@.len() - 1
                } else {
                    0
                }
            } else {
                active as int
            }),
            r.tabs@.len() == tabs@.len(),
            forall|i: int|
                0 <= i < tabs@.len() ==> #[trigger] r.tabs@[i] == restored(tabs@[i], groups@),
            groups_known(r.tabs@, r.groups@),
    {
        let ghost given = tabs@;
        let ghost gg = groups@;
        let mut m: u64 = 0;
        let mut i: usize = 0;
        while i < tabs.len()
            invariant
                i <= tabs@.len(),
                m == max_tab_id(tabs@.take(i as int)),
            decreases tabs@.len() - i,
        {
            assert(tabs@.take(i + 1).drop_last() =~= tabs@.take(i as int));
            if tabs[i].id > m {
                m = tabs[i].id;
            }
            i += 1;
        }
        assert(tabs@.take(tabs@.len() as int) =~= tabs@);
        proof {
            lemma_max_tab_id(tabs@);
        }
        let mut t = Tabs { tabs, groups, active, next_id: m + 1 };
        let mut j: usize = 0;
        while j < t.tabs.len()
            invariant
                j <= t.tabs@.len() == given.len(),
                t.groups@ == gg,
                t.next_id == max_tab_id(given) + 1,
                t.active == active,
                forall|k: int| 0 <= k < given.len() ==> (#[trigger] given[k]).id <= max_tab_id(given),
                forall|k: int|
                    0 <= k < j ==> #[trigger] t.tabs@[k] == (Tab {
                        pending: true,
                        group: if given[k].group is Some && has_group_id(t.groups@, given[k].group->0) {
                            given[k].group
                        } else {
                            None
                        },
                        ..given[k]
                    }),
                forall|k: int| j <= k < given.len() ==> #[trigger] t.tabs@[k] == given[k],
            decreases given.len() - j,
        {
            t.tabs[j].pending = true;
            if let Some(g) = t.tabs[j].group {
                if t.group_index(g).is_none() {
                    t.tabs[j].group = None;
                }
                proof {
                    lemma_first_index(t.groups@, group_id_is(g));
                    if has_group_id(t.groups@, g) {
                        let k = choose|k: int| 0 <= k < t.groups@.len() && (#[trigger] t.groups@[k]).id == g;
                        assert(group_id_is(g)(t.groups@[k]));
                    }
                }
            }
            j += 1;
        }
        if t.active >= t.tabs.len() {
            t.active = if t.tabs.len() > 0 {
                t.tabs.len() - 1
            } else {
                0
            };
        }
        proof {
            assert forall|k: int| 0 <= k < t.tabs@.len() implies (#[trigger] t.tabs@[k]).id < t.next_id by {
                assert(t.tabs@[k].id == given[k].id);
            }
            assert forall|k: int| 0 <= k < t.tabs@.len() && (#[trigger] t.tabs@[k]).group is Some implies exists|x: int|
                0 <= x < t.groups@.len() && (#[trigger] t.groups@[x]).id == t.tabs@[k].group->0 by {
                assert(has_group_id(t.groups@, t.tabs@[k].group->0));
            }
        }
        t
    }

    /// The current tab, to change in place.
    pub fn current_mut(&mut self) -> (r: Option<&mut Tab>)
        ensures
            old(self).active < old(self).tabs@.len() ==> {
                &&& r is Some
                &&& *r->0 == old(self).tabs@[old(self).active as int]
                &&& final(self).tabs@ == old(self).tabs@.update(old(self).active as int, *final(r->0))
                &&& final(self).groups@ == old(self).groups@
                &&& final(self).active == old(self).active
                &&& final(self).next_id == old(self).next_id
            },
            old(self).active >= old(self).tabs@.len() ==> r is None && *final(self) == *old(self),
    {
        if self.active < self.tabs.len() {
            Some(&mut self.tabs[self.active])
        } else {
            None
        }
    }

    /// Where the tab with id `id` stands.
    pub fn index_of(&self, id: u64) -> (r: Option<usize>)
        ensures
            found_at(r, first_index(self.tabs@, tab_id_is(id))),
    {
        let mut i: usize = 0;
        while i < self.tabs.len()
            invariant
                i <= self.tabs@.len(),
                forall|k: int| 0 <= k < i ==> (#[trigger] self.tabs@[k]).id != id,
            decreases self.tabs@.len() - i,
        {
            if self.tabs[i].id == id {
                proof {
                    lemma_first_index(self.tabs@, tab_id_is(id));
                }
                return Some(i);
            }
            i += 1;
        }
        proof {
            lemma_first_index(self.tabs@, tab_id_is(id));
        }
        None
    }

    /// The group with id `id`.
    pub fn group_by_id(&self, id: u64) -> (r: Option<&Group>)
        ensures
            match first_index(self.groups@, group_id_is(id)) {
                Some(i) => r == Some(&self.groups@[i]),
                None => r is None,
            },
    {
        let mut i: usize = 0;
        while i < self.groups.len()
            invariant
                i <= self.groups@.len(),
                forall|k: int| 0 <= k < i ==> (#[trigger] self.groups@[k]).id != id,
            decreases self.groups@.len() - i,
        {
            if self.groups[i].id == id {
                proof {
                    lemma_first_index(self.groups@, group_id_is(id));
                }
                return Some(&self.groups[i]);
            }
            i += 1;
        }
        proof {
            lemma_first_index(self.groups@, group_id_is(id));
        }
        None
    }

    /// Where the group called `name` (ASCII case aside) stands.
    fn group_index_named(&self, name: &Vec<char>) -> (r: Option<usize>)
        ensures
            found_at(r, first_index(self.groups@, group_named(name@))),
    {
        let mut i: usize = 0;
        while i < self.groups.len()
            invariant
                i <= self.groups@.len(),
                forall|k: int|
                    0 <= k < i ==> !eq_ascii_nocase((#[trigger] self.groups@[k]).name@, name@),
            decreases self.groups@.len() - i,
        {
            let gname = chars_of(self.groups[i].name.as_str());
            if eq_ascii_nocase_chars(&gname, name) {
                proof {
                    lemma_first_index(self.groups@, group_named(name@));
                }
                return Some(i);
            }
            i += 1;
        }
        proof {
            lemma_first_index(self.groups@, group_named(name@));
        }
        None
    }

    /// The group called `name`, ASCII case aside.
    pub fn group_by_name(&self, name: &str) -> (r: Option<&Group>)
        ensures
            match first_index(self.groups@, group_named(name@)) {
                Some(i) => r == Some(&self.groups@[i]),
                None => r is None,
            },
    {
        let v = chars_of(name);
        proof {
            lemma_first_index(self.groups@, group_named(name@));
        }
        match self.group_index_named(&v) {
            Some(i) => {
                Some(&self.groups[i])
            },
            None => None,
        }
    }

    /// Open a tab after the current one. It joins the current tab's group,
    /// the way a link opened from a grouped tab does in Firefox.
    pub fn open(&mut self, uri: &str, background: bool) -> (id: u64)
        requires
            old(self).wf(),
            old(self).next_id < u64::MAX,
        ensures
            final(self).wf(),
            id == old(self).next_id,
            final(self).next_id == old(self).next_id + 1,
            final(self).groups@ == old(self).groups@,
            final(self).tabs@ == old(self).tabs@.insert(
                open_at(old(self).tabs@.len(), old(self).active as int),
                final(self).tabs@[open_at(old(self).tabs@.len(), old(self).active as int)],
            ),
            ({
                let t = final(self).tabs@[open_at(old(self).tabs@.len(), old(self).active as int)];
                &&& t.id == id
                &&& t.uri@ == uri@
                &&& t.title@ == Seq::<char>::empty()
                &&& t.group == (if old(self).tabs@.len() > 0 {
                    old(self).tabs@[old(self).active as int].group
                } else {
                    None
                })
                &&& t.opener is None
                &&& !t.pending
            }),
            final(self).active == (if !background || old(self).tabs@.len() == 0 {
                open_at(old(self).tabs@.len(), old(self).active as int)
            } else {
                old(self).active as int
            }),
            forall|i: int| 0 <= i < old(self).tabs@.len() ==> (#[trigger] old(self).tabs@[i]).id != id,
            runs_contiguous(old(self).tabs@) ==> runs_contiguous(final(self).tabs@),
            groups_known(old(self).tabs@, old(self).groups@) ==> groups_known(
                final(self).tabs@,
                final(self).groups@,
            ),
    {
        self.open_from(uri, background, None)
    }

    /// Open a tab that knows its opener: a popup the page asked for.
    #[verifier::spinoff_prover]
    #[verifier::rlimit(40)]
    pub fn open_from(&mut self, uri: &str, background: bool, opener: Option<u64>) -> (id: u64)
        requires
            old(self).wf(),
            old(self).next_id < u64::MAX,
        ensures
            final(self).wf(),
            id == old(self).next_id,
            final(self).next_id == old(self).next_id + 1,
            final(self).groups@ == old(self).groups@,
            final(self).tabs@ == old(self).tabs@.insert(
                open_at(old(self).tabs@.len(), old(self).active as int),
                final(self).tabs@[open_at(old(self).tabs@.len(), old(self).active as int)],
            ),
            ({
                let t = final(self).tabs@[open_at(old(self).tabs@.len(), old(self).active as int)];
                &&& t.id == id
                &&& t.uri@ == uri@
                &&& t.title@ == Seq::<char>::empty()
                &&& t.group == (if old(self).tabs@.len() > 0 {
                    old(self).tabs@[old(self).active as int].group
                } else {
                    None
                })
                &&& t.opener == opener
                &&& !t.pending
            }),
            final(self).active == (if !background || old(self).tabs@.len() == 0 {
                open_at(old(self).tabs@.len(), old(self).active as int)
            } else {
                old(self).active as int
            }),
            forall|i: int| 0 <= i < old(self).tabs@.len() ==> (#[trigger] old(self).tabs@[i]).id != id,
            runs_contiguous(old(self).tabs@) ==> runs_contiguous(final(self).tabs@),
            groups_known(old(self).tabs@, old(self).groups@) ==> groups_known(
                final(self).tabs@,
                final(self).groups@,
            ),
    {
        let ghost before = self.tabs@;
        let ghost a0 = self.active;
        let id = self.next_id;
        self.next_id = self.next_id + 1;
        let group = match self.current() {
            Some(t) => t.group,
            None => None,
        };
        let at = if self.tabs.len() == 0 {
            0
        } else {
            self.active + 1
        };
        let tab = Tab {
            id,
            uri: uri.to_owned(),
            title: String::new(),
            group,
            opener,
            pending: false,
        };
        let ghost t = tab;
        self.tabs.insert(at, tab);
        if !background || self.tabs.len() == 1 {
            self.active = at;
        }
        proof {
            before.insert_ensures(at as int, t);
            if runs_contiguous(before) {
                lemma_insert_keeps_runs(before, at as int, t);
            }
            if groups_known(before, self.groups@) {
                assert forall|i: int|
                    0 <= i < self.tabs@.len() && (#[trigger] self.tabs@[i]).group is Some implies exists|j: int|
                    0 <= j < self.groups@.len() && (#[trigger] self.groups@[j]).id
                        == self.tabs@[i].group->0 by {
                    if i < at {
                        assert(self.tabs@[i] == before[i]);
                    } else if i > at {
                        assert(self.tabs@[i] == before[i - 1]);
                    } else {
                        assert(self.tabs@[i].group == before[a0 as int].group);
                    }
                }
            }
        }
        id
    }

    /// Close the tab at `idx`. The tab to its right becomes current, or the
    /// last one when it was the last; a popup hands the focus back to the
    /// tab that opened it.
    pub fn close(&mut self, idx: usize) -> (r: Option<Tab>)
        requires
            old(self).wf(),
        ensures
            final(self).wf(),
            final(self).next_id == old(self).next_id,
            final(self).groups@ == old(self).groups@,
            idx >= old(self).tabs@.len() ==> r is None && final(self).tabs@ == old(self).tabs@
                && final(self).active == old(self).active,
            idx < old(self).tabs@.len() ==> {
                &&& r == Some(old(self).tabs@[idx as int])
                &&& final(self).tabs@ == old(self).tabs@.remove(idx as int)
                &&& final(self).active == active_after_close(
                    old(self).active as int,
                    idx as int,
                    final(self).tabs@.len(),
                    match old(self).tabs@[idx as int].opener {
                        Some(o) => first_index(final(self).tabs@, tab_id_is(o)),
                        None => None,
                    },
                )
            },
            runs_contiguous(old(self).tabs@) ==> runs_contiguous(final(self).tabs@),
            groups_known(old(self).tabs@, old(self).groups@) ==> groups_known(
                final(self).tabs@,
                final(self).groups@,
            ),
    {
        if idx >= self.tabs.len() {
            return None;
        }
        let ghost before = self.tabs@;
        let was_current = idx == self.active;
        let tab = self.tabs.remove(idx);
        if self.tabs.len() == 0 {
            self.active = 0;
        } else if idx < self.active || self.active >= self.tabs.len() {
            let a = if self.active > 0 {
                self.active - 1
            } else {
                0
            };
            self.active = if a < self.tabs.len() - 1 {
                a
            } else {
                self.tabs.len() - 1
            };
        }
        if was_current {
            match tab.opener {
                Some(o) => {
                    match self.index_of(o) {
                        Some(back) => {
                            self.active = back;
                        },
                        None => {},
                    }
                },
                None => {},
            }
        }
        proof {
            before.remove_ensures(idx as int);
            lemma_first_index(self.tabs@, tab_id_is(match tab.opener { Some(o) => o, None => 0 }));
            if runs_contiguous(before) {
                lemma_remove_keeps_runs(before, idx as int);
            }
            if groups_known(before, self.groups@) {
                assert forall|i: int|
                    0 <= i < self.tabs@.len() && (#[trigger] self.tabs@[i]).group is Some implies exists|j: int|
                    0 <= j < self.groups@.len() && (#[trigger] self.groups@[j]).id
                        == self.tabs@[i].group->0 by {
                    if i < idx {
                        assert(self.tabs@[i] == before[i]);
                    } else {
                        assert(self.tabs@[i] == before[i + 1]);
                    }
                }
            }
            assert forall|i: int| 0 <= i < self.tabs@.len() implies (#[trigger] self.tabs@[i]).id
                < self.next_id by {
                if i < idx {
                    assert(self.tabs@[i] == before[i]);
                } else {
                    assert(self.tabs@[i] == before[i + 1]);
                }
            }
        }
        Some(tab)
    }

    /// The largest group id, or 0.
    fn max_gid(&self) -> (r: u64)
        ensures
            r == max_group_id(self.groups@),
    {
        let mut m: u64 = 0;
        let mut i: usize = 0;
        while i < self.groups.len()
            invariant
                i <= self.groups@.len(),
                m == max_group_id(self.groups@.take(i as int)),
            decreases self.groups@.len() - i,
        {
            assert(self.groups@.take(i + 1).drop_last() =~= self.groups@.take(i as int));
            if self.groups[i].id > m {
                m = self.groups[i].id;
            }
            i += 1;
        }
        assert(self.groups@.take(self.groups@.len() as int) =~= self.groups@);
        m
    }

    /// Some group has colour `c`.
    fn color_used(&self, c: &str) -> (r: bool)
        ensures
            r == used_colors(self.groups@).contains(c@),
    {
        let mut i: usize = 0;
        while i < self.groups.len()
            invariant
                i <= self.groups@.len(),
                forall|k: int| 0 <= k < i ==> (#[trigger] self.groups@[k]).color@ != c@,
            decreases self.groups@.len() - i,
        {
            if str_eq(self.groups[i].color.as_str(), c) {
                assert(used_colors(self.groups@)[i as int] == c@);
                return true;
            }
            i += 1;
        }
        proof {
            if used_colors(self.groups@).contains(c@) {
                let k = choose|k: int| 0 <= k < used_colors(self.groups@).len() && used_colors(self.groups@)[k] == c@;
                assert(self.groups@[k].color@ == c@);
            }
        }
        false
    }

    /// The colour a new group gets.
    fn fresh_color(&self) -> (r: &'static str)
        ensures
            r@ == new_group_color(self.groups@),
    {
        let mut i: usize = 0;
        while i < 9
            invariant
                i <= 9,
                forall|k: int| 0 <= k < i ==> used_colors(self.groups@).contains(#[trigger] color_names()[k]),
            decreases 9 - i,
        {
            if !self.color_used(color_name(i)) {
                proof {
                    lemma_first_index(color_names(), unused_in(used_colors(self.groups@)));
                }
                return color_name(i);
            }
            i += 1;
        }
        proof {
            lemma_first_index(color_names(), unused_in(used_colors(self.groups@)));
        }
        color_name(self.groups.len() % 9)
    }

    /// The group called `name`, made when missing. A colour given here
    /// (a name from the list or `#rrggbb`) is applied; any other leaves the
    /// group's colour alone, or picks the first unused for a new group.
    pub fn ensure_group(&mut self, name: &str, color: &str) -> (gid: u64)
        requires
            can_make_group(old(self).groups@, name@),
        ensures
            group_ensured(old(self).groups@, final(self).groups@, name@, color@, gid),
            final(self).tabs@ == old(self).tabs@,
            final(self).active == old(self).active,
            final(self).next_id == old(self).next_id,
            ids_kept(old(self).groups@, final(self).groups@),
            exists|k: int| 0 <= k < final(self).groups@.len() && (#[trigger] final(self).groups@[k]).id == gid,
    {
        let n = trim_str(name);
        let c = chars_of(color);
        let valid = valid_color_chars(&c);
        proof {
            lemma_first_index(self.groups@, group_named(n@));
        }
        match self.group_index_named(&n) {
            Some(i) => {
                let ghost before = self.groups@;
                if valid {
                    self.groups[i].color = color.to_owned();
                }
                let id = self.groups[i].id;
                proof {
                    assert forall|j: int| 0 <= j < before.len() implies has_group_id(self.groups@, (#[trigger] before[j]).id) by {
                        assert(self.groups@[j].id == before[j].id);
                    }
                    assert(self.groups@[i as int].id == id);
                }
                id
            },
            None => {
                let ghost before = self.groups@;
                let id = self.max_gid() + 1;
                let col = if valid {
                    color.to_owned()
                } else {
                    self.fresh_color().to_owned()
                };
                self.groups.push(Group { id, name: string_of(n.as_slice()), color: col, collapsed: false });
                proof {
                    assert(self.groups@.drop_last() =~= before);
                    assert forall|j: int| 0 <= j < before.len() implies has_group_id(self.groups@, (#[trigger] before[j]).id) by {
                        assert(self.groups@[j] == before[j]);
                    }
                    assert(self.groups@[before.len() as int].id == id);
                }
                id
            },
        }
    }

    /// Drop a group that has no tabs. An error when it has some, or is
    /// unknown.
    pub fn delete_group(&mut self, name: &str) -> (r: Result<(), String>)
        ensures
            final(self).tabs@ == old(self).tabs@,
            final(self).active == old(self).active,
            final(self).next_id == old(self).next_id,
            match first_index(old(self).groups@, group_named(name@)) {
                None => {
                    &&& r matches Err(e) && e@ == "No group called "@ + trim(name@)
                    &&& final(self).groups@ == old(self).groups@
                },
                Some(i) => {
                    let id = old(self).groups@[i].id;
                    let n = indices_where(old(self).tabs@, tab_in(id)).len();
                    if n > 0 {
                        &&& r matches Err(e) && e@ == trim(name@) + " still has "@ + decimal(n)
                            + " tabs; :group-close closes them"@
                        &&& final(self).groups@ == old(self).groups@
                    } else {
                        &&& r is Ok
                        &&& final(self).groups@ == keep_where(old(self).groups@, group_id_not(id))
                    }
                },
            },
            groups_known(old(self).tabs@, old(self).groups@) ==> groups_known(
                final(self).tabs@,
                final(self).groups@,
            ),
    {
        let v = chars_of(name);
        proof {
            lemma_first_index(self.groups@, group_named(name@));
        }
        let found = self.group_index_named(&v);
        match found {
            None => {
                let mut e: Vec<char> = chars_of("No group called ");
                let mut t = trim_chars(&v);
                e.append(&mut t);
                Err(string_of(e.as_slice()))
            },
            Some(i) => {
                let id = self.groups[i].id;
                let n = self.tabs_in(id).len();
                if n > 0 {
                    let mut e = trim_chars(&v);
                    let mut mid = chars_of(" still has ");
                    e.append(&mut mid);
                    push_decimal(&mut e, n as u64);
                    let mut tail = chars_of(" tabs; :group-close closes them");
                    e.append(&mut tail);
                    return Err(string_of(e.as_slice()));
                }
                let ghost before = self.groups@;
                let mut all: Vec<Group> = Vec::new();
                std::mem::swap(&mut all, &mut self.groups);
                let mut kept: Vec<Group> = Vec::new();
                for g in it: all
                    invariant
                        it.seq() == before,
                        kept@ == keep_where(before.take(it.index() as int), group_id_not(id)),
                        forall|k: int| 0 <= k < kept@.len() ==> (#[trigger] kept@[k]).id != id,
                        forall|k: int|
                            0 <= k < it.index() && (#[trigger] before[k]).id != id ==> exists|m: int|
                                0 <= m < kept@.len() && (#[trigger] kept@[m]).id == before[k].id,
                {
                    let ghost j = it.index();
                    assert(before.take(j + 1).drop_last() =~= before.take(j as int));
                    assert(g == before[j as int]);
                    if g.id != id {
                        let ghost old_kept = kept@;
                        kept.push(g);
                        proof {
                            assert forall|k: int|
                                0 <= k < j + 1 && (#[trigger] before[k]).id != id implies exists|m: int|
                                0 <= m < kept@.len() && (#[trigger] kept@[m]).id == before[k].id by {
                                if k == j {
                                    assert(kept@[kept@.len() - 1] == before[k]);
                                } else {
                                    let m = choose|m: int| 0 <= m < old_kept.len() && (#[trigger] old_kept[m]).id == before[k].id;
                                    assert(kept@[m] == old_kept[m]);
                                }
                            }
                        }
                    }
                }
                assert(before.take(before.len() as int) =~= before);
                assert(forall|k: int|
                    0 <= k < before.len() && (#[trigger] before[k]).id != id ==> exists|m: int|
                        0 <= m < kept@.len() && (#[trigger] kept@[m]).id == before[k].id);
                self.groups = kept;
                proof {
                    lemma_indices_where_empty(self.tabs@, tab_in(id));
                    if groups_known(self.tabs@, before) {
                        assert forall|a: int| 0 <= a < self.tabs@.len() && (#[trigger] self.tabs@[a]).group is Some implies exists|m: int|
                            0 <= m < self.groups@.len() && (#[trigger] self.groups@[m]).id == self.tabs@[a].group->0 by {
                            let k = choose|k: int| 0 <= k < before.len() && (#[trigger] before[k]).id == self.tabs@[a].group->0;
                            assert(!tab_in(id)(self.tabs@[a]));
                            assert(before[k].id != id);
                            let m = choose|m: int| 0 <= m < self.groups@.len() && (#[trigger] self.groups@[m]).id == before[k].id;
                            assert(0 <= m < self.groups@.len());
                        }
                    }
                }
                Ok(())
            },
        }
    }

    /// Where the last tab of group `gid` stands.
    fn last_in_group(&self, gid: u64) -> (r: Option<usize>)
        ensures
            found_at(r, last_index(self.tabs@, tab_in(gid))),
            r matches Some(l) ==> l < self.tabs@.len(),
    {
        let mut i: usize = self.tabs.len();
        while i > 0
            invariant
                i <= self.tabs@.len(),
                forall|k: int| i <= k < self.tabs@.len() ==> (#[trigger] self.tabs@[k]).group != Some(gid),
            decreases i,
        {
            if self.tabs[i - 1].group == Some(gid) {
                proof {
                    lemma_last_index(self.tabs@, tab_in(gid));
                }
                return Some(i - 1);
            }
            i -= 1;
        }
        proof {
            lemma_last_index(self.tabs@, tab_in(gid));
        }
        None
    }

    /// Move the tab at `idx` into group `gid`, right after the group's last
    /// tab, keeping the current tab current.
    fn place_in_group(&mut self, idx: usize, gid: u64)
        requires
            old(self).wf(),
            idx < old(self).tabs@.len(),
            old(self).tabs@[idx as int].group != Some(gid),
        ensures
            final(self).wf(),
            final(self).next_id == old(self).next_id,
            final(self).groups@ == old(self).groups@,
            ({
                let rest = old(self).tabs@.remove(idx as int);
                &&& final(self).tabs@ == rest.insert(
                    join_spot(rest, gid, idx as int),
                    Tab { group: Some(gid), ..old(self).tabs@[idx as int] },
                )
                &&& final(self).active == index_or_first(
                    final(self).tabs@,
                    old(self).tabs@[old(self).active as int].id,
                )
            }),
            runs_contiguous(old(self).tabs@) ==> runs_contiguous(final(self).tabs@),
            groups_known(old(self).tabs@, old(self).groups@) && (exists|k: int|
                0 <= k < old(self).groups@.len() && (#[trigger] old(self).groups@[k]).id == gid)
                ==> groups_known(final(self).tabs@, final(self).groups@),
    {
        let ghost before = self.tabs@;
        let was_active = self.tabs[self.active].id;
        let mut tab = self.tabs.remove(idx);
        tab.group = Some(gid);
        let ghost rest = self.tabs@;
        let at = match self.last_in_group(gid) {
            Some(last) => last + 1,
            None => if idx < self.tabs.len() {
                if idx > 0 && self.tabs[idx - 1].group.is_some() && self.tabs[idx - 1].group
                    == self.tabs[idx].group {
                    let og = match self.tabs[idx - 1].group {
                        Some(g) => g,
                        None => gid,
                    };
                    match self.last_in_group(og) {
                        Some(l) => l + 1,
                        None => idx,
                    }
                } else {
                    idx
                }
            } else {
                self.tabs.len()
            },
        };
        let ghost t = tab;
        self.tabs.insert(at, tab);
        proof {
            lemma_last_index(rest, tab_in(gid));
            if 0 < idx < rest.len() && rest[idx - 1].group is Some {
                lemma_last_index(rest, tab_in(rest[idx - 1].group->0));
            }
            before.remove_ensures(idx as int);
            rest.insert_ensures(at as int, t);
            assert(t == Tab { group: Some(gid), ..before[idx as int] });
            lemma_move_keeps_ids(before, idx as int, at as int, t, self.next_id);
            if groups_known(before, self.groups@) && exists|k: int|
                0 <= k < self.groups@.len() && (#[trigger] self.groups@[k]).id == gid {
                lemma_move_keeps_known(before, idx as int, at as int, t, self.groups@);
            }
            if runs_contiguous(before) {
                lemma_remove_keeps_runs(before, idx as int);
                if !group_used(rest, gid) {
                    assert(forall|i: int| 0 <= i < rest.len() ==> !tab_in(gid)(#[trigger] rest[i]));
                }
                lemma_insert_keeps_runs(rest, at as int, t);
            }
            lemma_first_index(self.tabs@, tab_id_is(was_active));
        }
        self.active = match self.index_of(was_active) {
            Some(i) => i,
            None => 0,
        };
    }

    /// Put the tab at `idx` in the named group, making the group when it
    /// is new. The tab moves next to the group's other tabs.
    pub fn set_group(&mut self, idx: usize, name: &str) -> (r: Option<u64>)
        requires
            old(self).wf(),
            idx < old(self).tabs@.len() && trim(name@).len() > 0 ==> can_make_group(
                old(self).groups@,
                name@,
            ),
        ensures
            final(self).wf(),
            final(self).next_id == old(self).next_id,
            idx >= old(self).tabs@.len() || trim(name@).len() == 0 ==> {
                &&& r is None
                &&& final(self).tabs@ == old(self).tabs@
                &&& final(self).groups@ == old(self).groups@
                &&& final(self).active == old(self).active
            },
            idx < old(self).tabs@.len() && trim(name@).len() > 0 ==> {
                &&& r is Some
                &&& group_ensured(old(self).groups@, final(self).groups@, name@, Seq::empty(), r->0)
                &&& if old(self).tabs@[idx as int].group == Some(r->0) {
                    &&& final(self).tabs@ == old(self).tabs@
                    &&& final(self).active == old(self).active
                } else {
                    let rest = old(self).tabs@.remove(idx as int);
                    &&& final(self).tabs@ == rest.insert(
                        join_spot(rest, r->0, idx as int),
                        Tab { group: Some(r->0), ..old(self).tabs@[idx as int] },
                    )
                    &&& final(self).active == index_or_first(
                        final(self).tabs@,
                        old(self).tabs@[old(self).active as int].id,
                    )
                }
            },
            runs_contiguous(old(self).tabs@) ==> runs_contiguous(final(self).tabs@),
            groups_known(old(self).tabs@, old(self).groups@) ==> groups_known(
                final(self).tabs@,
                final(self).groups@,
            ),
    {
        if idx >= self.tabs.len() {
            return None;
        }
        let tn = trim_str(name);
        if tn.len() == 0 {
            return None;
        }
        let ghost old_groups = self.groups@;
        let gid = self.ensure_group(name, "");
        proof {
            reveal_strlit("");
            assert(""@ =~= Seq::<char>::empty());
            if groups_known(self.tabs@, old_groups) {
                lemma_ids_kept(self.tabs@, old_groups, self.groups@);
            }
        }
        if self.tabs[idx].group == Some(gid) {
            return Some(gid);
        }
        self.place_in_group(idx, gid);
        Some(gid)
    }

    /// Take the tab at `idx` out of its group. It lands right after the
    /// group so the group stays in one piece.
    pub fn ungroup(&mut self, idx: usize)
        requires
            old(self).wf(),
        ensures
            final(self).wf(),
            final(self).next_id == old(self).next_id,
            final(self).groups@ == old(self).groups@,
            idx >= old(self).tabs@.len() || old(self).tabs@[idx as int].group is None ==> {
                &&& final(self).tabs@ == old(self).tabs@
                &&& final(self).active == old(self).active
            },
            idx < old(self).tabs@.len() && old(self).tabs@[idx as int].group is Some ==> {
                let gid = old(self).tabs@[idx as int].group->0;
                let rest = old(self).tabs@.remove(idx as int);
                let at = match last_index(rest, tab_in(gid)) {
                    Some(l) => l + 1,
                    None => idx as int,
                };
                &&& final(self).tabs@ == rest.insert(at, Tab { group: None, ..old(self).tabs@[idx as int] })
                &&& final(self).active == index_or_first(
                    final(self).tabs@,
                    old(self).tabs@[old(self).active as int].id,
                )
            },
            runs_contiguous(old(self).tabs@) ==> runs_contiguous(final(self).tabs@),
            groups_known(old(self).tabs@, old(self).groups@) ==> groups_known(
                final(self).tabs@,
                final(self).groups@,
            ),
    {
        if idx >= self.tabs.len() {
            return;
        }
        let gid = match self.tabs[idx].group {
            Some(g) => g,
            None => {
                return;
            },
        };
        let ghost before = self.tabs@;
        let was_active = self.tabs[self.active].id;
        let mut tab = self.tabs.remove(idx);
        tab.group = None;
        let at = match self.last_in_group(gid) {
            Some(last) => last + 1,
            None => idx,
        };
        let ghost t = tab;
        let ghost rest = self.tabs@;
        self.tabs.insert(at, tab);
        proof {
            lemma_last_index(rest, tab_in(gid));
            before.remove_ensures(idx as int);
            rest.insert_ensures(at as int, t);
            assert(t == Tab { group: None, ..before[idx as int] });
            lemma_move_keeps_ids(before, idx as int, at as int, t, self.next_id);
            if groups_known(before, self.groups@) {
                lemma_move_keeps_known(before, idx as int, at as int, t, self.groups@);
            }
            if runs_contiguous(before) {
                lemma_remove_keeps_runs(before, idx as int);
                if 0 < at < rest.len() && rest[at - 1].group is Some && rest[at - 1].group
                    == rest[at as int].group {
                    if last_index(rest, tab_in(gid)) is None {
                        assert(rest[at - 1] == before[idx - 1]);
                        assert(rest[at as int] == before[idx + 1]);
                        assert(before[idx as int].group == before[idx - 1].group);
                        assert(!tab_in(gid)(rest[at - 1]));
                    }
                }
                lemma_insert_keeps_runs(rest, at as int, t);
            }
            lemma_first_index(self.tabs@, tab_id_is(was_active));
        }
        self.active = match self.index_of(was_active) {
            Some(i) => i,
            None => 0,
        };
    }

    /// Where the group with id `gid` stands.
    fn group_index(&self, gid: u64) -> (r: Option<usize>)
        ensures
            found_at(r, first_index(self.groups@, group_id_is(gid))),
            r matches Some(i) ==> i < self.groups@.len(),
    {
        let mut i: usize = 0;
        while i < self.groups.len()
            invariant
                i <= self.groups@.len(),
                forall|k: int| 0 <= k < i ==> (#[trigger] self.groups@[k]).id != gid,
            decreases self.groups@.len() - i,
        {
            if self.groups[i].id == gid {
                proof {
                    lemma_first_index(self.groups@, group_id_is(gid));
                }
                return Some(i);
            }
            i += 1;
        }
        proof {
            lemma_first_index(self.groups@, group_id_is(gid));
        }
        None
    }

    /// The groups that have no tabs.
    pub fn empty_groups(&self) -> (r: Vec<&Group>)
        ensures
            r@.len() == keep_where(self.groups@, group_empty(self.tabs@)).len(),
            forall|i: int| 0 <= i < r@.len() ==> *r@[i] == keep_where(self.groups@, group_empty(self.tabs@))[i],
    {
        let mut r: Vec<&Group> = Vec::new();
        let mut i: usize = 0;
        while i < self.groups.len()
            invariant
                i <= self.groups@.len(),
                r@.len() == keep_where(self.groups@.take(i as int), group_empty(self.tabs@)).len(),
                forall|k: int| 0 <= k < r@.len() ==> *r@[k] == keep_where(self.groups@.take(i as int), group_empty(self.tabs@))[k],
            decreases self.groups@.len() - i,
        {
            assert(self.groups@.take(i + 1).drop_last() =~= self.groups@.take(i as int));
            let n = self.tabs_in(self.groups[i].id).len();
            proof {
                lemma_indices_where_empty(self.tabs@, tab_in(self.groups@[i as int].id));
                if group_used(self.tabs@, self.groups@[i as int].id) {
                    let k = choose|k: int| 0 <= k < self.tabs@.len() && (#[trigger] self.tabs@[k]).group == Some(self.groups@[i as int].id);
                    assert(tab_in(self.groups@[i as int].id)(self.tabs@[k]));
                }
            }
            if n == 0 {
                r.push(&self.groups[i]);
            }
            i += 1;
        }
        assert(self.groups@.take(self.groups@.len() as int) =~= self.groups@);
        r
    }

    /// Give the group with id `gid` a new name.
    pub fn rename_group(&mut self, gid: u64, name: &str)
        ensures
            final(self).tabs@ == old(self).tabs@,
            final(self).active == old(self).active,
            final(self).next_id == old(self).next_id,
            group_changed(
                old(self).groups@,
                final(self).groups@,
                gid,
                |a: Group, b: Group| b.name@ == trim(name@) && b.color == a.color && b.collapsed == a.collapsed,
            ),
            groups_known(old(self).tabs@, old(self).groups@) ==> groups_known(
                final(self).tabs@,
                final(self).groups@,
            ),
    {
        let ghost before = self.groups@;
        if let Some(i) = self.group_index(gid) {
            self.groups[i].name = string_of(trim_str(name).as_slice());
            proof {
                lemma_first_index(before, group_id_is(gid));
                assert forall|j: int| 0 <= j < before.len() implies has_group_id(self.groups@, (#[trigger] before[j]).id) by {
                    assert(self.groups@[j].id == before[j].id);
                }
                if groups_known(self.tabs@, before) {
                    lemma_ids_kept(self.tabs@, before, self.groups@);
                }
            }
        }
    }

    /// Give the group with id `gid` a new colour: a name from the list or
    /// `#rrggbb`. False, and nothing changed, for any other colour.
    pub fn recolor_group(&mut self, gid: u64, color: &str) -> (r: bool)
        ensures
            r == valid_color(color@),
            final(self).tabs@ == old(self).tabs@,
            final(self).active == old(self).active,
            final(self).next_id == old(self).next_id,
            !r ==> final(self).groups@ == old(self).groups@,
            r ==> group_changed(
                old(self).groups@,
                final(self).groups@,
                gid,
                |a: Group, b: Group| b.color@ == color@ && b.name == a.name && b.collapsed == a.collapsed,
            ),
            groups_known(old(self).tabs@, old(self).groups@) ==> groups_known(
                final(self).tabs@,
                final(self).groups@,
            ),
    {
        let c = chars_of(color);
        if !valid_color_chars(&c) {
            return false;
        }
        let ghost before = self.groups@;
        if let Some(i) = self.group_index(gid) {
            self.groups[i].color = color.to_owned();
            proof {
                lemma_first_index(before, group_id_is(gid));
                assert forall|j: int| 0 <= j < before.len() implies has_group_id(self.groups@, (#[trigger] before[j]).id) by {
                    assert(self.groups@[j].id == before[j].id);
                }
                if groups_known(self.tabs@, before) {
                    lemma_ids_kept(self.tabs@, before, self.groups@);
                }
            }
        }
        true
    }

    /// Fold or unfold the group with id `gid`.
    pub fn collapse(&mut self, gid: u64, on: bool)
        ensures
            final(self).tabs@ == old(self).tabs@,
            final(self).active == old(self).active,
            final(self).next_id == old(self).next_id,
            group_changed(
                old(self).groups@,
                final(self).groups@,
                gid,
                |a: Group, b: Group| b.collapsed == on && b.name == a.name && b.color == a.color,
            ),
            groups_known(old(self).tabs@, old(self).groups@) ==> groups_known(
                final(self).tabs@,
                final(self).groups@,
            ),
    {
        let ghost before = self.groups@;
        if let Some(i) = self.group_index(gid) {
            self.groups[i].collapsed = on;
            proof {
                lemma_first_index(before, group_id_is(gid));
                assert forall|j: int| 0 <= j < before.len() implies has_group_id(self.groups@, (#[trigger] before[j]).id) by {
                    assert(self.groups@[j].id == before[j].id);
                }
                if groups_known(self.tabs@, before) {
                    lemma_ids_kept(self.tabs@, before, self.groups@);
                }
            }
        }
    }

    /// Fold or unfold every group.
    pub fn collapse_all(&mut self, on: bool)
        ensures
            final(self).tabs@ == old(self).tabs@,
            final(self).active == old(self).active,
            final(self).next_id == old(self).next_id,
            final(self).groups@.len() == old(self).groups@.len(),
            forall|i: int|
                0 <= i < old(self).groups@.len() ==> #[trigger] final(self).groups@[i] == (Group {
                    collapsed: on,
                    ..old(self).groups@[i]
                }),
            groups_known(old(self).tabs@, old(self).groups@) ==> groups_known(
                final(self).tabs@,
                final(self).groups@,
            ),
    {
        let ghost before = self.groups@;
        let mut i: usize = 0;
        while i < self.groups.len()
            invariant
                i <= self.groups@.len() == before.len(),
                self.tabs@ == old(self).tabs@,
                self.active == old(self).active,
                self.next_id == old(self).next_id,
                forall|k: int| 0 <= k < i ==> #[trigger] self.groups@[k] == (Group { collapsed: on, ..before[k] }),
                forall|k: int| i <= k < before.len() ==> #[trigger] self.groups@[k] == before[k],
            decreases self.groups@.len() - i,
        {
            self.groups[i].collapsed = on;
            i += 1;
        }
        proof {
            assert forall|j: int| 0 <= j < before.len() implies has_group_id(self.groups@, (#[trigger] before[j]).id) by {
                assert(self.groups@[j] == (Group { collapsed: on, ..before[j] }));
                assert(self.groups@[j].id == before[j].id);
            }
            assert(ids_kept(before, self.groups@));
            if groups_known(self.tabs@, before) {
                lemma_ids_kept(self.tabs@, before, self.groups@);
            }
        }
    }

    /// The tab at `idx` shows in the bar: it is the current one, or its
    /// group is not folded.
    pub open spec fn shows(&self, idx: int) -> bool {
        if idx == self.active {
            true
        } else if 0 <= idx < self.tabs@.len() && self.tabs@[idx].group is Some {
            match first_index(self.groups@, group_id_is(self.tabs@[idx].group->0)) {
                Some(k) => !self.groups@[k].collapsed,
                None => true,
            }
        } else {
            true
        }
    }

    /// The indices below `n` of the tabs that show, in order.
    pub open spec fn shown_below(&self, n: nat) -> Seq<usize>
        decreases n,
    {
        if n == 0 {
            Seq::empty()
        } else if self.shows(n - 1) {
            self.shown_below((n - 1) as nat).push((n - 1) as usize)
        } else {
            self.shown_below((n - 1) as nat)
        }
    }

    /// A tab shows in the bar unless its group is folded. The current tab
    /// always shows.
    pub fn visible(&self, idx: usize) -> (r: bool)
        ensures
            r == self.shows(idx as int),
    {
        if idx == self.active {
            return true;
        }
        if idx >= self.tabs.len() {
            return true;
        }
        match self.tabs[idx].group {
            None => true,
            Some(g) => match self.group_by_id(g) {
                Some(grp) => {
                    proof {
                        lemma_first_index(self.groups@, group_id_is(g));
                    }
                    !grp.collapsed
                },
                None => true,
            },
        }
    }

    /// The indices of the tabs that show, in order.
    pub fn visible_indices(&self) -> (r: Vec<usize>)
        ensures
            r@ == self.shown_below(self.tabs@.len()),
    {
        let mut r: Vec<usize> = Vec::new();
        let mut i: usize = 0;
        while i < self.tabs.len()
            invariant
                i <= self.tabs@.len(),
                r@ == self.shown_below(i as nat),
            decreases self.tabs@.len() - i,
        {
            if self.visible(i) {
                r.push(i);
            }
            i += 1;
        }
        r
    }

    /// Where the current tab stands among the tabs that show, or 0.
    pub open spec fn shown_pos(&self) -> int {
        match first_index(self.shown_below(self.tabs@.len()), is_index(self.active)) {
            Some(p) => p,
            None => 0,
        }
    }

    /// The next visible tab in direction `dir` (1 or -1), wrapping round.
    pub fn neighbour(&self, dir: i32) -> (r: usize)
        requires
            self.tabs@.len() <= i32::MAX,
            self.shown_below(self.tabs@.len()).len() >= 2 ==> {
                let n = self.shown_below(self.tabs@.len()).len() as int;
                &&& i32::MIN <= self.shown_pos() + dir <= i32::MAX
                &&& rem_trunc(self.shown_pos() + dir, n) + n <= i32::MAX
            },
        ensures
            ({
                let vis = self.shown_below(self.tabs@.len());
                r == if vis.len() < 2 {
                    self.active
                } else {
                    vis[(self.shown_pos() + dir) % (vis.len() as int)]
                }
            }),
    {
        let vis = self.visible_indices();
        if vis.len() < 2 {
            return self.active;
        }
        proof {
            lemma_shown_below_len(self, self.tabs@.len());
        }
        let pos = match self.pos_in(&vis) {
            Some(p) => p,
            None => 0,
        };
        let n = vis.len() as i64;
        let x = pos as i64 + dir as i64;
        let m: i64 = if x >= 0 {
            x % n
        } else {
            let y = (-x) % n;
            if y == 0 {
                0
            } else {
                n - y
            }
        };
        proof {
            if x < 0 {
                lemma_mod_of_negative(x as int, n as int);
            }
        }
        vis[m as usize]
    }

    /// Where the current tab stands in `vis`.
    fn pos_in(&self, vis: &Vec<usize>) -> (r: Option<usize>)
        ensures
            found_at(r, first_index(vis@, is_index(self.active))),
            r matches Some(p) ==> p < vis@.len(),
    {
        let mut i: usize = 0;
        while i < vis.len()
            invariant
                i <= vis@.len(),
                forall|k: int| 0 <= k < i ==> #[trigger] vis@[k] != self.active,
            decreases vis@.len() - i,
        {
            if vis[i] == self.active {
                proof {
                    lemma_first_index(vis@, is_index(self.active));
                }
                return Some(i);
            }
            i += 1;
        }
        proof {
            lemma_first_index(vis@, is_index(self.active));
        }
        None
    }

    /// Move the tab at `idx` by `delta` places, wrapping round. Landing
    /// next to its own group keeps the tab in it, so a group's first tab
    /// can move to the front; landing between two tabs of another group
    /// joins that one; anywhere else leaves the group.
    #[verifier::spinoff_prover]
    #[verifier::rlimit(40)]
    pub fn move_tab(&mut self, idx: usize, delta: i32)
        requires
            old(self).wf(),
            old(self).tabs@.len() <= i32::MAX,
            old(self).tabs@.len() >= 2 && (idx as i32) < old(self).tabs@.len() ==> {
                let n = old(self).tabs@.len() as int;
                &&& idx < n
                &&& i32::MIN <= idx + delta <= i32::MAX
                &&& rem_trunc(idx + delta, n) + n <= i32::MAX
            },
        ensures
            final(self).wf(),
            final(self).next_id == old(self).next_id,
            final(self).groups@ == old(self).groups@,
            old(self).tabs@.len() < 2 || (idx as i32) >= old(self).tabs@.len() ==> {
                &&& final(self).tabs@ == old(self).tabs@
                &&& final(self).active == old(self).active
            },
            old(self).tabs@.len() >= 2 && (idx as i32) < old(self).tabs@.len() ==> {
                let n = old(self).tabs@.len() as int;
                let to = (idx + delta) % n;
                let rest = old(self).tabs@.remove(idx as int);
                let before = if to > 0 {
                    rest[to - 1].group
                } else {
                    None
                };
                let after = if to < rest.len() {
                    rest[to].group
                } else {
                    None
                };
                let t = old(self).tabs@[idx as int];
                &&& final(self).tabs@ == rest.insert(
                    to,
                    Tab { group: landing_group(t.group, before, after), ..t },
                )
                &&& final(self).active == active_after_move(old(self).active as int, idx as int, to)
            },
            runs_contiguous(old(self).tabs@) ==> runs_contiguous(final(self).tabs@),
            groups_known(old(self).tabs@, old(self).groups@) ==> groups_known(
                final(self).tabs@,
                final(self).groups@,
            ),
    {
        let n = self.tabs.len() as i32;
        if n < 2 || idx as i32 >= n {
            return;
        }
        let x = idx as i64 + delta as i64;
        let nn = n as i64;
        let m: i64 = if x >= 0 {
            x % nn
        } else {
            let y = (-x) % nn;
            if y == 0 {
                0
            } else {
                nn - y
            }
        };
        proof {
            if x < 0 {
                lemma_mod_of_negative(x as int, nn as int);
            }
        }
        let to = m as usize;
        let ghost old_tabs = self.tabs@;
        let mut tab = self.tabs.remove(idx);
        let before = if to > 0 {
            self.tabs[to - 1].group
        } else {
            None
        };
        let after = if to < self.tabs.len() {
            self.tabs[to].group
        } else {
            None
        };
        let own = tab.group;
        tab.group = if own.is_some() && (before == own || after == own) {
            own
        } else if before.is_some() && before == after {
            before
        } else {
            None
        };
        let ghost t = tab;
        let ghost rest = self.tabs@;
        self.tabs.insert(to, tab);
        if self.active == idx {
            self.active = to;
        } else if idx < self.active && to >= self.active {
            self.active -= 1;
        } else if idx > self.active && to <= self.active {
            self.active += 1;
        }
        proof {
            old_tabs.remove_ensures(idx as int);
            rest.insert_ensures(to as int, t);
            lemma_move_keeps_ids(old_tabs, idx as int, to as int, t, self.next_id);
            if groups_known(old_tabs, self.groups@) {
                if t.group is Some {
                    if t.group == own {
                        assert(old_tabs[idx as int].group == own);
                    } else {
                        assert(rest[to - 1] == old_tabs[if to - 1 < idx { to - 1 } else { to as int }]);
                    }
                }
                lemma_move_keeps_known(old_tabs, idx as int, to as int, t, self.groups@);
            }
            if runs_contiguous(old_tabs) {
                lemma_remove_keeps_runs(old_tabs, idx as int);
                lemma_landing_fits(rest, to as int, t, own);
                lemma_insert_keeps_runs(rest, to as int, t);
            }
        }
    }

    /// The indices of the tabs in group `gid`, in order.
    pub fn tabs_in(&self, gid: u64) -> (r: Vec<usize>)
        ensures
            r@ == indices_where(self.tabs@, tab_in(gid)),
    {
        let mut r: Vec<usize> = Vec::new();
        let mut i: usize = 0;
        while i < self.tabs.len()
            invariant
                i <= self.tabs@.len(),
                r@ == indices_where(self.tabs@.take(i as int), tab_in(gid)),
            decreases self.tabs@.len() - i,
        {
            assert(self.tabs@.take(i + 1).drop_last() =~= self.tabs@.take(i as int));
            if self.tabs[i].group == Some(gid) {
                r.push(i);
            }
            i += 1;
        }
        assert(self.tabs@.take(self.tabs@.len() as int) =~= self.tabs@);
        r
    }
}

impl Tabs {
    /// The group a group command `cmd` acts on: for `group-collapse` and
    /// `group-expand`, the group named `arg` when there is one; else the
    /// current tab's group.
    pub open spec fn command_group_spec(&self, cmd: Seq<char>, arg: Seq<char>) -> Option<u64> {
        let by_name = cmd == "group-collapse"@ || cmd == "group-expand"@;
        let named = if by_name {
            match first_index(self.groups@, group_named(arg)) {
                Some(i) => Some(self.groups@[i].id),
                None => None,
            }
        } else {
            None
        };
        if named is Some {
            named
        } else {
            current_group(self.tabs@, self.active as int)
        }
    }

    /// The name of the current tab's group, or empty.
    pub open spec fn current_group_name_spec(&self) -> Seq<char> {
        match current_group(self.tabs@, self.active as int) {
            Some(g) => match first_index(self.groups@, group_id_is(g)) {
                Some(i) => self.groups@[i].name@,
                None => Seq::empty(),
            },
            None => Seq::empty(),
        }
    }

    /// The groups listing, or `No groups`.
    pub open spec fn groups_summary_spec(&self) -> Seq<char> {
        if self.groups@.len() == 0 {
            "No groups"@
        } else {
            groups_listing(self.tabs@, self.groups@)
        }
    }

    /// The group a group command acts on: for `group-collapse` and
    /// `group-expand`, the group named `arg` when there is one; else the
    /// current tab's group.
    pub fn command_group(&self, cmd: &str, arg: &str) -> (r: Option<u64>)
        ensures
            r == self.command_group_spec(cmd@, arg@),
    {
        if str_eq(cmd, "group-collapse") || str_eq(cmd, "group-expand") {
            match self.group_by_name(arg) {
                Some(g) => {
                    return Some(g.id);
                },
                None => {},
            }
        }
        match self.current() {
            Some(t) => t.group,
            None => None,
        }
    }

    /// The name of the current tab's group, or nothing (empty) when it is
    /// in none.
    pub fn current_group_name(&self) -> (r: String)
        ensures
            r@ == self.current_group_name_spec(),
    {
        let g = match self.current() {
            Some(t) => t.group,
            None => None,
        };
        match g {
            Some(id) => match self.group_by_id(id) {
                Some(grp) => grp.name.clone(),
                None => String::new(),
            },
            None => String::new(),
        }
    }

    /// The groups, each with its tab count and colour, or `No groups`.
    pub fn groups_summary(&self) -> (r: String)
        ensures
            r@ == self.groups_summary_spec(),
    {
        if self.groups.len() == 0 {
            return "No groups".to_owned();
        }
        let mut out: Vec<char> = Vec::new();
        let mut i: usize = 0;
        while i < self.groups.len()
            invariant
                i <= self.groups@.len(),
                out@ == groups_listing(self.tabs@, self.groups@.take(i as int)),
            decreases self.groups@.len() - i,
        {
            let g = &self.groups[i];
            if i > 0 {
                out = crate::text::concat_chars(&out, &chars_of("  ·  "));
            }
            out = crate::text::concat_chars(&out, &chars_of(g.name.as_str()));
            out = crate::text::concat_chars(&out, &chars_of(" ("));
            let n = self.tabs_in(g.id).len();
            push_decimal(&mut out, n as u64);
            out = crate::text::concat_chars(&out, &chars_of(", "));
            out = crate::text::concat_chars(&out, &chars_of(g.color.as_str()));
            if g.collapsed {
                out = crate::text::concat_chars(&out, &chars_of(", folded"));
            }
            out = crate::text::concat_chars(&out, &chars_of(")"));
            proof {
                let t = self.groups@.take(i + 1);
                assert(t.drop_last() =~= self.groups@.take(i as int));
                assert(t.last() == *g);
                if i == 0 {
                    assert(self.groups@.take(0) =~= Seq::<Group>::empty());
                }
                assert(out@ =~= groups_listing(self.tabs@, t));
            }
            i += 1;
        }
        assert(self.groups@.take(self.groups@.len() as int) =~= self.groups@);
        string_of(out.as_slice())
    }
}

} // verus!
