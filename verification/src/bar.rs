//! What the tab bar shows: the tabs in view, numbered, each in the colour
//! of its group; a label for each folded group; the empty groups, dimmed,
//! at the end. The bar is drawn from these items.

use vstd::prelude::*;
use crate::keys::{strip_all, strip_all_exec};
use crate::seqs::{first_index, keep_where, lemma_first_index};
use crate::tabs::{color_hex, color_hex_spec, group_empty, group_id_is, is_index, Group, Tab, Tabs};
use crate::text::{chars_of, slice_chars, string_of, trim, trim_chars};

verus! {

/// One item of the tab bar.
#[derive(PartialEq, Debug)]
pub enum BarItem {
    /// Tabs before the first one shown are left out.
    More,
    /// A folded group: its colour, its name and its number of tabs.
    Folded { color: String, name: String, count: usize },
    /// A tab in view: its number among those in view, its text, its
    /// colour, whether it is the current one, and whether a separator
    /// comes before it.
    Tab { n: usize, text: String, color: String, active: bool, sep: bool },
    /// A group with no tabs: its colour and its name.
    Empty { color: String, name: String },
}

/// A bar item as plain values.
pub enum BarView {
    More,
    Folded(Seq<char>, Seq<char>, int),
    Tab(int, Seq<char>, Seq<char>, bool, bool),
    Empty(Seq<char>, Seq<char>),
}

/// A bar item as plain values.
pub open spec fn bar_view(b: BarItem) -> BarView {
    match b {
        BarItem::More => BarView::More,
        BarItem::Folded { color, name, count } => BarView::Folded(color@, name@, count as int),
        BarItem::Tab { n, text, color, active, sep } => BarView::Tab(n as int, text@, color@, active, sep),
        BarItem::Empty { color, name } => BarView::Empty(color@, name@),
    }
}

/// Bar items as plain values.
pub open spec fn bar_views(v: Seq<BarItem>) -> Seq<BarView> {
    v.map_values(|b: BarItem| bar_view(b))
}

/// The group a tab is in, when it is in one that exists.
pub open spec fn group_of(t: Tabs, tab: Tab) -> Option<Group> {
    match tab.group {
        Some(g) => match first_index(t.groups@, group_id_is(g)) {
            Some(k) => Some(t.groups@[k]),
            None => None,
        },
        None => None,
    }
}

/// The first tab the bar shows: with many tabs in view it starts four
/// before the current one, so that one always shows.
pub open spec fn first_shown(t: Tabs) -> int {
    let vis = t.shown_below(t.tabs@.len());
    let pos = match first_index(vis, is_index(t.active)) {
        Some(p) => p,
        None => 0,
    };
    if pos >= 8 {
        vis[pos - 4] as int
    } else {
        0
    }
}

/// The first 20 characters of `s`.
pub open spec fn take20(s: Seq<char>) -> Seq<char> {
    if s.len() > 20 {
        s.take(20)
    } else {
        s
    }
}

/// A tab's text on the bar: its title, or without one its URL without
/// the scheme; cut to 20 characters and trimmed.
pub open spec fn tab_label(tab: Tab) -> Seq<char> {
    let raw = if tab.title@.len() == 0 {
        strip_all(strip_all(tab.uri@, "https://"@), "http://"@)
    } else {
        tab.title@
    };
    trim(take20(raw))
}

/// A tab's colour on the bar: its group's; without a group grey, darker
/// for a tab not loaded yet; the current tab without a group is dark on
/// its light pill.
pub open spec fn tab_color(t: Tabs, tab: Tab, active: bool) -> Seq<char> {
    match group_of(t, tab) {
        Some(g) => color_hex_spec(g.color@),
        None => if active {
            "#1e1e1e"@
        } else if tab.pending {
            "#7a7a7a"@
        } else {
            "#c8c8c8"@
        },
    }
}

/// The bar items for the tabs before `i`, with the group of the last tab
/// looked at and how many tabs in view were counted.
pub open spec fn items_upto(t: Tabs, fs: int, i: int) -> (Seq<BarView>, Option<u64>, int)
    decreases i,
{
    if i <= 0 {
        (Seq::empty(), None, 0)
    } else {
        let prev = items_upto(t, fs, i - 1);
        let j = i - 1;
        let tab = t.tabs@[j];
        if j < fs {
            (prev.0, prev.1, if t.shows(j) {
                prev.2 + 1
            } else {
                prev.2
            })
        } else {
            let g = group_of(t, tab);
            let items = if tab.group != prev.1 && g is Some && g->0.collapsed {
                prev.0.push(
                    BarView::Folded(
                        color_hex_spec(g->0.color@),
                        g->0.name@,
                        crate::commands::group_count(t.tabs@, g->0.id),
                    ),
                )
            } else {
                prev.0
            };
            let last = if tab.group != prev.1 {
                tab.group
            } else {
                prev.1
            };
            if !t.shows(j) {
                (items, last, prev.2)
            } else {
                let n = prev.2 + 1;
                let active = j == t.active;
                (
                    items.push(BarView::Tab(n, tab_label(tab), tab_color(t, tab, active), active, n > 1 && j > fs)),
                    last,
                    n,
                )
            }
        }
    }
}

/// What the tab bar shows for `t`.
pub open spec fn bar_spec(t: Tabs) -> Seq<BarView> {
    let fs = first_shown(t);
    let head: Seq<BarView> = if fs > 0 {
        seq![BarView::More]
    } else {
        Seq::empty()
    };
    let empties = keep_where(t.groups@, group_empty(t.tabs@)).map_values(
        |g: Group| BarView::Empty(color_hex_spec(g.color@), g.name@),
    );
    head + items_upto(t, fs, t.tabs@.len() as int).0 + empties
}

/// A tab's text on the bar.
fn label_of(tab: &Tab) -> (r: String)
    ensures
        r@ == tab_label(*tab),
{
    proof {
        reveal_strlit("https://");
        reveal_strlit("http://");
    }
    let title = chars_of(tab.title.as_str());
    let raw = if title.len() == 0 {
        let a = strip_all_exec(&chars_of(tab.uri.as_str()), &chars_of("https://"));
        strip_all_exec(&a, &chars_of("http://"))
    } else {
        title
    };
    let cut = if raw.len() > 20 {
        slice_chars(&raw, 0, 20)
    } else {
        slice_chars(&raw, 0, raw.len())
    };
    assert(raw@.subrange(0, raw@.len() as int) =~= raw@);
    assert(raw@.len() > 20 ==> raw@.subrange(0, 20) =~= raw@.take(20));
    string_of(trim_chars(&cut).as_slice())
}

/// What the tab bar shows, item by item.
pub fn bar_items(t: &Tabs) -> (r: Vec<BarItem>)
    requires
        t.tabs@.len() < usize::MAX,
    ensures
        bar_views(r@) == bar_spec(*t),
{
    let vis = t.visible_indices();
    let mut pos: usize = 0;
    while pos < vis.len() && vis[pos] != t.active
        invariant
            pos <= vis@.len(),
            vis@ == t.shown_below(t.tabs@.len()),
            forall|q: int| 0 <= q < pos ==> !is_index(t.active)(#[trigger] vis@[q]),
        decreases vis@.len() - pos,
    {
        pos += 1;
    }
    proof {
        lemma_first_index(vis@, is_index(t.active));
    }
    let p = if pos < vis.len() {
        assert(is_index(t.active)(vis@[pos as int]));
        pos
    } else {
        0
    };
    let fs: usize = if p >= 8 {
        vis[p - 4]
    } else {
        0
    };
    assert(fs == first_shown(*t));
    let mut out: Vec<BarItem> = Vec::new();
    if fs > 0 {
        out.push(BarItem::More);
    }
    let ghost head = bar_views(out@);
    let mut last: Option<u64> = None;
    let mut n: usize = 0;
    let mut i: usize = 0;
    assert(bar_views(out@) =~= head + items_upto(*t, fs as int, 0).0);
    while i < t.tabs.len()
        invariant
            i <= t.tabs@.len() < usize::MAX,
            fs == first_shown(*t),
            bar_views(out@) == head + items_upto(*t, fs as int, i as int).0,
            last == items_upto(*t, fs as int, i as int).1,
            n == items_upto(*t, fs as int, i as int).2,
            n <= i,
        decreases t.tabs@.len() - i,
    {
        let tab = &t.tabs[i];
        if i < fs {
            if t.visible(i) {
                n += 1;
            }
        } else {
            let g = match tab.group {
                Some(id) => t.group_by_id(id),
                None => None,
            };
            assert(g matches Some(x) ==> group_of(*t, *tab) == Some(*x));
            assert(g is None ==> group_of(*t, *tab) is None);
            if tab.group != last {
                match g {
                    Some(x) => if x.collapsed {
                        let ghost before = bar_views(out@);
                        let count = t.tabs_in(x.id).len();
                        out.push(BarItem::Folded { color: color_hex(x.color.as_str()), name: x.name.clone(), count });
                        assert(bar_views(out@) =~= before.push(
                            BarView::Folded(color_hex_spec(x.color@), x.name@, crate::commands::group_count(t.tabs@, x.id)),
                        ));
                    },
                    None => {},
                }
                last = tab.group;
            }
            if t.visible(i) {
                n += 1;
                let active = i == t.active;
                let color = match g {
                    Some(x) => color_hex(x.color.as_str()),
                    None => if active {
                        "#1e1e1e".to_owned()
                    } else if tab.pending {
                        "#7a7a7a".to_owned()
                    } else {
                        "#c8c8c8".to_owned()
                    },
                };
                let ghost before = bar_views(out@);
                out.push(BarItem::Tab { n, text: label_of(tab), color, active, sep: n > 1 && i > fs });
                assert(bar_views(out@) =~= before.push(
                    BarView::Tab(n as int, tab_label(*tab), tab_color(*t, *tab, active), active, n > 1 && i > fs),
                ));
            }
        }
        i += 1;
    }
    let empty = t.empty_groups();
    let ghost ks = keep_where(t.groups@, group_empty(t.tabs@));
    let ghost mid = bar_views(out@);
    let mut k: usize = 0;
    while k < empty.len()
        invariant
            k <= empty@.len() == ks.len(),
            forall|q: int| 0 <= q < empty@.len() ==> *empty@[q] == ks[q],
            bar_views(out@) == mid + ks.take(k as int).map_values(
                |g: Group| BarView::Empty(color_hex_spec(g.color@), g.name@),
            ),
        decreases empty@.len() - k,
    {
        let g = empty[k];
        let ghost before = bar_views(out@);
        out.push(BarItem::Empty { color: color_hex(g.color.as_str()), name: g.name.clone() });
        assert(ks.take(k + 1).map_values(|g: Group| BarView::Empty(color_hex_spec(g.color@), g.name@))
            =~= ks.take(k as int).map_values(|g: Group| BarView::Empty(color_hex_spec(g.color@), g.name@)).push(
            BarView::Empty(color_hex_spec(ks[k as int].color@), ks[k as int].name@),
        ));
        assert(bar_views(out@) =~= before.push(BarView::Empty(color_hex_spec(g.color@), g.name@)));
        k += 1;
    }
    assert(ks.take(ks.len() as int) =~= ks);
    out
}

} // verus!
