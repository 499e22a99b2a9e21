//! Ordering the open windows for a picker menu: windows the history knows
//! come first, in recency order, then the rest in the order the window
//! manager listed them.

use vstd::prelude::*;

verus! {

/// Where the currently focused window goes in the picker's list.
#[derive(Clone, Copy, Debug, PartialEq, Eq, Structural)]
pub enum WindowsSortStyle {
    /// Leave the current window out of the recency group; it then falls to
    /// the back with the windows the history does not know.
    CurrentLast,
    /// Keep the current window first.
    CurrentFirst,
}

/// Options of the picker-menu command.
pub struct MenuOpts {
    /// The menu program to run, with its arguments.
    pub menu: String,
    /// Where the icon map file lies.
    pub icons_map: String,
}

impl Default for MenuOpts {
    fn default() -> (r: MenuOpts)
        ensures
            r.menu@ == "rofi -show-icons -dmenu -matching fuzzy -markup-rows -i -p window -format i"@,
            r.icons_map@ == "~/.config/i3-focus-last/icons.json"@,
    {
        MenuOpts {
            menu: "rofi -show-icons -dmenu -matching fuzzy -markup-rows -i -p window -format i".to_owned(),
            icons_map: "~/.config/i3-focus-last/icons.json".to_owned(),
        }
    }
}

/// The part of the history the picker sorts by: without its front entry
/// when the current window is to fall to the back.
pub open spec fn effective_history(hist: Seq<i64>, style: WindowsSortStyle) -> Seq<i64> {
    if style == WindowsSortStyle::CurrentLast && hist.len() > 0 {
        hist.drop_first()
    } else {
        hist
    }
}

/// The history entries that are open right now, in history order.
pub open spec fn kept(h: Seq<i64>, present: Seq<i64>) -> Seq<i64>
    decreases h.len(),
{
    if h.len() == 0 {
        Seq::empty()
    } else {
        kept(h.drop_last(), present) + if present.contains(h.last()) {
            seq![h.last()]
        } else {
            Seq::empty()
        }
    }
}

/// The open windows the history does not know, in the order given.
pub open spec fn leftovers(present: Seq<i64>, h: Seq<i64>) -> Seq<i64>
    decreases present.len(),
{
    if present.len() == 0 {
        Seq::empty()
    } else {
        leftovers(present.drop_last(), h) + if h.contains(present.last()) {
            Seq::empty()
        } else {
            seq![present.last()]
        }
    }
}

/// The picker's order: known windows by recency, then the rest.
pub open spec fn ordered_windows_model(
    hist: Seq<i64>,
    present: Seq<i64>,
    style: WindowsSortStyle,
) -> Seq<i64> {
    let h = effective_history(hist, style);
    kept(h, present) + leftovers(present, h)
}

/// Whether `x` stands anywhere in `v`.
fn vec_has(v: &Vec<i64>, x: i64) -> (r: bool)
    ensures
        r == v@.contains(x),
{
    let n = v.len();
    let mut i: usize = 0;
    while i < n
        invariant
            i <= n,
            n == v.len(),
            forall|j: int| 0 <= j < i ==> v@[j] != x,
        decreases n - i,
    {
        if v[i] == x {
            assert(v@.contains(x)) by {
                assert(v@[i as int] == x);
            }
            return true;
        }
        i += 1;
    }
    false
}

/// Order the open windows (`present`, as the window manager listed them)
/// for a picker: the ones the focus history (`hist`, most recent first)
/// knows come first, in history order, then the rest.
pub fn order_windows_by_history(
    hist: &Vec<i64>,
    present: &Vec<i64>,
    style: WindowsSortStyle,
) -> (r: Vec<i64>)
    ensures
        r@ == ordered_windows_model(hist@, present@, style),
{
    // the part of the history to sort by
    let start: usize = match style {
        WindowsSortStyle::CurrentLast => if hist.len() > 0 {
            1
        } else {
            0
        },
        WindowsSortStyle::CurrentFirst => 0,
    };
    let mut heff: Vec<i64> = Vec::new();
    let mut i: usize = start;
    while i < hist.len()
        invariant
            start <= i <= hist.len(),
            heff@ == hist@.subrange(start as int, i as int),
        decreases hist.len() - i,
    {
        heff.push(hist[i]);
        assert(heff@ =~= hist@.subrange(start as int, i + 1));
        i += 1;
    }
    proof {
        assert(heff@ =~= effective_history(hist@, style));
    }
    let mut out: Vec<i64> = Vec::new();
    let mut i: usize = 0;
    while i < heff.len()
        invariant
            i <= heff.len(),
            out@ == kept(heff@.take(i as int), present@),
        decreases heff.len() - i,
    {
        proof {
            assert(heff@.take(i + 1).drop_last() =~= heff@.take(i as int));
            assert(heff@.take(i + 1).last() == heff@[i as int]);
        }
        if vec_has(present, heff[i]) {
            out.push(heff[i]);
        }
        assert(out@ =~= kept(heff@.take(i + 1), present@));
        i += 1;
    }
    assert(heff@.take(heff@.len() as int) =~= heff@);
    let mut i: usize = 0;
    while i < present.len()
        invariant
            i <= present.len(),
            out@ == kept(heff@, present@) + leftovers(present@.take(i as int), heff@),
        decreases present.len() - i,
    {
        proof {
            assert(present@.take(i + 1).drop_last() =~= present@.take(i as int));
            assert(present@.take(i + 1).last() == present@[i as int]);
        }
        if !vec_has(&heff, present[i]) {
            out.push(present[i]);
        }
        assert(out@ =~= kept(heff@, present@) + leftovers(present@.take(i + 1), heff@));
        i += 1;
    }
    assert(present@.take(present@.len() as int) =~= present@);
    out
}

} // verus!
