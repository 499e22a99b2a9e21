//! The focus-chain walk over the window manager's layout tree. The tree
//! comes in as a record of plain values — id, focused mark, focus chain
//! and children — and the walk follows the first focus entry downward
//! until it reaches the focused view.

use vstd::prelude::*;

verus! {

/// A node of the layout tree, holding what the walk reads of it.
pub struct WmNode {
    /// The container id.
    pub id: i64,
    /// Whether this container currently has the focus.
    pub focused: bool,
    /// The ids of this container's focus order, most recently focused
    /// first.
    pub focus: Vec<i64>,
    /// The child containers.
    pub nodes: Vec<WmNode>,
}

/// The first node of `nodes` carrying the id `fid`, if any.
pub open spec fn find_child(nodes: Seq<WmNode>, fid: i64) -> Option<WmNode>
    decreases nodes.len(),
{
    if nodes.len() == 0 {
        None
    } else if nodes[0].id == fid {
        Some(nodes[0])
    } else {
        find_child(nodes.drop_first(), fid)
    }
}

/// The id the focus chain leads to: this node's, when it is focused,
/// else the one its most recently focused child leads to.
pub open spec fn focused_window_model(n: WmNode) -> Option<i64>
    decreases n via focused_window_model_decreases
{
    if n.focused {
        Some(n.id)
    } else if n.focus@.len() == 0 {
        None
    } else {
        match find_child(n.nodes@, n.focus@[0]) {
            Some(c) => focused_window_model(c),
            None => None,
        }
    }
}

/// A found child is an element of the children, so the walk descends.
proof fn lemma_find_child_is_element(nodes: Seq<WmNode>, fid: i64)
    ensures
        match find_child(nodes, fid) {
            Some(c) => exists|i: int| 0 <= i < nodes.len() && nodes[i] == c,
            None => true,
        },
    decreases nodes.len(),
{
    if nodes.len() > 0 && nodes[0].id != fid {
        lemma_find_child_is_element(nodes.drop_first(), fid);
        match find_child(nodes.drop_first(), fid) {
            Some(c) => {
                let i = choose|i: int|
                    0 <= i < nodes.drop_first().len() && nodes.drop_first()[i] == c;
                assert(nodes[i + 1] == c);
            },
            None => {},
        }
    }
}

#[via_fn]
proof fn focused_window_model_decreases(n: WmNode) {
    if !n.focused && n.focus@.len() > 0 {
        lemma_find_child_is_element(n.nodes@, n.focus@[0]);
        match find_child(n.nodes@, n.focus@[0]) {
            Some(c) => {
                let i = choose|i: int| 0 <= i < n.nodes@.len() && n.nodes@[i] == c;
                assert(decreases_to!(n => n.nodes));
                assert(decreases_to!(n.nodes => n.nodes@[i]));
            },
            None => {},
        }
    }
}

/// Walk the focus chain down to the focused view and return its id;
/// `None` when the chain breaks off or no node is focused.
pub fn focused_window(root: &WmNode) -> (r: Option<i64>)
    ensures
        r == focused_window_model(*root),
    decreases *root,
{
    if root.focused {
        return Some(root.id);
    }
    if root.focus.len() == 0 {
        return None;
    }
    let fid = root.focus[0];
    let count = root.nodes.len();
    let mut i: usize = 0;
    assert(root.nodes@.skip(0) =~= root.nodes@);
    while i < count
        invariant
            i <= count,
            count == root.nodes@.len(),
            !root.focused,
            root.focus@.len() > 0,
            fid == root.focus@[0],
            forall|j: int| 0 <= j < i ==> root.nodes@[j].id != fid,
            find_child(root.nodes@, fid) == find_child(root.nodes@.skip(i as int), fid),
        decreases count - i,
    {
        proof {
            assert(root.nodes@.skip(i as int)[0] == root.nodes@[i as int]);
            assert(root.nodes@.skip(i as int).drop_first() =~= root.nodes@.skip(i + 1));
        }
        if root.nodes[i].id == fid {
            proof {
                assert(find_child(root.nodes@, fid) == Some(root.nodes@[i as int]));
                assert(decreases_to!(*root => root.nodes));
                assert(decreases_to!(root.nodes => root.nodes@[i as int]));
            }
            return focused_window(&root.nodes[i]);
        }
        i += 1;
    }
    proof {
        assert(root.nodes@.skip(count as int) =~= Seq::<WmNode>::empty());
    }
    None
}

} // verus!
