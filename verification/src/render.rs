//! Rendering a snapshot as lines of text.
//!
//! The listing is a pre-order, depth-first walk: each displayed entry
//! contributes one line — the connector prefix for its depth followed by its
//! name — and a displayed directory's whole subtree follows immediately,
//! before the entry's next sibling. [`subtree_lines`] is the specification;
//! [`render_subtree`] and [`render_tree`] compute it.
//!
//! The connector prefix of an entry is determined by its depth prefix: one
//! boolean per ancestor level (root excluded) recording whether that
//! ancestor was the last of its siblings. Every position but the last
//! renders a continuation column; the last renders the entry's own
//! connector.

use vstd::prelude::*;
use vstd::string::StringExecFns;
use crate::glyphs::GlyphSet;
use crate::tree::{
    FsNode, as_ints, dir_like, display_order, idxs_in_range, kept, lemma_display_order_complete,
    sorted_kept_indices,
};

verus! {

/// The continuation columns of a depth prefix: `blank` under an ancestor
/// that was the last of its siblings, `vertical` under one that was not.
pub open spec fn continuation_run(p: Seq<bool>, g: GlyphSet) -> Seq<char>
    decreases p.len(),
{
    if p.len() == 0 {
        Seq::empty()
    } else {
        continuation_run(p.drop_last(), g) + (if p.last() {
            g.blank@
        } else {
            g.vertical@
        })
    }
}

/// The full connector prefix of an entry with depth prefix `p`: the
/// continuation columns of the ancestor levels, then the entry's own
/// connector — `corner` when the entry is the last of its siblings,
/// `branch` otherwise.
pub open spec fn prefix_chars(p: Seq<bool>, g: GlyphSet) -> Seq<char> {
    if p.len() == 0 {
        Seq::empty()
    } else {
        continuation_run(p.drop_last(), g) + (if p.last() {
            g.corner@
        } else {
            g.branch@
        })
    }
}

/// The lines printed for the contents of `n`, one per displayed entry, in
/// pre-order: an entry's line first, then the lines of its own subtree,
/// then its next sibling.
pub open spec fn subtree_lines(n: FsNode, show_files: bool, p: Seq<bool>, g: GlyphSet) -> Seq<
    Seq<char>,
>
    decreases n, 1int, 0int,
{
    sibling_lines(n, display_order(n.children@, show_files), 0, show_files, p, g)
}

/// The lines printed for the entries of `n` listed at positions `k` and
/// later of the display order `order`.
pub open spec fn sibling_lines(
    n: FsNode,
    order: Seq<int>,
    k: int,
    show_files: bool,
    p: Seq<bool>,
    g: GlyphSet,
) -> Seq<Seq<char>>
    decreases n, 0int, order.len() - k,
{
    if k < 0 || k >= order.len() {
        Seq::empty()
    } else if 0 <= order[k] < n.children@.len() {
        let c = n.children@[order[k]];
        let cp = p.push(k == order.len() - 1);
        let line = prefix_chars(cp, g) + c.name@;
        let below = if dir_like(c) {
            subtree_lines(c, show_files, cp, g)
        } else {
            Seq::empty()
        };
        seq![line] + below + sibling_lines(n, order, k + 1, show_files, p, g)
    } else {
        sibling_lines(n, order, k + 1, show_files, p, g)
    }
}

/// Connector correctness, ancestor levels: each level of a depth prefix
/// adds one continuation column — `blank` when that ancestor was the last
/// of its siblings, `vertical` when it was not.
pub proof fn lemma_continuation_column(p: Seq<bool>, i: int, g: GlyphSet)
    requires
        0 <= i < p.len(),
    ensures
        continuation_run(p.take(i + 1), g) == continuation_run(p.take(i), g) + (if p[i] {
            g.blank@
        } else {
            g.vertical@
        }),
{
    assert(p.take(i + 1).drop_last() =~= p.take(i));
    assert(p.take(i + 1).last() == p[i]);
}

/// Connector correctness, own level: the line of the sibling at position
/// `k` of the display order is the ancestors' continuation columns, then
/// `corner` if it is the last displayed sibling and `branch` if it is not,
/// then its name.
pub proof fn lemma_sibling_connector(
    n: FsNode,
    order: Seq<int>,
    k: int,
    show_files: bool,
    p: Seq<bool>,
    g: GlyphSet,
)
    requires
        0 <= k < order.len(),
        0 <= order[k] < n.children@.len(),
    ensures
        sibling_lines(n, order, k, show_files, p, g).len() >= 1,
        sibling_lines(n, order, k, show_files, p, g)[0] == continuation_run(p, g) + (if k
            == order.len() - 1 {
            g.corner@
        } else {
            g.branch@
        }) + n.children@[order[k]].name@,
{
    let cp = p.push(k == order.len() - 1);
    assert(cp.drop_last() =~= p);
    assert(cp.last() == (k == order.len() - 1));
    let c = n.children@[order[k]];
    let line = prefix_chars(cp, g) + c.name@;
    let below = if dir_like(c) {
        subtree_lines(c, show_files, cp, g)
    } else {
        Seq::<Seq<char>>::empty()
    };
    let rest = sibling_lines(n, order, k + 1, show_files, p, g);
    assert(sibling_lines(n, order, k, show_files, p, g) == seq![line] + below + rest);
    assert((seq![line] + below + rest)[0] == line);
}

/// A directory with nothing to display — empty, unreadable, or holding
/// only filtered-out entries — contributes no lines below its own.
pub proof fn lemma_no_kept_entries_no_lines(n: FsNode, show_files: bool, p: Seq<bool>, g: GlyphSet)
    requires
        forall|i: int|
            0 <= i < n.children@.len() ==> !kept(#[trigger] n.children@[i], show_files),
    ensures
        subtree_lines(n, show_files, p, g) == Seq::<Seq<char>>::empty(),
{
    lemma_display_order_complete(n.children@, show_files);
    let ord = display_order(n.children@, show_files);
    if ord.len() > 0 {
        assert(ord.contains(ord[0]));
        assert(false);
    }
}

/// Unreadable-subdirectory tolerance: a directory-like entry whose contents
/// could not be read — represented with no children — still gets its own
/// line, and contributes exactly that line.
pub proof fn lemma_unreadable_directory(
    n: FsNode,
    order: Seq<int>,
    k: int,
    show_files: bool,
    p: Seq<bool>,
    g: GlyphSet,
)
    requires
        0 <= k < order.len(),
        0 <= order[k] < n.children@.len(),
        dir_like(n.children@[order[k]]),
        n.children@[order[k]].children@.len() == 0,
    ensures
        sibling_lines(n, order, k, show_files, p, g) == seq![
            sibling_lines(n, order, k, show_files, p, g)[0],
        ] + sibling_lines(n, order, k + 1, show_files, p, g),
{
    let c = n.children@[order[k]];
    let cp = p.push(k == order.len() - 1);
    lemma_no_kept_entries_no_lines(c, show_files, cp, g);
    let line = prefix_chars(cp, g) + c.name@;
    let rest = sibling_lines(n, order, k + 1, show_files, p, g);
    assert(sibling_lines(n, order, k, show_files, p, g) == seq![line]
        + Seq::<Seq<char>>::empty() + rest);
    assert(seq![line] + Seq::<Seq<char>>::empty() + rest =~= seq![line] + rest);
    assert((seq![line] + Seq::<Seq<char>>::empty() + rest)[0] == line);
    assert(seq![sibling_lines(n, order, k, show_files, p, g)[0]] + rest =~= seq![line] + rest);
}

/// Idempotence: the display is a function of the snapshot alone, so any two
/// renderings of the same unmodified snapshot agree byte for byte.
pub proof fn lemma_render_deterministic(
    l1: Seq<String>,
    l2: Seq<String>,
    root_name: Seq<char>,
    root: FsNode,
    show_files: bool,
    g: GlyphSet,
)
    requires
        views_of(l1) == seq![root_name] + subtree_lines(root, show_files, Seq::empty(), g),
        views_of(l2) == seq![root_name] + subtree_lines(root, show_files, Seq::empty(), g),
    ensures
        views_of(l1) == views_of(l2),
{
}

/// The views of a vector of lines.
pub open spec fn views_of(lines: Seq<String>) -> Seq<Seq<char>> {
    lines.map_values(|s: String| s@)
}

/// Copies a depth prefix and appends one level to it.
fn extended_prefix(p: &Vec<bool>, is_last: bool) -> (r: Vec<bool>)
    ensures
        r@ == p@.push(is_last),
{
    let mut r: Vec<bool> = Vec::new();
    let mut i: usize = 0;
    while i < p.len()
        invariant
            i <= p@.len(),
            r@ == p@.take(i as int),
        decreases p@.len() - i,
    {
        r.push(p[i]);
        proof {
            assert(r@ =~= p@.take(i + 1));
        }
        i = i + 1;
    }
    proof {
        assert(p@.take(p@.len() as int) =~= p@);
    }
    r.push(is_last);
    r
}

/// Renders the connector prefix for the depth prefix `p`.
pub fn render_prefix(p: &Vec<bool>, g: &GlyphSet) -> (s: String)
    ensures
        s@ == prefix_chars(p@, *g),
{
    let mut s = String::new();
    if p.len() == 0 {
        return s;
    }
    let own_level = p.len() - 1;
    let mut i: usize = 0;
    while i < own_level
        invariant
            own_level == p@.len() - 1,
            i <= own_level,
            s@ == continuation_run(p@.take(i as int), *g),
        decreases own_level - i,
    {
        if p[i] {
            s.append(g.blank.as_str());
        } else {
            s.append(g.vertical.as_str());
        }
        proof {
            assert(p@.take(i + 1).drop_last() =~= p@.take(i as int));
            assert(p@.take(i + 1).last() == p@[i as int]);
        }
        i = i + 1;
    }
    if p[own_level] {
        s.append(g.corner.as_str());
    } else {
        s.append(g.branch.as_str());
    }
    proof {
        assert(p@.take(own_level as int) =~= p@.drop_last());
        assert(p@.last() == p@[own_level as int]);
    }
    s
}

/// Renders the listing of the directory snapshot `node`: the lines for its
/// contents, in display order, each consisting of the connector prefix for
/// its depth followed by the entry's name. The caller prints the root's own
/// name; this function renders children only.
pub fn render_subtree(node: &FsNode, show_files: bool, p: &Vec<bool>, g: &GlyphSet) -> (lines: Vec<
    String,
>)
    ensures
        views_of(lines@) == subtree_lines(*node, show_files, p@, *g),
    decreases *node,
{
    let ord = sorted_kept_indices(&node.children, show_files);
    let ghost order = as_ints(ord@);
    let count = ord.len();
    let mut lines: Vec<String> = Vec::new();
    proof {
        assert(views_of(lines@) =~= Seq::empty());
        assert(views_of(lines@) + sibling_lines(*node, order, 0, show_files, p@, *g)
            =~= sibling_lines(*node, order, 0, show_files, p@, *g));
    }
    let mut k: usize = 0;
    while k < count
        invariant
            count == ord@.len(),
            k <= count,
            order == as_ints(ord@),
            order == display_order(node.children@, show_files),
            idxs_in_range(order, node.children@.len() as int),
            forall|m: int| 0 <= m < ord@.len() ==> (#[trigger] ord@[m] as int) < node.children@.len(),
            views_of(lines@) + sibling_lines(*node, order, k as int, show_files, p@, *g)
                == sibling_lines(*node, order, 0, show_files, p@, *g),
        decreases count - k,
    {
        let idx = ord[k];
        proof {
            assert(order[k as int] == idx as int);
            assert(0 <= order[k as int] < node.children@.len());
        }
        let child = &node.children[idx];
        let is_last = k == count - 1;
        let cp = extended_prefix(p, is_last);
        let mut line = render_prefix(&cp, g);
        line.append(child.name.as_str());
        let ghost lines_before = lines@;
        lines.push(line);
        let ghost below = if dir_like(*child) {
            subtree_lines(*child, show_files, cp@, *g)
        } else {
            Seq::<Seq<char>>::empty()
        };
        if child.is_dir {
            let mut sub = render_subtree(child, show_files, &cp, g);
            lines.append(&mut sub);
        }
        proof {
            let c = node.children@[order[k as int]];
            assert(c == *child);
            assert(cp@ == p@.push(k == count - 1));
            assert(line@ == prefix_chars(cp@, *g) + c.name@);
            assert(sibling_lines(*node, order, k as int, show_files, p@, *g) == seq![line@]
                + below + sibling_lines(*node, order, k + 1, show_files, p@, *g));
            assert(views_of(lines@) =~= views_of(lines_before) + seq![line@] + below);
            assert(views_of(lines_before) + (seq![line@] + below + sibling_lines(
                *node,
                order,
                k + 1,
                show_files,
                p@,
                *g,
            )) =~= (views_of(lines_before) + seq![line@] + below) + sibling_lines(
                *node,
                order,
                k + 1,
                show_files,
                p@,
                *g,
            ));
        }
        k = k + 1;
    }
    proof {
        assert(sibling_lines(*node, order, count as int, show_files, p@, *g) =~= Seq::empty());
        assert(views_of(lines@) + Seq::<Seq<char>>::empty() =~= views_of(lines@));
    }
    lines
}

/// Renders the whole display: the root's display name on the first line
/// with no prefix, then the recursive listing of the root's contents.
pub fn render_tree(root_name: &str, root: &FsNode, show_files: bool, g: &GlyphSet) -> (lines: Vec<
    String,
>)
    ensures
        views_of(lines@) == seq![root_name@] + subtree_lines(
            *root,
            show_files,
            Seq::empty(),
            *g,
        ),
{
    let mut lines: Vec<String> = Vec::new();
    lines.push(root_name.to_owned());
    let empty_prefix: Vec<bool> = Vec::new();
    let mut sub = render_subtree(root, show_files, &empty_prefix, g);
    let ghost sub_view = views_of(sub@);
    lines.append(&mut sub);
    proof {
        assert(empty_prefix@ =~= Seq::<bool>::empty());
        assert(views_of(lines@) =~= seq![root_name@] + sub_view);
    }
    lines
}

} // verus!
