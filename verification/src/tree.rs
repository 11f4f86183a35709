//! The snapshot model of a filesystem subtree, and the listing order.
//!
//! An [`FsNode`] records, for one directory entry, its name, the metadata
//! flags that the display depends on, and — for directories — the entries
//! that could be read from it. A directory that could not be read is
//! represented with no children, which makes it print as a leaf.
//!
//! A directory's listing shows its directory-like children always and its
//! file-like children only on request, in ascending name order. That
//! selection and order is specified by [`display_order`] and computed by
//! [`sorted_kept_indices`].

use vstd::prelude::*;
use vstd::multiset::Multiset;
use crate::order::{lex_le, str_le, lemma_lex_total, lemma_lex_trans};

verus! {

broadcast use vstd::seq_lib::group_seq_properties;

/// One entry of the snapshot: a name, the classification flags read from the
/// entry's metadata, and the child entries when the entry is a readable
/// directory.
pub struct FsNode {
    /// The entry's display name (its final path component).
    pub name: String,
    /// Whether metadata reports the entry as a directory.
    pub is_dir: bool,
    /// Whether metadata reports the entry as a regular file.
    pub is_file: bool,
    /// Whether metadata reports the entry as a symbolic link.
    pub is_symlink: bool,
    /// The entries read from the directory; empty for non-directories and
    /// for directories that could not be read.
    pub children: Vec<FsNode>,
}

/// An entry is directory-like when its metadata reports a directory.
pub open spec fn dir_like(n: FsNode) -> bool {
    n.is_dir
}

/// An entry is file-like when it is not a directory but a regular file or a
/// symbolic link. Symbolic links are leaves: they are displayed, never
/// entered.
pub open spec fn file_like(n: FsNode) -> bool {
    !n.is_dir && (n.is_file || n.is_symlink)
}

/// Whether an entry appears in its parent's listing: directory-like entries
/// always do, file-like entries only when `show_files` is set, and entries
/// that are neither (special file types, or entries whose metadata could not
/// be read) never do.
pub open spec fn kept(n: FsNode, show_files: bool) -> bool {
    dir_like(n) || (show_files && file_like(n))
}

/// Executable entry classification, verified against [`kept`].
pub fn keeps(n: &FsNode, show_files: bool) -> (r: bool)
    ensures
        r == kept(*n, show_files),
{
    n.is_dir || (show_files && !n.is_dir && (n.is_file || n.is_symlink))
}

/// The name of the child of `cs` at index `i`, as a character sequence.
pub open spec fn name_at(cs: Seq<FsNode>, i: int) -> Seq<char> {
    cs[i].name@
}

/// The indices below `k` of the entries of `cs` that the listing keeps, in
/// increasing index order.
pub open spec fn kept_indices_upto(cs: Seq<FsNode>, show_files: bool, k: int) -> Seq<int>
    decreases k,
{
    if k <= 0 {
        Seq::empty()
    } else if kept(cs[k - 1], show_files) {
        kept_indices_upto(cs, show_files, k - 1).push(k - 1)
    } else {
        kept_indices_upto(cs, show_files, k - 1)
    }
}

/// The indices of all entries of `cs` that the listing keeps, in increasing
/// index order.
pub open spec fn kept_indices(cs: Seq<FsNode>, show_files: bool) -> Seq<int> {
    kept_indices_upto(cs, show_files, cs.len() as int)
}

/// Inserts index `i` into the index sequence `s` directly before the first
/// entry whose name exceeds the name at `i`.
pub open spec fn insert_by_name(cs: Seq<FsNode>, i: int, s: Seq<int>) -> Seq<int>
    decreases s.len(),
{
    if s.len() == 0 {
        seq![i]
    } else if lex_le(name_at(cs, s[0]), name_at(cs, i)) {
        seq![s[0]] + insert_by_name(cs, i, s.drop_first())
    } else {
        seq![i] + s
    }
}

/// Sorts the index sequence `s` by the names of the entries of `cs` it
/// points at, by insertion.
pub open spec fn sort_by_name(cs: Seq<FsNode>, s: Seq<int>) -> Seq<int>
    decreases s.len(),
{
    if s.len() == 0 {
        Seq::empty()
    } else {
        insert_by_name(cs, s.last(), sort_by_name(cs, s.drop_last()))
    }
}

/// The order in which a directory's entries are displayed: the kept entries,
/// as indices into `cs`, in ascending name order.
pub open spec fn display_order(cs: Seq<FsNode>, show_files: bool) -> Seq<int> {
    sort_by_name(cs, kept_indices(cs, show_files))
}

/// Every index of `s` points into a sequence of length `n`.
pub open spec fn idxs_in_range(s: Seq<int>, n: int) -> bool {
    forall|k: int| 0 <= k < s.len() ==> 0 <= #[trigger] s[k] < n
}

/// The names that `s` points at appear in ascending order.
pub open spec fn names_sorted(cs: Seq<FsNode>, s: Seq<int>) -> bool {
    forall|k1: int, k2: int|
        0 <= k1 < k2 < s.len() ==> lex_le(name_at(cs, #[trigger] s[k1]), name_at(cs, #[trigger] s[k2]))
}

/// The kept indices below `k` are exactly the indices below `k` of kept
/// entries, each once, in increasing order.
pub proof fn lemma_kept_indices_upto(cs: Seq<FsNode>, show_files: bool, k: int)
    ensures
        forall|j1: int, j2: int|
            0 <= j1 < j2 < kept_indices_upto(cs, show_files, k).len()
                ==> #[trigger] kept_indices_upto(cs, show_files, k)[j1]
                < #[trigger] kept_indices_upto(cs, show_files, k)[j2],
        forall|j: int|
            0 <= j < kept_indices_upto(cs, show_files, k).len()
                ==> 0 <= #[trigger] kept_indices_upto(cs, show_files, k)[j] < k,
        forall|i: int|
            #[trigger] kept_indices_upto(cs, show_files, k).contains(i)
                <==> (0 <= i < k && kept(cs[i], show_files)),
    decreases k,
{
    if k > 0 {
        lemma_kept_indices_upto(cs, show_files, k - 1);
        let u = kept_indices_upto(cs, show_files, k - 1);
        let r = kept_indices_upto(cs, show_files, k);
        if kept(cs[k - 1], show_files) {
            assert(r == u.push(k - 1));
            assert forall|i: int| #[trigger] r.contains(i) implies (0 <= i < k && kept(
                cs[i],
                show_files,
            )) by {
                let j = choose|j: int| 0 <= j < r.len() && r[j] == i;
                if j < u.len() {
                    assert(u[j] == i);
                    assert(u.contains(i));
                }
            }
            assert forall|i: int| 0 <= i < k && kept(cs[i], show_files) implies #[trigger] r
                .contains(i) by {
                if i < k - 1 {
                    assert(u.contains(i));
                    let j = choose|j: int| 0 <= j < u.len() && u[j] == i;
                    assert(r[j] == i);
                } else {
                    assert(r[r.len() - 1] == i);
                }
            }
        } else {
            assert(r == u);
            assert forall|i: int| #[trigger] r.contains(i) implies (0 <= i < k && kept(
                cs[i],
                show_files,
            )) by {
                assert(u.contains(i));
            }
            assert forall|i: int| 0 <= i < k && kept(cs[i], show_files) implies #[trigger] r
                .contains(i) by {
                assert(i != k - 1);
                assert(u.contains(i));
            }
        }
    }
}

/// Inserting an index by name preserves sortedness and adds exactly that
/// index to the collection.
pub proof fn lemma_insert_by_name(cs: Seq<FsNode>, i: int, s: Seq<int>)
    requires
        names_sorted(cs, s),
    ensures
        names_sorted(cs, insert_by_name(cs, i, s)),
        insert_by_name(cs, i, s).to_multiset() =~= s.to_multiset().insert(i),
        insert_by_name(cs, i, s).len() == s.len() + 1,
        forall|j: int| insert_by_name(cs, i, s).contains(j) <==> (s.contains(j) || j == i),
    decreases s.len(),
{
    broadcast use vstd::seq_lib::group_to_multiset_ensures;
    broadcast use vstd::multiset::group_multiset_axioms;

    let r = insert_by_name(cs, i, s);
    if s.len() == 0 {
        assert(r =~= Seq::empty().push(i));
        assert(s.to_multiset() =~= Multiset::empty()) by {
            s.to_multiset_ensures();
        }
    } else if lex_le(name_at(cs, s[0]), name_at(cs, i)) {
        let t = s.drop_first();
        assert(names_sorted(cs, t)) by {
            assert(forall|k1: int, k2: int|
                0 <= k1 < k2 < t.len() ==> t[k1] == s[k1 + 1] && t[k2] == s[k2 + 1]);
        }
        lemma_insert_by_name(cs, i, t);
        let rt = insert_by_name(cs, i, t);
        assert(r =~= seq![s[0]] + rt);
        // The head is at most every element behind it.
        assert forall|k2: int| 1 <= k2 < r.len() implies lex_le(
            name_at(cs, r[0]),
            name_at(cs, r[k2]),
        ) by {
            assert(rt.contains(r[k2]));
            let m = choose|m: int| 0 <= m < rt.len() && rt[m] == r[k2];
            if t.contains(r[k2]) {
                let j = choose|j: int| 0 <= j < t.len() && t[j] == r[k2];
                assert(s[j + 1] == t[j]);
                assert(lex_le(name_at(cs, s[0]), name_at(cs, s[j + 1])));
            } else {
                assert(r[k2] == i);
            }
        }
        assert(names_sorted(cs, r)) by {
            assert(forall|k1: int, k2: int|
                1 <= k1 < k2 < r.len() ==> r[k1] == rt[k1 - 1] && r[k2] == rt[k2 - 1]);
        }
        // Multiset bookkeeping: r = [s[0]] + rt.
        assert(r =~= rt.insert(0, s[0]));
        assert(r.to_multiset() =~= rt.to_multiset().insert(s[0])) by {
            rt.to_multiset_ensures();
        }
        assert(s =~= t.insert(0, s[0]));
        assert(s.to_multiset() =~= t.to_multiset().insert(s[0])) by {
            t.to_multiset_ensures();
        }
    } else {
        lemma_lex_total(name_at(cs, s[0]), name_at(cs, i));
        assert(r =~= seq![i] + s);
        assert forall|k2: int| 1 <= k2 < r.len() implies lex_le(
            name_at(cs, r[0]),
            name_at(cs, r[k2]),
        ) by {
            if k2 > 1 {
                lemma_lex_trans(name_at(cs, i), name_at(cs, s[0]), name_at(cs, s[k2 - 1]));
            }
        }
        assert(names_sorted(cs, r)) by {
            assert(forall|k1: int, k2: int|
                1 <= k1 < k2 < r.len() ==> r[k1] == s[k1 - 1] && r[k2] == s[k2 - 1]);
        }
        assert(r =~= s.insert(0, i));
        assert(r.to_multiset() =~= s.to_multiset().insert(i)) by {
            s.to_multiset_ensures();
        }
    }
    assert forall|j: int| r.contains(j) <==> (s.contains(j) || j == i) by {
        r.to_multiset_ensures();
        s.to_multiset_ensures();
        assert(r.contains(j) <==> r.to_multiset().count(j) > 0);
        assert(s.contains(j) <==> s.to_multiset().count(j) > 0);
        assert(r.to_multiset().count(j) == s.to_multiset().insert(i).count(j));
    }
}

/// Sorting by name keeps exactly the same indices and puts their names in
/// ascending order.
pub proof fn lemma_sort_by_name(cs: Seq<FsNode>, s: Seq<int>)
    ensures
        names_sorted(cs, sort_by_name(cs, s)),
        sort_by_name(cs, s).to_multiset() =~= s.to_multiset(),
        sort_by_name(cs, s).len() == s.len(),
        forall|j: int| sort_by_name(cs, s).contains(j) <==> s.contains(j),
    decreases s.len(),
{
    broadcast use vstd::seq_lib::group_to_multiset_ensures;
    broadcast use vstd::multiset::group_multiset_axioms;

    if s.len() > 0 {
        let t = s.drop_last();
        lemma_sort_by_name(cs, t);
        lemma_insert_by_name(cs, s.last(), sort_by_name(cs, t));
        assert(s =~= t.push(s.last()));
        assert(s.to_multiset() =~= t.to_multiset().insert(s.last())) by {
            t.to_multiset_ensures();
        }
        let r = sort_by_name(cs, s);
        assert(r.to_multiset() =~= s.to_multiset());
        assert forall|j: int| r.contains(j) <==> s.contains(j) by {
            r.to_multiset_ensures();
            s.to_multiset_ensures();
            assert(r.contains(j) <==> r.to_multiset().count(j) > 0);
            assert(s.contains(j) <==> s.to_multiset().count(j) > 0);
            assert(r.to_multiset().count(j) == s.to_multiset().count(j));
        }
    }
}

/// The displayed listing of a directory holds exactly the kept entries —
/// every kept entry exactly once, nothing else — in ascending name order.
pub proof fn lemma_display_order_complete(cs: Seq<FsNode>, show_files: bool)
    ensures
        idxs_in_range(display_order(cs, show_files), cs.len() as int),
        names_sorted(cs, display_order(cs, show_files)),
        forall|i: int|
            #[trigger] display_order(cs, show_files).contains(i)
                <==> (0 <= i < cs.len() && kept(cs[i], show_files)),
        forall|i: int|
            0 <= i < cs.len() && kept(cs[i], show_files)
                ==> display_order(cs, show_files).to_multiset().count(i) == 1,
        display_order(cs, show_files).no_duplicates(),
{
    broadcast use vstd::seq_lib::group_to_multiset_ensures;
    broadcast use vstd::multiset::group_multiset_axioms;

    let ki = kept_indices(cs, show_files);
    let ord = display_order(cs, show_files);
    lemma_kept_indices_upto(cs, show_files, cs.len() as int);
    lemma_sort_by_name(cs, ki);
    assert(ord == sort_by_name(cs, ki));
    assert forall|i: int| #[trigger] ord.contains(i) <==> (0 <= i < cs.len() && kept(
        cs[i],
        show_files,
    )) by {
        assert(sort_by_name(cs, ki).contains(i) <==> ki.contains(i));
        assert(kept_indices_upto(cs, show_files, cs.len() as int).contains(i) <==> (0 <= i
            < cs.len() && kept(cs[i], show_files)));
    }
    assert(ki.no_duplicates()) by {
        assert forall|j1: int, j2: int|
            0 <= j1 < j2 < ki.len() implies #[trigger] ki[j1] != #[trigger] ki[j2] by {
            assert(kept_indices_upto(cs, show_files, cs.len() as int)[j1] < kept_indices_upto(
                cs,
                show_files,
                cs.len() as int,
            )[j2]);
        }
    }
    ki.lemma_multiset_has_no_duplicates();
    assert forall|x: int| ord.to_multiset().contains(x) implies ord.to_multiset().count(x)
        == 1 by {
        assert(sort_by_name(cs, ki).to_multiset() =~= ki.to_multiset());
        ki.to_multiset_ensures();
        ord.to_multiset_ensures();
    }
    ord.lemma_multiset_has_no_duplicates_conv();
    assert(idxs_in_range(ord, cs.len() as int)) by {
        assert(forall|k: int| 0 <= k < ord.len() ==> ord.contains(#[trigger] ord[k]));
    }
    assert forall|i: int|
        0 <= i < cs.len() && kept(cs[i], show_files) implies ord.to_multiset().count(i) == 1 by {
        assert(ord.contains(i));
        ord.to_multiset_ensures();
    }
}

/// The directory-like lines of a listing are exactly the subdirectories
/// that the snapshot recorded: every directory-like entry is listed whatever
/// the file flag says, and with files hidden nothing else is.
pub proof fn lemma_directory_lines(cs: Seq<FsNode>, show_files: bool)
    ensures
        forall|i: int|
            0 <= i < cs.len() && dir_like(#[trigger] cs[i]) ==> display_order(
                cs,
                show_files,
            ).contains(i),
        forall|i: int|
            #[trigger] display_order(cs, false).contains(i) ==> 0 <= i < cs.len() && dir_like(
                cs[i],
            ),
{
    lemma_display_order_complete(cs, show_files);
    lemma_display_order_complete(cs, false);
}

/// With distinct names — as a real directory guarantees — the listing is
/// strictly ascending: no two displayed siblings compare equal.
pub proof fn lemma_display_order_strict(cs: Seq<FsNode>, show_files: bool)
    requires
        forall|i: int, j: int| 0 <= i < j < cs.len() ==> name_at(cs, i) != name_at(cs, j),
    ensures
        forall|k1: int, k2: int|
            0 <= k1 < k2 < display_order(cs, show_files).len() ==> lex_le(
                name_at(cs, #[trigger] display_order(cs, show_files)[k1]),
                name_at(cs, #[trigger] display_order(cs, show_files)[k2]),
            ) && name_at(cs, display_order(cs, show_files)[k1]) != name_at(
                cs,
                display_order(cs, show_files)[k2],
            ),
{
    lemma_display_order_complete(cs, show_files);
    let ord = display_order(cs, show_files);
    assert forall|k1: int, k2: int| 0 <= k1 < k2 < ord.len() implies lex_le(
        name_at(cs, #[trigger] ord[k1]),
        name_at(cs, #[trigger] ord[k2]),
    ) && name_at(cs, ord[k1]) != name_at(cs, ord[k2]) by {
        assert(ord[k1] != ord[k2]);
        if ord[k1] < ord[k2] {
            assert(name_at(cs, ord[k1]) != name_at(cs, ord[k2]));
        } else {
            assert(name_at(cs, ord[k2]) != name_at(cs, ord[k1]));
        }
    }
}

/// The names of a directory's listing, in the order they are displayed.
pub open spec fn display_names(cs: Seq<FsNode>, show_files: bool) -> Seq<Seq<char>> {
    display_order(cs, show_files).map_values(|i: int| name_at(cs, i))
}

/// A sequence of names in strictly ascending order.
pub open spec fn strictly_ascending(s: Seq<Seq<char>>) -> bool {
    forall|k1: int, k2: int|
        0 <= k1 < k2 < s.len() ==> lex_le(#[trigger] s[k1], #[trigger] s[k2]) && s[k1] != s[k2]
}

/// Two strictly ascending name sequences with the same members are equal.
pub proof fn lemma_strictly_ascending_unique(s1: Seq<Seq<char>>, s2: Seq<Seq<char>>)
    requires
        strictly_ascending(s1),
        strictly_ascending(s2),
        forall|x: Seq<char>| s1.contains(x) <==> s2.contains(x),
    ensures
        s1 == s2,
    decreases s1.len(),
{
    if s1.len() == 0 {
        if s2.len() > 0 {
            assert(s2.contains(s2[0]));
            assert(false);
        }
        assert(s1 =~= s2);
    } else {
        assert(s1.contains(s1[0]));
        if s2.len() == 0 {
            assert(false);
        }
        // The heads agree: each is a lower bound of the shared member set.
        assert(s2.contains(s1[0]));
        let j2 = choose|j: int| 0 <= j < s2.len() && s2[j] == s1[0];
        if j2 > 0 {
            assert(lex_le(s2[0], s2[j2]));
        } else {
            crate::order::lemma_lex_refl(s2[0]);
        }
        assert(s2.contains(s2[0]));
        assert(s1.contains(s2[0]));
        let j1 = choose|j: int| 0 <= j < s1.len() && s1[j] == s2[0];
        if j1 > 0 {
            assert(lex_le(s1[0], s1[j1]));
        } else {
            crate::order::lemma_lex_refl(s1[0]);
        }
        crate::order::lemma_lex_antisym(s1[0], s2[0]);
        // The tails hold the same members, each strictly ascending.
        let t1 = s1.drop_first();
        let t2 = s2.drop_first();
        assert(forall|k: int| 0 <= k < t1.len() ==> #[trigger] t1[k] == s1[k + 1]);
        assert(forall|k: int| 0 <= k < t2.len() ==> #[trigger] t2[k] == s2[k + 1]);
        assert forall|x: Seq<char>| t1.contains(x) <==> t2.contains(x) by {
            if t1.contains(x) {
                let k = choose|k: int| 0 <= k < t1.len() && t1[k] == x;
                assert(s1[k + 1] == x);
                assert(s1.contains(x));
                assert(x != s1[0]);
                assert(s2.contains(x));
                let m = choose|m: int| 0 <= m < s2.len() && s2[m] == x;
                assert(m != 0);
                assert(t2[m - 1] == x);
                assert(t2.contains(x));
            }
            if t2.contains(x) {
                let k = choose|k: int| 0 <= k < t2.len() && t2[k] == x;
                assert(s2[k + 1] == x);
                assert(s2.contains(x));
                assert(x != s2[0]);
                assert(s1.contains(x));
                let m = choose|m: int| 0 <= m < s1.len() && s1[m] == x;
                assert(m != 0);
                assert(t1[m - 1] == x);
                assert(t1.contains(x));
            }
        }
        lemma_strictly_ascending_unique(t1, t2);
        assert(s1.len() == s2.len());
        assert forall|k: int| 0 <= k < s1.len() implies s1[k] == s2[k] by {
            if k > 0 {
                assert(t1[k - 1] == s1[k]);
                assert(t2[k - 1] == s2[k]);
            }
        }
        assert(s1 =~= s2);
    }
}

/// The members of a listing's name sequence are exactly the names of the
/// kept entries.
pub proof fn lemma_display_names_members(cs: Seq<FsNode>, show_files: bool)
    ensures
        forall|x: Seq<char>|
            #[trigger] display_names(cs, show_files).contains(x) <==> exists|i: int|
                0 <= i < cs.len() && kept(#[trigger] cs[i], show_files) && cs[i].name@ == x,
{
    lemma_display_order_complete(cs, show_files);
    let ord = display_order(cs, show_files);
    let dn = display_names(cs, show_files);
    assert forall|x: Seq<char>| #[trigger] dn.contains(x) implies exists|i: int|
        0 <= i < cs.len() && kept(#[trigger] cs[i], show_files) && cs[i].name@ == x by {
        let k = choose|k: int| 0 <= k < dn.len() && dn[k] == x;
        assert(ord.contains(ord[k]));
        assert(kept(cs[ord[k]], show_files) && cs[ord[k]].name@ == x);
    }
    assert forall|x: Seq<char>|
        (exists|i: int|
            0 <= i < cs.len() && kept(#[trigger] cs[i], show_files) && cs[i].name@
                == x) implies #[trigger] dn.contains(x) by {
        let i = choose|i: int| 0 <= i < cs.len() && kept(#[trigger] cs[i], show_files)
            && cs[i].name@ == x;
        assert(ord.contains(i));
        let k = choose|k: int| 0 <= k < ord.len() && ord[k] == i;
        assert(dn[k] == x);
    }
}

/// The enumeration order of a directory read does not matter: a directory's
/// entries listed in reverse give the very same display order. Distinct
/// names — as a real directory guarantees — are required, since entries
/// with equal names could stand in either order.
pub proof fn lemma_enumeration_order_irrelevant(cs: Seq<FsNode>, show_files: bool)
    requires
        forall|i: int, j: int| 0 <= i < j < cs.len() ==> name_at(cs, i) != name_at(cs, j),
    ensures
        display_names(cs.reverse(), show_files) == display_names(cs, show_files),
{
    let rs = cs.reverse();
    assert(rs.len() == cs.len());
    assert(forall|i: int| 0 <= i < rs.len() ==> #[trigger] rs[i] == cs[cs.len() - 1 - i]);
    assert forall|i: int, j: int| 0 <= i < j < rs.len() implies name_at(rs, i) != name_at(
        rs,
        j,
    ) by {
        assert(rs[i] == cs[cs.len() - 1 - i]);
        assert(rs[j] == cs[cs.len() - 1 - j]);
        assert(name_at(cs, cs.len() - 1 - j) != name_at(cs, cs.len() - 1 - i));
    }
    lemma_display_order_strict(cs, show_files);
    lemma_display_order_strict(rs, show_files);
    lemma_display_order_complete(cs, show_files);
    lemma_display_order_complete(rs, show_files);
    let dn = display_names(cs, show_files);
    let rn = display_names(rs, show_files);
    assert(strictly_ascending(dn)) by {
        assert(forall|k: int|
            0 <= k < dn.len() ==> #[trigger] dn[k] == name_at(
                cs,
                display_order(cs, show_files)[k],
            ));
    }
    assert(strictly_ascending(rn)) by {
        assert(forall|k: int|
            0 <= k < rn.len() ==> #[trigger] rn[k] == name_at(
                rs,
                display_order(rs, show_files)[k],
            ));
    }
    lemma_display_names_members(cs, show_files);
    lemma_display_names_members(rs, show_files);
    assert forall|x: Seq<char>| dn.contains(x) <==> rn.contains(x) by {
        if dn.contains(x) {
            let i = choose|i: int|
                0 <= i < cs.len() && kept(#[trigger] cs[i], show_files) && cs[i].name@ == x;
            assert(rs[cs.len() - 1 - i] == cs[i]);
            assert(kept(rs[cs.len() - 1 - i], show_files) && rs[cs.len() - 1 - i].name@ == x);
            assert(rn.contains(x));
        }
        if rn.contains(x) {
            let i = choose|i: int|
                0 <= i < rs.len() && kept(#[trigger] rs[i], show_files) && rs[i].name@ == x;
            assert(rs[i] == cs[cs.len() - 1 - i]);
            assert(kept(cs[cs.len() - 1 - i], show_files) && cs[cs.len() - 1 - i].name@ == x);
            assert(dn.contains(x));
        }
    }
    lemma_strictly_ascending_unique(dn, rn);
}

/// Helper view of an index vector as a sequence of mathematical integers.
pub open spec fn as_ints(s: Seq<usize>) -> Seq<int> {
    s.map_values(|u: usize| u as int)
}

/// Where [`insert_by_name`] puts the new index: directly before the first
/// entry whose name exceeds the new one.
proof fn lemma_insert_position(cs: Seq<FsNode>, i: int, s: Seq<int>, p: int)
    requires
        0 <= p <= s.len(),
        forall|m: int| 0 <= m < p ==> lex_le(name_at(cs, #[trigger] s[m]), name_at(cs, i)),
        p < s.len() ==> !lex_le(name_at(cs, s[p]), name_at(cs, i)),
    ensures
        insert_by_name(cs, i, s) =~= s.insert(p, i),
    decreases p,
{
    if p == 0 {
        if s.len() == 0 {
            assert(insert_by_name(cs, i, s) =~= s.insert(0, i));
        } else {
            assert(insert_by_name(cs, i, s) =~= s.insert(0, i));
        }
    } else {
        let t = s.drop_first();
        assert(lex_le(name_at(cs, s[0]), name_at(cs, i)));
        assert(forall|m: int| 0 <= m < p - 1 ==> t[m] == s[m + 1]);
        assert(p - 1 < t.len() ==> t[p - 1] == s[p]);
        lemma_insert_position(cs, i, t, p - 1);
        assert(insert_by_name(cs, i, s) =~= seq![s[0]] + t.insert(p - 1, i));
        assert(seq![s[0]] + t.insert(p - 1, i) =~= s.insert(p, i));
    }
}

/// Inserts `i` into the name-sorted index vector `ord`, keeping it sorted,
/// as [`insert_by_name`] specifies.
fn insert_index(cs: &Vec<FsNode>, ord: &mut Vec<usize>, i: usize)
    requires
        names_sorted(cs@, as_ints(old(ord)@)),
        idxs_in_range(as_ints(old(ord)@), cs@.len() as int),
        i < cs@.len(),
    ensures
        as_ints(final(ord)@) =~= insert_by_name(cs@, i as int, as_ints(old(ord)@)),
        idxs_in_range(as_ints(final(ord)@), cs@.len() as int),
{
    let ghost s = as_ints(old(ord)@);
    proof {
        assert forall|k: int| 0 <= k < ord@.len() implies (#[trigger] ord@[k] as int)
            < cs@.len() by {
            assert(s[k] == ord@[k] as int);
        }
    }
    let mut p: usize = 0;
    while p < ord.len() && str_le(cs[ord[p]].name.as_str(), cs[i].name.as_str())
        invariant
            *ord == *old(ord),
            names_sorted(cs@, s),
            idxs_in_range(s, cs@.len() as int),
            forall|k: int| 0 <= k < ord@.len() ==> (#[trigger] ord@[k] as int) < cs@.len(),
            i < cs@.len(),
            s == as_ints(ord@),
            p <= ord@.len(),
            forall|m: int| 0 <= m < p ==> lex_le(name_at(cs@, #[trigger] s[m]), name_at(cs@, i as int)),
        decreases ord@.len() - p,
    {
        proof {
            assert(s[p as int] == ord@[p as int] as int);
        }
        p = p + 1;
    }
    proof {
        lemma_insert_position(cs@, i as int, s, p as int);
    }
    ord.insert(p, i);
    proof {
        assert(as_ints(ord@) =~= s.insert(p as int, i as int));
    }
}

/// Computes the display order of the entries `cs`: the indices of the kept
/// entries, in ascending name order, as [`display_order`] specifies.
pub fn sorted_kept_indices(cs: &Vec<FsNode>, show_files: bool) -> (ord: Vec<usize>)
    ensures
        as_ints(ord@) == display_order(cs@, show_files),
        idxs_in_range(as_ints(ord@), cs@.len() as int),
        forall|k: int| 0 <= k < ord@.len() ==> (#[trigger] ord@[k] as int) < cs@.len(),
{
    let mut ord: Vec<usize> = Vec::new();
    let n = cs.len();
    proof {
        assert(as_ints(ord@) =~= Seq::empty());
    }
    let mut j: usize = 0;
    while j < n
        invariant
            n == cs@.len(),
            j <= n,
            as_ints(ord@) == sort_by_name(cs@, kept_indices_upto(cs@, show_files, j as int)),
            idxs_in_range(as_ints(ord@), cs@.len() as int),
        decreases n - j,
    {
        let ghost before = kept_indices_upto(cs@, show_files, j as int);
        proof {
            lemma_sort_by_name(cs@, before);
        }
        if keeps(&cs[j], show_files) {
            insert_index(cs, &mut ord, j);
            proof {
                let after = kept_indices_upto(cs@, show_files, j + 1);
                assert(after == before.push(j as int));
                assert(after.drop_last() =~= before);
                assert(after.last() == j as int);
                assert(sort_by_name(cs@, after) == insert_by_name(
                    cs@,
                    j as int,
                    sort_by_name(cs@, before),
                ));
            }
        } else {
            proof {
                assert(kept_indices_upto(cs@, show_files, j + 1) == before);
            }
        }
        j = j + 1;
    }
    proof {
        lemma_display_order_complete(cs@, show_files);
        assert forall|k: int| 0 <= k < ord@.len() implies (#[trigger] ord@[k] as int)
            < cs@.len() by {
            assert(as_ints(ord@)[k] == ord@[k] as int);
        }
    }
    ord
}

} // verus!
