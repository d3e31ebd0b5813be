//! The shape of a B+Tree in the pages of a pager: the nodes reachable from
//! the root, the chain of leaves a scan reads, and how the changes an insert
//! makes keep that shape.
use vstd::prelude::*;
use crate::btree::{
    entry_child, internal_children, internal_count, internal_wf, leaf_next, leaf_rows, leaf_wf, leftmost_leaf,
    right_child, chain_rows, scan_rows, NODE_TYPE_LEAF,
};
use crate::pager::{pager_wf, PagerModel, MAX_PAGES};

verus! {

/// The leaf pages of the chain that starts at `cur`, following next
/// pointers until 0, within `fuel` leaves.
pub open spec fn chain_pages(m: PagerModel, cur: int, fuel: nat) -> Option<Seq<int>>
    decreases fuel,
{
    if fuel == 0 || !(0 <= cur < MAX_PAGES) || !leaf_wf(m.page(cur)) {
        None
    } else {
        let p = m.page(cur);
        if leaf_next(p) == 0 {
            Some(seq![cur])
        } else {
            match chain_pages(m, leaf_next(p) as int, (fuel - 1) as nat) {
                Some(rest) => Some(seq![cur] + rest),
                None => None,
            }
        }
    }
}

/// The rows of a list of leaf pages, leaf after leaf.
pub open spec fn rows_of(m: PagerModel, ps: Seq<int>) -> Seq<Seq<u8>>
    decreases ps.len(),
{
    if ps.len() == 0 {
        Seq::empty()
    } else {
        leaf_rows(m.page(ps[0])) + rows_of(m, ps.drop_first())
    }
}

/// The first child of an internal node.
pub open spec fn first_child(p: Seq<u8>) -> u32 {
    if internal_count(p) > 0 {
        entry_child(p, 0)
    } else {
        right_child(p)
    }
}

/// Page `p` is a node: a leaf of the chain `ps`, or an internal node whose
/// children are all in `nodes`.
pub open spec fn node_ok(m: PagerModel, p: int, nodes: Set<int>, ps: Seq<int>) -> bool {
    let page = m.page(p);
    ||| page[0] == NODE_TYPE_LEAF && leaf_wf(page) && ps.contains(p)
    ||| internal_wf(page) && forall|i: int|
        0 <= i < internal_children(page).len() ==> nodes.contains(#[trigger] internal_children(page)[i] as int)
}

/// The tree rooted at `root` has node set `nodes` and leaf chain `ps`: the
/// root is a node, every node is sound, and the scan's chain, which starts
/// at the leftmost leaf, holds each leaf once. Page 0 (where a table keeps
/// its metadata, and the "no next leaf" mark) can only be the first leaf,
/// as in a tree grown from a leaf at page 0. The fuels
/// are the file's length (at most the pages a pager can reach), so that a
/// root split (which adds a page) keeps them sufficient.
pub open spec fn shape(m: PagerModel, root: int, nodes: Set<int>, ps: Seq<int>) -> bool {
    &&& m.file_pages <= MAX_PAGES
    &&& nodes.contains(root)
    &&& ps.len() > 0
    &&& (nodes.contains(0) || ps.contains(0)) ==> ps[0] == 0
    &&& forall|p: int| nodes.contains(p) ==> #[trigger] node_ok(m, p, nodes, ps)
    &&& leftmost_leaf(m, root, m.file_pages) == Some(ps[0])
    &&& chain_pages(m, ps[0], m.file_pages) == Some(ps)
    &&& ps.no_duplicates()
}

/// The pages hold a sound tree rooted at `root`.
pub open spec fn tree_ok(m: PagerModel, root: int) -> bool {
    exists|nodes: Set<int>, ps: Seq<int>| shape(m, root, nodes, ps)
}

/// The rows of a chain are the rows of its pages.
pub proof fn lemma_chain_rows_pages(m: PagerModel, cur: int, fuel: nat)
    ensures
        chain_rows(m, cur, fuel) == match chain_pages(m, cur, fuel) {
            Some(ps) => Some(rows_of(m, ps)),
            None => None::<Seq<Seq<u8>>>,
        },
    decreases fuel,
{
    if fuel > 0 && 0 <= cur < MAX_PAGES && leaf_wf(m.page(cur)) {
        let p = m.page(cur);
        if leaf_next(p) == 0 {
            assert(seq![cur].drop_first() =~= Seq::<int>::empty());
            assert(rows_of(m, seq![cur]) == leaf_rows(p) + rows_of(m, Seq::<int>::empty()));
            assert(rows_of(m, seq![cur]) =~= leaf_rows(p));
        } else {
            lemma_chain_rows_pages(m, leaf_next(p) as int, (fuel - 1) as nat);
            match chain_pages(m, leaf_next(p) as int, (fuel - 1) as nat) {
                Some(rest) => {
                    assert((seq![cur] + rest).drop_first() =~= rest);
                    assert((seq![cur] + rest)[0] == cur);
                },
                None => {},
            }
        }
    }
}

/// More fuel finds the same leftmost leaf.
pub proof fn lemma_leftmost_fuel(m: PagerModel, cur: int, f: nat, g: nat)
    requires
        f <= g,
        leftmost_leaf(m, cur, f) is Some,
    ensures
        leftmost_leaf(m, cur, g) == leftmost_leaf(m, cur, f),
    decreases f,
{
    if f > 0 && 0 <= cur < MAX_PAGES {
        let p = m.page(cur);
        if p[0] != NODE_TYPE_LEAF && internal_wf(p) {
            lemma_leftmost_fuel(m, first_child(p) as int, (f - 1) as nat, (g - 1) as nat);
        }
    }
}

/// More fuel finds the same chain.
pub proof fn lemma_chain_fuel(m: PagerModel, cur: int, f: nat, g: nat)
    requires
        f <= g,
        chain_pages(m, cur, f) is Some,
    ensures
        chain_pages(m, cur, g) == chain_pages(m, cur, f),
    decreases f,
{
    if f > 0 && 0 <= cur < MAX_PAGES && leaf_wf(m.page(cur)) {
        let p = m.page(cur);
        if leaf_next(p) != 0 {
            lemma_chain_fuel(m, leaf_next(p) as int, (f - 1) as nat, (g - 1) as nat);
        }
    }
}

/// Every page of a chain is a leaf within the file.
pub proof fn lemma_chain_leaves(m: PagerModel, cur: int, f: nat)
    requires
        pager_wf(m),
        chain_pages(m, cur, f) is Some,
    ensures
        forall|i: int|
            0 <= i < chain_pages(m, cur, f).unwrap().len() ==> leaf_wf(
                m.page(#[trigger] chain_pages(m, cur, f).unwrap()[i]),
            ) && 0 <= chain_pages(m, cur, f).unwrap()[i] < m.file_pages,
        chain_pages(m, cur, f).unwrap()[0] == cur,
        chain_pages(m, cur, f).unwrap().len() > 0,
    decreases f,
{
    let ps = chain_pages(m, cur, f).unwrap();
    let p = m.page(cur);
    crate::btree::lemma_leaf_in_file(m, cur);
    if leaf_next(p) != 0 {
        lemma_chain_leaves(m, leaf_next(p) as int, (f - 1) as nat);
        let rest = chain_pages(m, leaf_next(p) as int, (f - 1) as nat).unwrap();
        assert forall|i: int| 0 <= i < ps.len() implies leaf_wf(m.page(#[trigger] ps[i])) && 0 <= ps[i] < m.file_pages by {
            if i > 0 {
                assert(ps[i] == rest[i - 1]);
                crate::btree::lemma_leaf_in_file(m, rest[i - 1]);
            }
        }
    } else {
        assert forall|i: int| 0 <= i < ps.len() implies leaf_wf(m.page(#[trigger] ps[i])) && 0 <= ps[i] < m.file_pages by {
            assert(ps[i] == cur);
        }
    }
}

/// What a scan reads of a sound tree: the rows of its chain.
pub proof fn lemma_scan_shape(m: PagerModel, root: int, nodes: Set<int>, ps: Seq<int>)
    requires
        pager_wf(m),
        shape(m, root, nodes, ps),
    ensures
        scan_rows(m, root) == Some(rows_of(m, ps)),
{
    lemma_leftmost_fuel(m, root, m.file_pages, MAX_PAGES as nat);
    lemma_chain_fuel(m, ps[0], m.file_pages, MAX_PAGES as nat);
    lemma_chain_rows_pages(m, ps[0], MAX_PAGES as nat);
}

} // verus!

verus! {

/// A chain reads the same where its pages are unchanged.
pub proof fn lemma_chain_frame(m1: PagerModel, m2: PagerModel, cur: int, f: nat)
    requires
        chain_pages(m1, cur, f) is Some,
        forall|i: int|
            0 <= i < chain_pages(m1, cur, f).unwrap().len() ==> m2.page(
                #[trigger] chain_pages(m1, cur, f).unwrap()[i],
            ) == m1.page(chain_pages(m1, cur, f).unwrap()[i]),
    ensures
        chain_pages(m2, cur, f) == chain_pages(m1, cur, f),
    decreases f,
{
    let ps = chain_pages(m1, cur, f).unwrap();
    assert(ps[0] == cur);
    assert(m2.page(ps[0]) == m1.page(ps[0]));
    let p = m1.page(cur);
    if leaf_next(p) != 0 {
        let rest = chain_pages(m1, leaf_next(p) as int, (f - 1) as nat).unwrap();
        assert forall|i: int| 0 <= i < rest.len() implies m2.page(#[trigger] rest[i]) == m1.page(rest[i]) by {
            assert(rest[i] == ps[i + 1]);
        }
        lemma_chain_frame(m1, m2, leaf_next(p) as int, (f - 1) as nat);
    }
}

/// The rows of pages that are unchanged are unchanged.
pub proof fn lemma_rows_frame(m1: PagerModel, m2: PagerModel, ps: Seq<int>)
    requires
        forall|i: int| 0 <= i < ps.len() ==> m2.page(#[trigger] ps[i]) == m1.page(ps[i]),
    ensures
        rows_of(m2, ps) == rows_of(m1, ps),
    decreases ps.len(),
{
    if ps.len() > 0 {
        let r = ps.drop_first();
        assert forall|i: int| 0 <= i < r.len() implies m2.page(#[trigger] r[i]) == m1.page(r[i]) by {
            assert(r[i] == ps[i + 1]);
        }
        lemma_rows_frame(m1, m2, r);
        assert(m2.page(ps[0]) == m1.page(ps[0]));
    }
}

/// The rows of two lists of pages one after the other.
pub proof fn lemma_rows_concat(m: PagerModel, a: Seq<int>, b: Seq<int>)
    ensures
        rows_of(m, a + b) == rows_of(m, a) + rows_of(m, b),
    decreases a.len(),
{
    if a.len() == 0 {
        assert(a + b =~= b);
        assert(rows_of(m, a) =~= Seq::<Seq<u8>>::empty());
        assert(rows_of(m, a) + rows_of(m, b) =~= rows_of(m, b));
    } else {
        assert((a + b).drop_first() =~= a.drop_first() + b);
        assert((a + b)[0] == a[0]);
        lemma_rows_concat(m, a.drop_first(), b);
        assert(rows_of(m, a + b) =~= leaf_rows(m.page(a[0])) + (rows_of(m, a.drop_first()) + rows_of(m, b)));
    }
}

/// The rows of a single page are that leaf's rows.
pub proof fn lemma_rows_single(m: PagerModel, p: int)
    ensures
        rows_of(m, seq![p]) == leaf_rows(m.page(p)),
{
    assert(seq![p].drop_first() =~= Seq::<int>::empty());
    assert(rows_of(m, seq![p]) =~= leaf_rows(m.page(p)) + rows_of(m, Seq::<int>::empty()));
}

/// Splits the rows of `ps` around its page `j`.
pub proof fn lemma_rows_around(m: PagerModel, ps: Seq<int>, j: int)
    requires
        0 <= j < ps.len(),
    ensures
        rows_of(m, ps) == rows_of(m, ps.take(j)) + leaf_rows(m.page(ps[j])) + rows_of(m, ps.skip(j + 1)),
{
    assert(ps =~= ps.take(j) + (seq![ps[j]] + ps.skip(j + 1)));
    lemma_rows_concat(m, ps.take(j), seq![ps[j]] + ps.skip(j + 1));
    lemma_rows_concat(m, seq![ps[j]], ps.skip(j + 1));
    lemma_rows_single(m, ps[j]);
    assert(rows_of(m, ps.take(j)) + (leaf_rows(m.page(ps[j])) + rows_of(m, ps.skip(j + 1))) =~= rows_of(
        m,
        ps.take(j),
    ) + leaf_rows(m.page(ps[j])) + rows_of(m, ps.skip(j + 1)));
}

/// Whether a page change keeps the leftmost descent: leaves stay leaves,
/// internal nodes stay internal nodes with the same first child.
pub open spec fn same_step(a: Seq<u8>, b: Seq<u8>) -> bool {
    &&& (a[0] == NODE_TYPE_LEAF) == (b[0] == NODE_TYPE_LEAF)
    &&& a[0] != NODE_TYPE_LEAF ==> internal_wf(a) == internal_wf(b)
    &&& a[0] != NODE_TYPE_LEAF && internal_wf(a) ==> first_child(a) == first_child(b)
}

/// The leftmost descent is kept by changes that keep each step of it.
pub proof fn lemma_leftmost_frame(m1: PagerModel, m2: PagerModel, cur: int, f: nat, nodes: Set<int>)
    requires
        leftmost_leaf(m1, cur, f) is Some,
        nodes.contains(cur),
        forall|p: int| nodes.contains(p) ==> same_step(m1.page(p), #[trigger] m2.page(p)),
        forall|p: int|
            nodes.contains(p) && m1.page(p)[0] != NODE_TYPE_LEAF && internal_wf(m1.page(p)) ==> nodes.contains(
                first_child(#[trigger] m1.page(p)) as int,
            ),
    ensures
        leftmost_leaf(m2, cur, f) == leftmost_leaf(m1, cur, f),
    decreases f,
{
    let p = m1.page(cur);
    assert(same_step(p, m2.page(cur)));
    if p[0] != NODE_TYPE_LEAF {
        assert(nodes.contains(first_child(p) as int));
        lemma_leftmost_frame(m1, m2, first_child(p) as int, (f - 1) as nat, nodes);
    }
}

/// A leaf split into itself and a fresh page linked after it: the chain
/// gains the fresh page right after the split leaf.
pub proof fn lemma_chain_split(m1: PagerModel, m2: PagerModel, cur: int, f: nat, ps: Seq<int>, j: int, n: int)
    requires
        chain_pages(m1, cur, f) == Some(ps),
        0 <= j < ps.len(),
        ps.no_duplicates(),
        !ps.contains(n),
        0 < n < MAX_PAGES,
        forall|i: int| 0 <= i < ps.len() && i != j ==> m2.page(#[trigger] ps[i]) == m1.page(ps[i]),
        leaf_wf(m2.page(ps[j])),
        leaf_next(m2.page(ps[j])) == n,
        leaf_wf(m2.page(n)),
        leaf_next(m2.page(n)) == leaf_next(m1.page(ps[j])),
    ensures
        chain_pages(m2, cur, f + 1) == Some(ps.insert(j + 1, n)),
    decreases f,
{
    assert(ps[0] == cur);
    let p = m1.page(cur);
    if j == 0 {
        if leaf_next(p) == 0 {
            assert(ps =~= seq![cur]);
            assert(chain_pages(m2, n, f) == Some(seq![n]));
            assert(ps.insert(1, n) =~= seq![cur] + seq![n]);
        } else {
            let rest = chain_pages(m1, leaf_next(p) as int, (f - 1) as nat).unwrap();
            assert(ps == seq![cur] + rest);
            assert forall|i: int| 0 <= i < rest.len() implies m2.page(#[trigger] rest[i]) == m1.page(rest[i]) by {
                assert(rest[i] == ps[i + 1]);
                assert(ps[i + 1] != ps[0]);
            }
            lemma_chain_frame(m1, m2, leaf_next(p) as int, (f - 1) as nat);
            assert(chain_pages(m2, n, f) == Some(seq![n] + rest));
            assert(ps.insert(1, n) =~= seq![cur] + (seq![n] + rest));
        }
    } else {
        assert(m2.page(cur) == p);
        let rest = chain_pages(m1, leaf_next(p) as int, (f - 1) as nat).unwrap();
        assert(leaf_next(p) != 0) by {
            if leaf_next(p) == 0 {
                assert(ps.len() == 1);
            }
        }
        assert(ps == seq![cur] + rest);
        assert(rest =~= ps.drop_first());
        assert(rest.no_duplicates()) by {
            assert forall|a: int, b: int| 0 <= a < b < rest.len() implies rest[a] != rest[b] by {
                assert(rest[a] == ps[a + 1] && rest[b] == ps[b + 1]);
            }
        }
        assert(!rest.contains(n)) by {
            if rest.contains(n) {
                let k = choose|k: int| 0 <= k < rest.len() && rest[k] == n;
                assert(ps[k + 1] == n);
            }
        }
        assert forall|i: int| 0 <= i < rest.len() && i != j - 1 implies m2.page(#[trigger] rest[i]) == m1.page(rest[i]) by {
            assert(rest[i] == ps[i + 1]);
        }
        assert(rest[j - 1] == ps[j]);
        lemma_chain_split(m1, m2, leaf_next(p) as int, (f - 1) as nat, rest, j - 1, n);
        assert(ps.insert(j + 1, n) =~= seq![cur] + rest.insert(j, n));
    }
}

} // verus!

verus! {

/// The state of an insert after the leaf has split: every node is sound
/// against the new chain `ps`, and the leftmost descent (within `f0`) and
/// the chain (within `f0 + 1`) still hold.
pub open spec fn split_state(m: PagerModel, root: int, nodes: Set<int>, ps: Seq<int>, f0: nat) -> bool {
    &&& m.file_pages <= MAX_PAGES
    &&& nodes.contains(root)
    &&& ps.len() > 0
    &&& (nodes.contains(0) || ps.contains(0)) ==> ps[0] == 0
    &&& forall|p: int| nodes.contains(p) ==> #[trigger] node_ok(m, p, nodes, ps)
    &&& leftmost_leaf(m, root, f0) == Some(ps[0])
    &&& chain_pages(m, ps[0], f0 + 1) == Some(ps)
    &&& ps.no_duplicates()
    &&& f0 + 1 <= m.file_pages
}

proof fn lemma_node_ok_mono(m1: PagerModel, m2: PagerModel, p: int, n1: Set<int>, n2: Set<int>, ps1: Seq<int>, ps2: Seq<int>)
    requires
        node_ok(m1, p, n1, ps1),
        m2.page(p) == m1.page(p),
        n1.subset_of(n2),
        forall|q: int| ps1.contains(q) ==> ps2.contains(q),
    ensures
        node_ok(m2, p, n2, ps2),
{
}

/// Inserting a cell into a leaf of the chain keeps the tree and inserts the
/// row into the rows the chain reads.
pub proof fn lemma_leaf_insert_shape(
    m1: PagerModel,
    m2: PagerModel,
    root: int,
    nodes: Set<int>,
    ps: Seq<int>,
    l: int,
    pos: int,
    row: Seq<u8>,
)
    requires
        pager_wf(m1),
        shape(m1, root, nodes, ps),
        ps.contains(l),
        forall|p: int| p != l ==> #[trigger] m2.page(p) == m1.page(p),
        leaf_wf(m2.page(l)),
        leaf_next(m2.page(l)) == leaf_next(m1.page(l)),
        0 <= pos <= leaf_rows(m1.page(l)).len(),
        leaf_rows(m2.page(l)) == leaf_rows(m1.page(l)).insert(pos, row),
        m2.file_pages == m1.file_pages,
    ensures
        shape(m2, root, nodes, ps),
        exists|i: int| 0 <= i <= rows_of(m1, ps).len() && rows_of(m2, ps) == rows_of(m1, ps).insert(i, row),
{
    let j = choose|j: int| 0 <= j < ps.len() && ps[j] == l;
    lemma_chain_leaves(m1, ps[0], m1.file_pages);
    // The tree: only a leaf of the chain changed, and it is still a leaf.
    assert forall|p: int| nodes.contains(p) implies #[trigger] node_ok(m2, p, nodes, ps) by {
        assert(node_ok(m1, p, nodes, ps));
        if p != l {
            lemma_node_ok_mono(m1, m2, p, nodes, nodes, ps, ps);
        } else {
            assert(leaf_wf(m2.page(l)));
        }
    }
    assert forall|p: int| nodes.contains(p) implies same_step(m1.page(p), #[trigger] m2.page(p)) by {
        if p == l {
            assert(leaf_wf(m1.page(ps[j])));
        }
    }
    assert forall|p: int|
        nodes.contains(p) && m1.page(p)[0] != NODE_TYPE_LEAF && internal_wf(m1.page(p)) implies nodes.contains(
        first_child(#[trigger] m1.page(p)) as int,
    ) by {
        assert(node_ok(m1, p, nodes, ps));
        assert(internal_children(m1.page(p))[0] == first_child(m1.page(p)));
    }
    lemma_leftmost_frame(m1, m2, root, m1.file_pages, nodes);
    // The chain: the same pages.
    assert(chain_pages(m2, ps[0], m1.file_pages) == Some(ps)) by {
        lemma_chain_update(m1, m2, ps[0], m1.file_pages, ps, j);
    }
    // The rows.
    lemma_rows_around(m1, ps, j);
    lemma_rows_around(m2, ps, j);
    assert forall|i: int| 0 <= i < ps.take(j).len() implies m2.page(#[trigger] ps.take(j)[i]) == m1.page(ps.take(j)[i]) by {
        assert(ps.take(j)[i] == ps[i]);
    }
    assert forall|i: int| 0 <= i < ps.skip(j + 1).len() implies m2.page(#[trigger] ps.skip(j + 1)[i]) == m1.page(
        ps.skip(j + 1)[i],
    ) by {
        assert(ps.skip(j + 1)[i] == ps[j + 1 + i]);
    }
    lemma_rows_frame(m1, m2, ps.take(j));
    lemma_rows_frame(m1, m2, ps.skip(j + 1));
    let a = rows_of(m1, ps.take(j));
    let b = leaf_rows(m1.page(l));
    let c = rows_of(m1, ps.skip(j + 1));
    assert(a + b.insert(pos, row) + c =~= (a + b + c).insert(a.len() + pos, row));
}

/// A leaf whose page changed but whose next pointer did not keeps its chain.
proof fn lemma_chain_update(m1: PagerModel, m2: PagerModel, cur: int, f: nat, ps: Seq<int>, j: int)
    requires
        chain_pages(m1, cur, f) == Some(ps),
        0 <= j < ps.len(),
        ps.no_duplicates(),
        forall|p: int| p != ps[j] ==> #[trigger] m2.page(p) == m1.page(p),
        leaf_wf(m2.page(ps[j])),
        leaf_next(m2.page(ps[j])) == leaf_next(m1.page(ps[j])),
    ensures
        chain_pages(m2, cur, f) == Some(ps),
    decreases f,
{
    assert(ps[0] == cur);
    let p = m1.page(cur);
    if leaf_next(p) != 0 {
        let rest = chain_pages(m1, leaf_next(p) as int, (f - 1) as nat).unwrap();
        assert(ps == seq![cur] + rest);
        if j == 0 {
            assert forall|i: int| 0 <= i < rest.len() implies m2.page(#[trigger] rest[i]) == m1.page(rest[i]) by {
                assert(rest[i] == ps[i + 1]);
                assert(ps[i + 1] != ps[0]);
            }
            lemma_chain_frame(m1, m2, leaf_next(p) as int, (f - 1) as nat);
        } else {
            assert(rest =~= ps.drop_first());
            assert(rest.no_duplicates()) by {
                assert forall|a: int, b: int| 0 <= a < b < rest.len() implies rest[a] != rest[b] by {
                    assert(rest[a] == ps[a + 1] && rest[b] == ps[b + 1]);
                }
            }
            assert(rest[j - 1] == ps[j]);
            lemma_chain_update(m1, m2, leaf_next(p) as int, (f - 1) as nat, rest, j - 1);
        }
    } else {
        assert(ps =~= seq![cur]);
    }
}

} // verus!

verus! {

/// The nodes of a tree lie within the file.
pub proof fn lemma_nodes_in_file(m: PagerModel, root: int, nodes: Set<int>, ps: Seq<int>)
    requires
        pager_wf(m),
        forall|p: int| nodes.contains(p) ==> #[trigger] node_ok(m, p, nodes, ps),
    ensures
        forall|p: int| nodes.contains(p) ==> 0 <= p < m.file_pages,
{
    assert forall|p: int| nodes.contains(p) implies 0 <= p < m.file_pages by {
        assert(node_ok(m, p, nodes, ps));
        crate::btree::lemma_leaf_in_file(m, p);
    }
}

/// Splitting a leaf of the chain into itself and a fresh page linked after
/// it leaves the insert in `split_state`, with the row inserted into the
/// rows of the new chain.
pub proof fn lemma_split_leaf_shape(
    m1: PagerModel,
    m2: PagerModel,
    root: int,
    nodes: Set<int>,
    ps: Seq<int>,
    j: int,
    n: int,
    pos: int,
    row: Seq<u8>,
)
    requires
        pager_wf(m1),
        shape(m1, root, nodes, ps),
        0 <= j < ps.len(),
        n == m1.file_pages,
        n < MAX_PAGES,
        m2.file_pages == m1.file_pages + 1,
        forall|p: int| p != ps[j] && p != n ==> #[trigger] m2.page(p) == m1.page(p),
        leaf_wf(m2.page(ps[j])),
        leaf_wf(m2.page(n)),
        leaf_next(m2.page(ps[j])) == n,
        leaf_next(m2.page(n)) == leaf_next(m1.page(ps[j])),
        0 <= pos <= leaf_rows(m1.page(ps[j])).len(),
        leaf_rows(m2.page(ps[j])) + leaf_rows(m2.page(n)) == leaf_rows(m1.page(ps[j])).insert(pos, row),
    ensures
        split_state(m2, root, nodes.insert(n), ps.insert(j + 1, n), m1.file_pages),
        exists|i: int|
            0 <= i <= rows_of(m1, ps).len() && rows_of(m2, ps.insert(j + 1, n)) == rows_of(m1, ps).insert(i, row),
{
    let l = ps[j];
    let ps2 = ps.insert(j + 1, n);
    let f0 = m1.file_pages;
    lemma_chain_leaves(m1, ps[0], f0);
    lemma_nodes_in_file(m1, root, nodes, ps);
    assert(!ps.contains(n)) by {
        if ps.contains(n) {
            let k = choose|k: int| 0 <= k < ps.len() && ps[k] == n;
            assert(0 <= ps[k] < m1.file_pages);
        }
    }
    assert(!nodes.contains(n));
    assert forall|q: int| ps.contains(q) implies ps2.contains(q) by {
        let k = choose|k: int| 0 <= k < ps.len() && ps[k] == q;
        if k <= j {
            assert(ps2[k] == q);
        } else {
            assert(ps2[k + 1] == q);
        }
    }
    assert(ps2[j] == l && ps2[j + 1] == n);
    let nodes2 = nodes.insert(n);
    assert forall|p: int| nodes2.contains(p) implies #[trigger] node_ok(m2, p, nodes2, ps2) by {
        if p == n {
            assert(ps2.contains(n));
        } else if p == l {
            assert(ps2.contains(l));
        } else {
            assert(node_ok(m1, p, nodes, ps));
            lemma_node_ok_mono(m1, m2, p, nodes, nodes2, ps, ps2);
        }
    }
    // The leftmost descent.
    assert forall|p: int| nodes.contains(p) implies same_step(m1.page(p), #[trigger] m2.page(p)) by {
        if p == l {
            assert(leaf_wf(m1.page(ps[j])));
        }
    }
    assert forall|p: int|
        nodes.contains(p) && m1.page(p)[0] != NODE_TYPE_LEAF && internal_wf(m1.page(p)) implies nodes.contains(
        first_child(#[trigger] m1.page(p)) as int,
    ) by {
        assert(node_ok(m1, p, nodes, ps));
        assert(internal_children(m1.page(p))[0] == first_child(m1.page(p)));
    }
    lemma_leftmost_frame(m1, m2, root, f0, nodes);
    // The chain.
    assert forall|i: int| 0 <= i < ps.len() && i != j implies m2.page(#[trigger] ps[i]) == m1.page(ps[i]) by {
        assert(ps[i] != l);
    }
    lemma_chain_split(m1, m2, ps[0], f0, ps, j, n);
    assert(ps2[0] == ps[0]);
    assert(ps2.no_duplicates()) by {
        assert forall|a: int, b: int| 0 <= a < b < ps2.len() implies ps2[a] != ps2[b] by {
            if a != j + 1 && b != j + 1 {
                let a0 = if a <= j { a } else { a - 1 };
                let b0 = if b <= j { b } else { b - 1 };
                assert(ps2[a] == ps[a0] && ps2[b] == ps[b0]);
            } else if a == j + 1 {
                assert(ps2[b] == ps[b - 1]);
            } else {
                let a0 = if a <= j { a } else { a - 1 };
                assert(ps2[a] == ps[a0]);
            }
        }
    }
    // The rows.
    let pre = ps.take(j);
    let post = ps.skip(j + 1);
    assert(ps2 =~= pre + (seq![l, n] + post));
    lemma_rows_concat(m2, pre, seq![l, n] + post);
    lemma_rows_concat(m2, seq![l, n], post);
    assert(seq![l, n] =~= seq![l] + seq![n]);
    lemma_rows_concat(m2, seq![l], seq![n]);
    lemma_rows_single(m2, l);
    lemma_rows_single(m2, n);
    assert forall|i: int| 0 <= i < pre.len() implies m2.page(#[trigger] pre[i]) == m1.page(pre[i]) by {
        assert(pre[i] == ps[i]);
    }
    assert forall|i: int| 0 <= i < post.len() implies m2.page(#[trigger] post[i]) == m1.page(post[i]) by {
        assert(post[i] == ps[j + 1 + i]);
    }
    lemma_rows_frame(m1, m2, pre);
    lemma_rows_frame(m1, m2, post);
    lemma_rows_around(m1, ps, j);
    let a = rows_of(m1, pre);
    let b = leaf_rows(m1.page(l));
    let c = rows_of(m1, post);
    assert(rows_of(m2, ps2) =~= a + b.insert(pos, row) + c);
    assert(a + b.insert(pos, row) + c =~= (a + b + c).insert(a.len() + pos, row));
}

/// An update of internal nodes (each changed page an internal node whose
/// children are nodes, keeping its first child where it was a node) keeps
/// the insert in `split_state`.
pub proof fn lemma_internal_update(
    m1: PagerModel,
    m2: PagerModel,
    root: int,
    nodes1: Set<int>,
    nodes2: Set<int>,
    ps: Seq<int>,
    f0: nat,
)
    requires
        pager_wf(m1),
        split_state(m1, root, nodes1, ps, f0),
        nodes1.subset_of(nodes2),
        m2.file_pages >= m1.file_pages,
        m2.file_pages <= MAX_PAGES,
        forall|p: int| nodes2.contains(p) && !nodes1.contains(p) ==> p >= m1.file_pages && internal_wf(
            #[trigger] m2.page(p),
        ),
        forall|p: int|
            m2.page(p) != m1.page(p) ==> nodes2.contains(p) && internal_wf(#[trigger] m2.page(p)) && (forall|i: int|
                0 <= i < internal_children(m2.page(p)).len() ==> nodes2.contains(
                    #[trigger] internal_children(m2.page(p))[i] as int,
                )) && (nodes1.contains(p) ==> internal_wf(m1.page(p)) && first_child(m2.page(p)) == first_child(
                m1.page(p),
            )),
    ensures
        split_state(m2, root, nodes2, ps, f0),
        rows_of(m2, ps) == rows_of(m1, ps),
        forall|i: int| 0 <= i < ps.len() ==> m2.page(#[trigger] ps[i]) == m1.page(ps[i]),
{
    lemma_chain_leaves(m1, ps[0], f0 + 1);
    lemma_nodes_in_file(m1, root, nodes1, ps);
    assert(nodes2.contains(0) ==> ps[0] == 0) by {
        assert(0 <= root < m1.file_pages);
        if nodes2.contains(0) && !nodes1.contains(0) {
            let q: int = 0;
            assert(internal_wf(m2.page(q)));
            assert(q >= m1.file_pages);
        }
    }
    assert forall|p: int| nodes2.contains(p) implies #[trigger] node_ok(m2, p, nodes2, ps) by {
        if m2.page(p) == m1.page(p) {
            if nodes1.contains(p) {
                assert(node_ok(m1, p, nodes1, ps));
                lemma_node_ok_mono(m1, m2, p, nodes1, nodes2, ps, ps);
            } else {
                // A fresh node read as zeros before, so it changed.
                crate::pager::lemma_past_end(m1, p);
                assert(m1.page(p)[0] == 0);
                assert(internal_wf(m2.page(p)));
            }
        }
    }
    assert forall|p: int| nodes1.contains(p) implies same_step(m1.page(p), #[trigger] m2.page(p)) by {
        if m2.page(p) != m1.page(p) {
            assert(internal_wf(m1.page(p)));
        }
    }
    assert forall|p: int|
        nodes1.contains(p) && m1.page(p)[0] != NODE_TYPE_LEAF && internal_wf(m1.page(p)) implies nodes1.contains(
        first_child(#[trigger] m1.page(p)) as int,
    ) by {
        assert(node_ok(m1, p, nodes1, ps));
        assert(internal_children(m1.page(p))[0] == first_child(m1.page(p)));
    }
    lemma_leftmost_frame(m1, m2, root, f0, nodes1);
    assert forall|i: int| 0 <= i < ps.len() implies m2.page(#[trigger] ps[i]) == m1.page(ps[i]) by {
        let q = ps[i];
        assert(leaf_wf(m1.page(q)));
        if m2.page(q) != m1.page(q) {
            if nodes1.contains(q) {
                assert(internal_wf(m1.page(q)));
            } else {
                assert(q >= m1.file_pages);
            }
        }
    }
    lemma_chain_frame(m1, m2, ps[0], f0 + 1);
    lemma_rows_frame(m1, m2, ps);
}

} // verus!

verus! {

/// An insert that ends without a new root leaves a sound tree.
pub proof fn lemma_finish_shape(m: PagerModel, root: int, nodes: Set<int>, ps: Seq<int>, f0: nat)
    requires
        split_state(m, root, nodes, ps, f0),
    ensures
        shape(m, root, nodes, ps),
{
    lemma_leftmost_fuel(m, root, f0, m.file_pages);
    lemma_chain_fuel(m, ps[0], f0 + 1, m.file_pages);
}

/// A new root, in a fresh page, over the old root and `c` leaves a sound
/// tree with the same chain.
pub proof fn lemma_new_root_shape(
    m1: PagerModel,
    m2: PagerModel,
    root: int,
    nodes: Set<int>,
    ps: Seq<int>,
    f0: nat,
    r: int,
    c: int,
)
    requires
        pager_wf(m1),
        split_state(m1, root, nodes, ps, f0),
        nodes.contains(c),
        r == m1.file_pages,
        r < MAX_PAGES,
        m2.file_pages == r + 1,
        forall|p: int| p != r ==> #[trigger] m2.page(p) == m1.page(p),
        internal_wf(m2.page(r)),
        internal_children(m2.page(r)).len() == 2,
        internal_children(m2.page(r))[0] as int == root,
        internal_children(m2.page(r))[1] as int == c,
    ensures
        shape(m2, r, nodes.insert(r), ps),
        rows_of(m2, ps) == rows_of(m1, ps),
        forall|i: int| 0 <= i < ps.len() ==> m2.page(#[trigger] ps[i]) == m1.page(ps[i]),
{
    lemma_nodes_in_file(m1, root, nodes, ps);
    lemma_chain_leaves(m1, ps[0], f0 + 1);
    let nodes2 = nodes.insert(r);
    assert(!nodes.contains(r));
    assert forall|p: int| nodes2.contains(p) implies #[trigger] node_ok(m2, p, nodes2, ps) by {
        if p == r {
            let ch = internal_children(m2.page(r));
            assert forall|i: int| 0 <= i < ch.len() implies nodes2.contains(#[trigger] ch[i] as int) by {
                if i == 0 {
                } else {
                    assert(i == 1);
                }
            }
        } else {
            assert(node_ok(m1, p, nodes, ps));
            lemma_node_ok_mono(m1, m2, p, nodes, nodes2, ps, ps);
        }
    }
    assert forall|p: int| nodes.contains(p) implies same_step(m1.page(p), #[trigger] m2.page(p)) by {}
    assert forall|p: int|
        nodes.contains(p) && m1.page(p)[0] != NODE_TYPE_LEAF && internal_wf(m1.page(p)) implies nodes.contains(
        first_child(#[trigger] m1.page(p)) as int,
    ) by {
        assert(node_ok(m1, p, nodes, ps));
        assert(internal_children(m1.page(p))[0] == first_child(m1.page(p)));
    }
    lemma_leftmost_frame(m1, m2, root, f0, nodes);
    lemma_leftmost_fuel(m2, root, f0, r as nat);
    assert(first_child(m2.page(r)) == internal_children(m2.page(r))[0]);
    assert(leftmost_leaf(m2, r, m2.file_pages) == leftmost_leaf(m2, root, r as nat));
    assert forall|i: int| 0 <= i < ps.len() implies m2.page(#[trigger] ps[i]) == m1.page(ps[i]) by {
        assert(0 <= ps[i] < m1.file_pages);
    }
    lemma_chain_frame(m1, m2, ps[0], f0 + 1);
    lemma_chain_fuel(m2, ps[0], f0 + 1, m2.file_pages);
    lemma_rows_frame(m1, m2, ps);
}

} // verus!

verus! {

/// A separator and a child added to an internal node of the tree that has
/// room keep the insert in `split_state` and keep the rows.
pub proof fn lemma_parent_insert(
    m1: PagerModel,
    m2: PagerModel,
    root: int,
    nodes: Set<int>,
    ps: Seq<int>,
    f0: nat,
    parent: int,
    pc: u32,
    pos: int,
)
    requires
        pager_wf(m1),
        split_state(m1, root, nodes, ps, f0),
        nodes.contains(parent),
        nodes.contains(pc as int),
        internal_wf(m1.page(parent)),
        m2.file_pages == m1.file_pages,
        forall|p: int| p != parent ==> #[trigger] m2.page(p) == m1.page(p),
        internal_wf(m2.page(parent)),
        0 <= pos <= internal_count(m1.page(parent)),
        internal_children(m2.page(parent)) == internal_children(m1.page(parent)).insert(pos + 1, pc),
    ensures
        split_state(m2, root, nodes, ps, f0),
        rows_of(m2, ps) == rows_of(m1, ps),
        forall|i: int| 0 <= i < ps.len() ==> m2.page(#[trigger] ps[i]) == m1.page(ps[i]),
{
    let o = m1.page(parent);
    let f = m2.page(parent);
    assert(node_ok(m1, parent, nodes, ps));
    let oc = internal_children(o);
    let fc = internal_children(f);
    assert forall|i: int| 0 <= i < fc.len() implies nodes.contains(#[trigger] fc[i] as int) by {
        if i < pos + 1 {
            assert(fc[i] == oc[i]);
        } else if i > pos + 1 {
            assert(fc[i] == oc[i - 1]);
        }
    }
    assert(first_child(o) == oc[0]);
    assert(first_child(f) == fc[0]);
    assert forall|p: int| #[trigger] m2.page(p) != m1.page(p) implies nodes.contains(p) && internal_wf(m2.page(p))
        && (forall|i: int|
        0 <= i < internal_children(m2.page(p)).len() ==> nodes.contains(
            #[trigger] internal_children(m2.page(p))[i] as int,
        )) && (nodes.contains(p) ==> internal_wf(m1.page(p)) && first_child(m2.page(p)) == first_child(
        m1.page(p),
    )) by {
        assert(p == parent);
    }
    lemma_internal_update(m1, m2, root, nodes, nodes, ps, f0);
}

/// A full internal node of the tree split into itself and a fresh node,
/// over its children with `pc` added, keeps the insert in `split_state`
/// (with the fresh node among the nodes) and keeps the rows.
pub proof fn lemma_parent_split(
    m1: PagerModel,
    m2: PagerModel,
    root: int,
    nodes: Set<int>,
    ps: Seq<int>,
    f0: nat,
    parent: int,
    np: int,
    pc: u32,
    pos: int,
    mid: int,
)
    requires
        pager_wf(m1),
        split_state(m1, root, nodes, ps, f0),
        nodes.contains(parent),
        nodes.contains(pc as int),
        internal_wf(m1.page(parent)),
        np == m1.file_pages,
        np < MAX_PAGES,
        m2.file_pages == m1.file_pages + 1,
        forall|p: int| p != parent && p != np ==> #[trigger] m2.page(p) == m1.page(p),
        internal_wf(m2.page(parent)),
        internal_wf(m2.page(np)),
        0 <= pos <= internal_count(m1.page(parent)),
        0 <= mid <= internal_count(m1.page(parent)),
        internal_children(m2.page(parent)) == internal_children(m1.page(parent)).insert(pos + 1, pc).take(
            mid + 1,
        ),
        internal_children(m2.page(np)) == internal_children(m1.page(parent)).insert(pos + 1, pc).skip(mid + 1),
    ensures
        split_state(m2, root, nodes.insert(np), ps, f0),
        rows_of(m2, ps) == rows_of(m1, ps),
        forall|i: int| 0 <= i < ps.len() ==> m2.page(#[trigger] ps[i]) == m1.page(ps[i]),
{
    let o = m1.page(parent);
    let oc = internal_children(o);
    let cs = oc.insert(pos + 1, pc);
    let nodes2 = nodes.insert(np);
    lemma_nodes_in_file(m1, root, nodes, ps);
    assert(!nodes.contains(np));
    assert(node_ok(m1, parent, nodes, ps));
    assert forall|i: int| 0 <= i < cs.len() implies nodes.contains(#[trigger] cs[i] as int) by {
        if i < pos + 1 {
            assert(cs[i] == oc[i]);
        } else if i > pos + 1 {
            assert(cs[i] == oc[i - 1]);
        }
    }
    let lc = internal_children(m2.page(parent));
    let rc = internal_children(m2.page(np));
    assert forall|i: int| 0 <= i < lc.len() implies nodes2.contains(#[trigger] lc[i] as int) by {
        assert(lc[i] == cs[i]);
    }
    assert forall|i: int| 0 <= i < rc.len() implies nodes2.contains(#[trigger] rc[i] as int) by {
        assert(rc[i] == cs[mid + 1 + i]);
    }
    assert(first_child(o) == oc[0]);
    assert(first_child(m2.page(parent)) == lc[0]);
    assert(lc[0] == cs[0]);
    assert forall|p: int| #[trigger] m2.page(p) != m1.page(p) implies nodes2.contains(p) && internal_wf(
        m2.page(p),
    ) && (forall|i: int|
        0 <= i < internal_children(m2.page(p)).len() ==> nodes2.contains(
            #[trigger] internal_children(m2.page(p))[i] as int,
        )) && (nodes.contains(p) ==> internal_wf(m1.page(p)) && first_child(m2.page(p)) == first_child(
        m1.page(p),
    )) by {
        assert(p == parent || p == np);
    }
    assert forall|p: int| nodes2.contains(p) && !nodes.contains(p) implies p >= m1.file_pages && internal_wf(
        #[trigger] m2.page(p),
    ) by {
        assert(p == np);
    }
    lemma_internal_update(m1, m2, root, nodes, nodes2, ps, f0);
}

} // verus!

verus! {

/// A tree, and the rows its chain holds, are kept by any change outside its
/// nodes and its chain that keeps the file's length.
pub proof fn lemma_shape_frame(m1: PagerModel, m2: PagerModel, root: int, nodes: Set<int>, ps: Seq<int>)
    requires
        shape(m1, root, nodes, ps),
        m2.file_pages == m1.file_pages,
        forall|p: int| nodes.contains(p) || ps.contains(p) ==> #[trigger] m2.page(p) == m1.page(p),
    ensures
        shape(m2, root, nodes, ps),
        rows_of(m2, ps) == rows_of(m1, ps),
{
    assert forall|p: int| nodes.contains(p) implies #[trigger] node_ok(m2, p, nodes, ps) by {
        assert(node_ok(m1, p, nodes, ps));
        assert(m2.page(p) == m1.page(p));
    }
    assert forall|p: int| nodes.contains(p) implies same_step(m1.page(p), #[trigger] m2.page(p)) by {
        assert(m2.page(p) == m1.page(p));
    }
    assert forall|p: int|
        nodes.contains(p) && m1.page(p)[0] != NODE_TYPE_LEAF && internal_wf(m1.page(p)) implies nodes.contains(
        first_child(#[trigger] m1.page(p)) as int,
    ) by {
        assert(node_ok(m1, p, nodes, ps));
        assert(internal_children(m1.page(p))[0] == first_child(m1.page(p)));
    }
    lemma_leftmost_frame(m1, m2, root, m1.file_pages, nodes);
    assert forall|i: int| 0 <= i < ps.len() implies m2.page(#[trigger] ps[i]) == m1.page(ps[i]) by {
        assert(ps.contains(ps[i]));
    }
    lemma_chain_frame(m1, m2, ps[0], m1.file_pages);
    lemma_rows_frame(m1, m2, ps);
}

} // verus!

verus! {

/// A sound tree whose first leaf is not page 0, and what a scan of it
/// reads, are kept by a change of page 0 alone that keeps the file's length.
pub proof fn lemma_tree_frame(m1: PagerModel, m2: PagerModel, root: int)
    requires
        pager_wf(m1),
        pager_wf(m2),
        tree_ok(m1, root),
        leftmost_leaf(m1, root, m1.file_pages) != Some(0int),
        m2.file_pages == m1.file_pages,
        forall|p: int| p != 0 ==> #[trigger] m2.page(p) == m1.page(p),
    ensures
        tree_ok(m2, root),
        scan_rows(m2, root) == scan_rows(m1, root),
        leftmost_leaf(m2, root, m2.file_pages) == leftmost_leaf(m1, root, m1.file_pages),
{
    let (nodes, ps) = choose|nodes: Set<int>, ps: Seq<int>| shape(m1, root, nodes, ps);
    assert(ps[0] != 0);
    assert forall|p: int| nodes.contains(p) || ps.contains(p) implies #[trigger] m2.page(p) == m1.page(p) by {
        assert(p != 0);
    }
    lemma_shape_frame(m1, m2, root, nodes, ps);
    lemma_scan_shape(m1, root, nodes, ps);
    lemma_scan_shape(m2, root, nodes, ps);
}

} // verus!

verus! {

/// Pagers with the same pages find the same leftmost leaf.
pub proof fn lemma_leftmost_same(m1: PagerModel, m2: PagerModel, cur: int, f: nat)
    requires
        forall|n: int| #[trigger] m2.page(n) == m1.page(n),
    ensures
        leftmost_leaf(m2, cur, f) == leftmost_leaf(m1, cur, f),
    decreases f,
{
    if f > 0 && 0 <= cur < MAX_PAGES {
        let p = m1.page(cur);
        assert(m2.page(cur) == p);
        if p[0] != NODE_TYPE_LEAF && internal_wf(p) {
            lemma_leftmost_same(m1, m2, first_child(p) as int, (f - 1) as nat);
        }
    }
}

proof fn lemma_chain_rows_same(m1: PagerModel, m2: PagerModel, cur: int, f: nat)
    requires
        forall|n: int| #[trigger] m2.page(n) == m1.page(n),
    ensures
        chain_rows(m2, cur, f) == chain_rows(m1, cur, f),
    decreases f,
{
    if f > 0 && 0 <= cur < MAX_PAGES {
        let p = m1.page(cur);
        assert(m2.page(cur) == p);
        if leaf_wf(p) && leaf_next(p) != 0 {
            lemma_chain_rows_same(m1, m2, leaf_next(p) as int, (f - 1) as nat);
        }
    }
}

/// Two pagers with the same pages and the same length hold the same tree:
/// a scan reads the same, and one is sound where the other is.
pub proof fn lemma_same_pages(m1: PagerModel, m2: PagerModel, root: int)
    requires
        m2.file_pages == m1.file_pages,
        forall|n: int| #[trigger] m2.page(n) == m1.page(n),
    ensures
        scan_rows(m2, root) == scan_rows(m1, root),
        tree_ok(m1, root) ==> tree_ok(m2, root),
        leftmost_leaf(m2, root, m2.file_pages) == leftmost_leaf(m1, root, m1.file_pages),
{
    lemma_leftmost_same(m1, m2, root, m1.file_pages);
    lemma_leftmost_same(m1, m2, root, MAX_PAGES as nat);
    if let Some(leaf) = leftmost_leaf(m1, root, MAX_PAGES as nat) {
        lemma_chain_rows_same(m1, m2, leaf, MAX_PAGES as nat);
    }
    if tree_ok(m1, root) {
        let (nodes, ps) = choose|nodes: Set<int>, ps: Seq<int>| shape(m1, root, nodes, ps);
        lemma_shape_frame(m1, m2, root, nodes, ps);
    }
}

} // verus!
