//! Key order in a B+Tree: every node has bounds on the keys below it, each
//! internal node's separators split its bounds among its children, and the
//! leaves of the chain hold their keys in increasing order within their
//! bounds. A scan of such a tree reads its keys in increasing order, and an
//! insert of a key the tree does not hold keeps the order.
use vstd::prelude::*;
use crate::btree::{internal_children, internal_count, internal_keys, internal_wf, leaf_cells, NODE_TYPE_LEAF};
use crate::btree::{cells_in_key_order, leaf_next, leaf_wf};
use crate::pager::PagerModel;
use crate::shape::{chain_pages, lemma_chain_fuel, lemma_leftmost_fuel, rows_of, shape};
use crate::btree::{cell_rows, leaf_rows, leftmost_leaf, scan_rows};
use crate::pager::MAX_PAGES;

verus! {

/// Below every key.
pub open spec fn key_floor() -> int {
    i64::MIN as int - 1
}

/// Above every key.
pub open spec fn key_ceil() -> int {
    i64::MAX as int + 1
}

/// The bounds of child `i` of a node with separators `ks` and bounds `bd`.
pub open spec fn child_bounds(ks: Seq<i64>, bd: (int, int), i: int) -> (int, int) {
    (if i == 0 { bd.0 } else { ks[i - 1] as int }, if i == ks.len() { bd.1 } else { ks[i] as int })
}

/// At least one separator; the separators strictly increase, strictly
/// inside the bounds.
pub open spec fn seps_ok(ks: Seq<i64>, bd: (int, int)) -> bool {
    &&& ks.len() >= 1
    &&& forall|j: int| 0 <= j < ks.len() ==> bd.0 < #[trigger] ks[j] < bd.1
    &&& forall|j: int, l: int| 0 <= j < l < ks.len() ==> #[trigger] ks[j] < #[trigger] ks[l]
}

/// The keys of cells strictly increase.
pub open spec fn keys_increasing(c: Seq<(i64, Seq<u8>)>) -> bool {
    forall|j: int, l: int| 0 <= j < l < c.len() ==> (#[trigger] c[j]).0 < (#[trigger] c[l]).0
}

/// Every key of the cells lies in `[bd.0, bd.1)`.
pub open spec fn cells_within(c: Seq<(i64, Seq<u8>)>, bd: (int, int)) -> bool {
    forall|j: int| 0 <= j < c.len() ==> bd.0 <= (#[trigger] c[j]).0 < bd.1
}

/// Internal node `q` (page `page`) has ordered separators within its bounds;
/// its children are distinct, have `q` as parent, and (but for child
/// `skip`) have the bounds its separators give them.
#[verifier::opaque]
pub open spec fn node_keyed(
    page: Seq<u8>,
    q: int,
    b: Map<int, (int, int)>,
    par: Map<int, int>,
    skip: int,
) -> bool {
    let ks = internal_keys(page);
    let cs = internal_children(page);
    &&& b.dom().contains(q)
    &&& seps_ok(ks, b[q])
    &&& cs.no_duplicates()
    &&& forall|i: int|
        0 <= i < cs.len() ==> par.dom().contains(#[trigger] cs[i] as int) && par[cs[i] as int] == q
            && b.dom().contains(cs[i] as int)
    &&& forall|i: int| 0 <= i < cs.len() && i != skip ==> b[#[trigger] cs[i] as int] == child_bounds(ks, b[q], i)
}

/// The keys of the tree rooted at `root`, with nodes `nodes` and chain
/// `ps`, are in order under bounds `b` and parents `par`: the root has
/// bounds `root_bd` and no parent; every internal node is keyed (child
/// `i_skip` of node `p_skip` excepted); every leaf of the chain holds
/// increasing keys within its bounds, each leaf but the first starts with
/// its lower bound, each leaf's upper bound is the next one's lower bound,
/// and the last one has no upper bound.
pub open spec fn keyed_except(
    m: PagerModel,
    root: int,
    nodes: Set<int>,
    ps: Seq<int>,
    b: Map<int, (int, int)>,
    par: Map<int, int>,
    root_bd: (int, int),
    p_skip: int,
    i_skip: int,
) -> bool {
    &&& b.dom().contains(root)
    &&& b[root] == root_bd
    &&& !par.dom().contains(root)
    &&& forall|c: int| par.dom().contains(c) ==> nodes.contains(c)
    &&& forall|q: int|
        nodes.contains(q) && internal_wf(#[trigger] m.page(q)) ==> node_keyed(
            m.page(q),
            q,
            b,
            par,
            if q == p_skip { i_skip } else { -1 },
        )
    &&& chain_keyed(m, ps, b)
    &&& b[ps.last()].1 == key_ceil()
}

/// The leaves of chain `ps` hold increasing keys within their bounds, which
/// are not empty; each leaf but the first starts with its lower bound, and
/// each leaf's upper bound is the next one's lower bound.
#[verifier::opaque]
pub open spec fn chain_keyed(m: PagerModel, ps: Seq<int>, b: Map<int, (int, int)>) -> bool {
    &&& forall|j: int|
        0 <= j < ps.len() ==> b.dom().contains(#[trigger] ps[j]) && keys_increasing(leaf_cells(m.page(ps[j])))
            && cells_within(leaf_cells(m.page(ps[j])), b[ps[j]]) && b[ps[j]].0 < b[ps[j]].1
    &&& forall|j: int|
        0 < j < ps.len() ==> leaf_cells(m.page(#[trigger] ps[j])).len() > 0 && b[ps[j]].0 == leaf_cells(
            m.page(ps[j]),
        )[0].0
    &&& forall|j: int| 0 <= j < ps.len() - 1 ==> b[#[trigger] ps[j]].1 == b[ps[j + 1]].0
}

/// The keys of the tree are in order.
pub open spec fn keyed(
    m: PagerModel,
    root: int,
    nodes: Set<int>,
    ps: Seq<int>,
    b: Map<int, (int, int)>,
    par: Map<int, int>,
) -> bool {
    keyed_except(m, root, nodes, ps, b, par, (key_floor(), key_ceil()), -1, -1)
}

/// The cells of a list of leaf pages, leaf after leaf.
pub open spec fn cells_of(m: PagerModel, ps: Seq<int>) -> Seq<(i64, Seq<u8>)>
    decreases ps.len(),
{
    if ps.len() == 0 {
        Seq::empty()
    } else {
        leaf_cells(m.page(ps[0])) + cells_of(m, ps.drop_first())
    }
}

/// Where `key` goes among separators `ks`: after every smaller one.
pub open spec fn routes_to(ks: Seq<i64>, key: i64, idx: int) -> bool {
    &&& 0 <= idx <= ks.len()
    &&& forall|j: int| 0 <= j < idx ==> key > #[trigger] ks[j]
    &&& idx < ks.len() ==> key <= ks[idx]
}

/// A key within a node's bounds that goes to child `idx` is within that
/// child's bounds.
pub proof fn lemma_route_step(ks: Seq<i64>, bd: (int, int), key: i64, idx: int)
    requires
        seps_ok(ks, bd),
        bd.0 < key <= bd.1,
        routes_to(ks, key, idx),
    ensures
        child_bounds(ks, bd, idx).0 < key <= child_bounds(ks, bd, idx).1,
{
    if idx > 0 {
        assert(key > ks[idx - 1]);
    }
}

proof fn lemma_chain_keyed_rest(m: PagerModel, ps: Seq<int>, b: Map<int, (int, int)>)
    requires
        chain_keyed(m, ps, b),
        ps.len() > 1,
    ensures
        chain_keyed(m, ps.drop_first(), b),
{
    reveal(chain_keyed);
    let rest = ps.drop_first();
    assert forall|j: int| 0 <= j < rest.len() implies b.dom().contains(#[trigger] rest[j]) && keys_increasing(
        leaf_cells(m.page(rest[j])),
    ) && cells_within(leaf_cells(m.page(rest[j])), b[rest[j]]) && b[rest[j]].0 < b[rest[j]].1 by {
        assert(rest[j] == ps[j + 1]);
    }
    assert forall|j: int| 0 < j < rest.len() implies leaf_cells(m.page(#[trigger] rest[j])).len() > 0
        && b[rest[j]].0 == leaf_cells(m.page(rest[j]))[0].0 by {
        assert(rest[j] == ps[j + 1]);
    }
    assert forall|j: int| 0 <= j < rest.len() - 1 implies b[#[trigger] rest[j]].1 == b[rest[j + 1]].0 by {
        assert(rest[j] == ps[j + 1]);
        assert(rest[j + 1] == ps[j + 2]);
    }
}

/// Two runs of increasing keys, the first below `mid` and the second from
/// `mid` on, make one.
proof fn lemma_concat_sorted(a: Seq<(i64, Seq<u8>)>, c: Seq<(i64, Seq<u8>)>, lo: int, mid: int, hi: int)
    requires
        keys_increasing(a),
        keys_increasing(c),
        forall|g: int| 0 <= g < a.len() ==> lo <= (#[trigger] a[g]).0 < mid,
        forall|g: int| 0 <= g < c.len() ==> mid <= (#[trigger] c[g]).0 < hi,
        lo <= mid <= hi,
    ensures
        keys_increasing(a + c),
        forall|g: int| 0 <= g < (a + c).len() ==> lo <= (#[trigger] (a + c)[g]).0 < hi,
{
    let all = a + c;
    assert forall|j: int, l: int| 0 <= j < l < all.len() implies (#[trigger] all[j]).0 < (#[trigger] all[l]).0 by {
        if l < a.len() {
            assert(all[j] == a[j] && all[l] == a[l]);
        } else if j < a.len() {
            assert(all[j] == a[j] && all[l] == c[l - a.len()]);
        } else {
            assert(all[j] == c[j - a.len()] && all[l] == c[l - a.len()]);
        }
    }
    assert forall|g: int| 0 <= g < all.len() implies lo <= (#[trigger] all[g]).0 < hi by {
        if g >= a.len() {
            assert(all[g] == c[g - a.len()]);
        } else {
            assert(all[g] == a[g]);
        }
    }
}

/// The cells of a keyed chain have strictly increasing keys, from the
/// first leaf's lower bound to below the last leaf's upper bound.
pub proof fn lemma_chain_sorted(m: PagerModel, ps: Seq<int>, b: Map<int, (int, int)>)
    requires
        chain_keyed(m, ps, b),
        ps.len() > 0,
    ensures
        keys_increasing(cells_of(m, ps)),
        forall|g: int|
            0 <= g < cells_of(m, ps).len() ==> b[ps[0]].0 <= (#[trigger] cells_of(m, ps)[g]).0 < b[ps.last()].1,
    decreases ps.len(),
{
    reveal(chain_keyed);
    let c0 = leaf_cells(m.page(ps[0]));
    let rest = ps.drop_first();
    assert(cells_of(m, ps) == c0 + cells_of(m, rest));
    assert(b.dom().contains(ps[0]) && keys_increasing(c0) && cells_within(c0, b[ps[0]]) && b[ps[0]].0 < b[ps[0]].1);
    if rest.len() == 0 {
        assert(cells_of(m, rest) =~= Seq::<(i64, Seq<u8>)>::empty());
        assert(cells_of(m, ps) =~= c0);
        assert(ps.last() == ps[0]);
    } else {
        lemma_chain_keyed_rest(m, ps, b);
        lemma_chain_sorted(m, rest, b);
        assert(rest[0] == ps[1]);
        assert(b[ps[0]].1 == b[ps[1]].0);
        assert(rest.last() == ps.last());
        let cr = cells_of(m, rest);
        let l1 = leaf_cells(m.page(rest[0]));
        assert(cr == l1 + cells_of(m, rest.drop_first()));
        assert(l1.len() > 0);
        assert(cr[0] == l1[0]);
        assert(b[ps[0]].1 <= cr[0].0 < b[ps.last()].1);
        lemma_concat_sorted(c0, cells_of(m, rest), b[ps[0]].0, b[ps[0]].1, b[ps.last()].1);
    }
}

/// A key strictly inside a leaf's bounds and not in it, inserted at its
/// place, keeps the leaf's keys increasing, within its bounds, and (where
/// the leaf is not empty) starting with the same key.
pub proof fn lemma_insert_cell_keys(c: Seq<(i64, Seq<u8>)>, pos: int, x: (i64, Seq<u8>), bd: (int, int))
    requires
        keys_increasing(c),
        cells_within(c, bd),
        crate::btree::is_insert_pos(c, x.0, pos),
        bd.0 < x.0 < bd.1,
        forall|i: int| 0 <= i < c.len() ==> (#[trigger] c[i]).0 != x.0,
    ensures
        keys_increasing(c.insert(pos, x)),
        cells_within(c.insert(pos, x), bd),
        c.len() > 0 && bd.0 == c[0].0 ==> c.insert(pos, x)[0] == c[0],
{
    let d = c.insert(pos, x);
    assert forall|j: int, l: int| 0 <= j < l < d.len() implies (#[trigger] d[j]).0 < (#[trigger] d[l]).0 by {
        if l < pos {
            assert(d[j] == c[j] && d[l] == c[l]);
        } else if l == pos {
            assert(d[j] == c[j]);
        } else if j < pos {
            assert(d[j] == c[j] && d[l] == c[l - 1]);
            assert(c[pos].0 >= x.0);
            assert(c[pos].0 != x.0);
        } else if j == pos {
            assert(d[l] == c[l - 1]);
            assert(c[pos].0 >= x.0 && c[pos].0 != x.0);
        } else {
            assert(d[j] == c[j - 1] && d[l] == c[l - 1]);
        }
    }
    assert forall|g: int| 0 <= g < d.len() implies bd.0 <= (#[trigger] d[g]).0 < bd.1 by {
        if g < pos {
            assert(d[g] == c[g]);
        } else if g > pos {
            assert(d[g] == c[g - 1]);
        }
    }
    if c.len() > 0 && bd.0 == c[0].0 {
        if pos == 0 {
            assert(c[0].0 >= x.0);
        }
    }
}

/// Inserting a cell into a leaf of the chain, with a key strictly inside
/// the leaf's bounds that the leaf does not hold, keeps the keys in order.
pub proof fn lemma_leaf_insert_keyed(
    m1: PagerModel,
    m2: PagerModel,
    root: int,
    nodes: Set<int>,
    ps: Seq<int>,
    b: Map<int, (int, int)>,
    par: Map<int, int>,
    j: int,
    pos: int,
    x: (i64, Seq<u8>),
)
    requires
        keyed(m1, root, nodes, ps, b, par),
        0 <= j < ps.len(),
        forall|p: int| p != ps[j] ==> #[trigger] m2.page(p) == m1.page(p),
        crate::btree::leaf_wf(m2.page(ps[j])),
        crate::btree::is_insert_pos(leaf_cells(m1.page(ps[j])), x.0, pos),
        leaf_cells(m2.page(ps[j])) == leaf_cells(m1.page(ps[j])).insert(pos, x),
        b[ps[j]].0 < x.0 < b[ps[j]].1,
        forall|i: int|
            0 <= i < leaf_cells(m1.page(ps[j])).len() ==> (#[trigger] leaf_cells(m1.page(ps[j]))[i]).0 != x.0,
    ensures
        keyed(m2, root, nodes, ps, b, par),
{
    reveal(chain_keyed);
    reveal(node_keyed);
    let l = ps[j];
    let c = leaf_cells(m1.page(l));
    assert(b.dom().contains(ps[j]) && keys_increasing(c) && cells_within(c, b[l]));
    lemma_insert_cell_keys(c, pos, x, b[l]);
    assert forall|q: int| nodes.contains(q) && internal_wf(#[trigger] m2.page(q)) implies node_keyed(
        m2.page(q),
        q,
        b,
        par,
        if q == -1 { -1 } else { -1 },
    ) by {
        assert(q != l);
        assert(m2.page(q) == m1.page(q));
    }
    assert forall|i: int| 0 <= i < ps.len() implies b.dom().contains(#[trigger] ps[i]) && keys_increasing(
        leaf_cells(m2.page(ps[i])),
    ) && cells_within(leaf_cells(m2.page(ps[i])), b[ps[i]]) && b[ps[i]].0 < b[ps[i]].1 by {
        if ps[i] != l {
            assert(m2.page(ps[i]) == m1.page(ps[i]));
        }
    }
    assert forall|i: int| 0 < i < ps.len() implies leaf_cells(m2.page(#[trigger] ps[i])).len() > 0
        && b[ps[i]].0 == leaf_cells(m2.page(ps[i]))[0].0 by {
        if ps[i] != l {
            assert(m2.page(ps[i]) == m1.page(ps[i]));
        }
    }
}

/// The state of an insert whose node `x` has split into itself and a fresh
/// node `r` with separator `med`, before `x`'s parent `pp` (where `x` is
/// child `pi`; -1 where `x` is the root) takes the separator: everything is
/// in order but `pp`'s bounds for `x`, which `x` and `r` now share at `med`.
pub open spec fn pending(
    m: PagerModel,
    root: int,
    nodes: Set<int>,
    ps: Seq<int>,
    b: Map<int, (int, int)>,
    par: Map<int, int>,
    x: int,
    r: int,
    med: i64,
    pp: int,
    pi: int,
) -> bool {
    let root_bd = if x == root { (key_floor(), med as int) } else { (key_floor(), key_ceil()) };
    &&& keyed_except(m, root, nodes, ps, b, par, root_bd, pp, pi)
    &&& nodes.contains(x)
    &&& nodes.contains(r)
    &&& !par.dom().contains(r)
    &&& r != root
    &&& b.dom().contains(x)
    &&& b.dom().contains(r)
    &&& x == root ==> pp == -1 && b[r] == (med as int, key_ceil())
    &&& x != root ==> {
        let pg = m.page(pp);
        let cb = child_bounds(internal_keys(pg), b[pp], pi);
        &&& nodes.contains(pp)
        &&& pp != r
        &&& internal_wf(pg)
        &&& 0 <= pi < internal_children(pg).len()
        &&& internal_children(pg)[pi] as int == x
        &&& b[x] == (cb.0, med as int)
        &&& b[r] == (med as int, cb.1)
        &&& cb.0 < med < cb.1
    }
}

/// `x`'s parent in a keyed tree: `pp` holds `x` as child `pi`, or `x` is
/// the root and `pp` is -1.
pub open spec fn parent_of(m: PagerModel, root: int, par: Map<int, int>, x: int, pp: int, pi: int) -> bool {
    &&& x == root ==> pp == -1
    &&& x != root ==> par.dom().contains(x) && par[x] == pp && 0 <= pi < internal_children(m.page(pp)).len()
        && internal_children(m.page(pp))[pi] as int == x
}

/// The two parts of increasing keys within bounds, divided at `all[k]`.
proof fn lemma_split_halves(all: Seq<(i64, Seq<u8>)>, k: int, bd: (int, int))
    requires
        keys_increasing(all),
        cells_within(all, bd),
        0 <= k < all.len(),
        bd.0 < all[k].0,
    ensures
        keys_increasing(all.take(k)),
        cells_within(all.take(k), (bd.0, all[k].0 as int)),
        keys_increasing(all.skip(k)),
        cells_within(all.skip(k), (all[k].0 as int, bd.1)),
        bd.0 < all[k].0 < bd.1,
        k > 0 ==> all.take(k)[0] == all[0],
        all.skip(k)[0] == all[k],
        all.skip(k).len() > 0,
{
    let left = all.take(k);
    let right = all.skip(k);
    let med = all[k].0 as int;
    assert(all[k].0 < bd.1);
    assert forall|a: int, c: int| 0 <= a < c < left.len() implies (#[trigger] left[a]).0 < (#[trigger] left[c]).0 by {
        assert(left[a] == all[a] && left[c] == all[c]);
    }
    assert forall|g: int| 0 <= g < left.len() implies bd.0 <= (#[trigger] left[g]).0 < med by {
        assert(left[g] == all[g]);
    }
    assert forall|a: int, c: int| 0 <= a < c < right.len() implies (#[trigger] right[a]).0 < (#[trigger] right[c]).0 by {
        assert(right[a] == all[a + k] && right[c] == all[c + k]);
    }
    assert forall|g: int| 0 <= g < right.len() implies med <= (#[trigger] right[g]).0 < bd.1 by {
        assert(right[g] == all[g + k]);
        if g > 0 {
            assert(all[k].0 < all[g + k].0);
        }
    }
}

/// What the split of leaf `ps[j]` into itself and `n` needs of the pages.
pub open spec fn leaf_split_pages(
    m1: PagerModel,
    m2: PagerModel,
    ps: Seq<int>,
    b: Map<int, (int, int)>,
    j: int,
    n: int,
    all: Seq<(i64, Seq<u8>)>,
    k: int,
) -> bool {
    &&& 0 <= j < ps.len()
    &&& ps.no_duplicates()
    &&& !ps.contains(n)
    &&& forall|p: int| p != ps[j] && p != n ==> #[trigger] m2.page(p) == m1.page(p)
    &&& keys_increasing(all)
    &&& cells_within(all, b[ps[j]])
    &&& 0 <= k < all.len()
    &&& b[ps[j]].0 < all[k].0
    &&& (k == 0 ==> j == 0)
    &&& leaf_cells(m2.page(ps[j])) == all.take(k)
    &&& leaf_cells(m2.page(n)) == all.skip(k)
    &&& j > 0 ==> all[0] == leaf_cells(m1.page(ps[j]))[0]
}

/// The bounds after the split of leaf `ps[j]`: divided at the first key
/// of the right part.
pub open spec fn split_bounds(b: Map<int, (int, int)>, l: int, n: int, med: int) -> Map<int, (int, int)> {
    b.insert(l, (b[l].0, med)).insert(n, (med, b[l].1))
}

proof fn lemma_chain_split_leaves(
    m1: PagerModel,
    m2: PagerModel,
    ps: Seq<int>,
    b: Map<int, (int, int)>,
    j: int,
    n: int,
    all: Seq<(i64, Seq<u8>)>,
    k: int,
)
    requires
        chain_keyed(m1, ps, b),
        leaf_split_pages(m1, m2, ps, b, j, n, all, k),
    ensures
        ({
            let b2 = split_bounds(b, ps[j], n, all[k].0 as int);
            let ps2 = ps.insert(j + 1, n);
            forall|i: int| 0 <= i < ps2.len() ==> b2.dom().contains(#[trigger] ps2[i]) && keys_increasing(
                leaf_cells(m2.page(ps2[i])),
            ) && cells_within(leaf_cells(m2.page(ps2[i])), b2[ps2[i]]) && b2[ps2[i]].0 < b2[ps2[i]].1
        }),
{
    reveal(chain_keyed);
    let l = ps[j];
    let b2 = split_bounds(b, l, n, all[k].0 as int);
    let ps2 = ps.insert(j + 1, n);
    assert(ps.contains(l));
    lemma_split_halves(all, k, b[l]);
    assert forall|i: int| 0 <= i < ps2.len() implies b2.dom().contains(#[trigger] ps2[i]) && keys_increasing(
        leaf_cells(m2.page(ps2[i])),
    ) && cells_within(leaf_cells(m2.page(ps2[i])), b2[ps2[i]]) && b2[ps2[i]].0 < b2[ps2[i]].1 by {
        if i == j {
            assert(ps2[i] == l);
        } else if i == j + 1 {
            assert(ps2[i] == n);
        } else {
            let o = if i < j { i } else { i - 1 };
            assert(ps2[i] == ps[o]);
            assert(ps[o] != l);
            assert(ps.contains(ps[o]));
        }
    }
}

proof fn lemma_chain_split_starts(
    m1: PagerModel,
    m2: PagerModel,
    ps: Seq<int>,
    b: Map<int, (int, int)>,
    j: int,
    n: int,
    all: Seq<(i64, Seq<u8>)>,
    k: int,
)
    requires
        chain_keyed(m1, ps, b),
        leaf_split_pages(m1, m2, ps, b, j, n, all, k),
    ensures
        ({
            let b2 = split_bounds(b, ps[j], n, all[k].0 as int);
            let ps2 = ps.insert(j + 1, n);
            forall|i: int| 0 < i < ps2.len() ==> leaf_cells(m2.page(#[trigger] ps2[i])).len() > 0
                && b2[ps2[i]].0 == leaf_cells(m2.page(ps2[i]))[0].0
        }),
{
    reveal(chain_keyed);
    let l = ps[j];
    let b2 = split_bounds(b, l, n, all[k].0 as int);
    let ps2 = ps.insert(j + 1, n);
    assert(ps.contains(l));
    lemma_split_halves(all, k, b[l]);
    assert forall|i: int| 0 < i < ps2.len() implies leaf_cells(m2.page(#[trigger] ps2[i])).len() > 0
        && b2[ps2[i]].0 == leaf_cells(m2.page(ps2[i]))[0].0 by {
        if i == j {
            assert(ps2[i] == l);
        } else if i == j + 1 {
            assert(ps2[i] == n);
        } else {
            let o = if i < j { i } else { i - 1 };
            assert(ps2[i] == ps[o]);
            assert(ps[o] != l);
            assert(ps.contains(ps[o]));
        }
    }
}

proof fn lemma_chain_split_links(
    m1: PagerModel,
    m2: PagerModel,
    ps: Seq<int>,
    b: Map<int, (int, int)>,
    j: int,
    n: int,
    all: Seq<(i64, Seq<u8>)>,
    k: int,
)
    requires
        chain_keyed(m1, ps, b),
        leaf_split_pages(m1, m2, ps, b, j, n, all, k),
    ensures
        ({
            let b2 = split_bounds(b, ps[j], n, all[k].0 as int);
            let ps2 = ps.insert(j + 1, n);
            forall|i: int| 0 <= i < ps2.len() - 1 ==> b2[#[trigger] ps2[i]].1 == b2[ps2[i + 1]].0
        }),
{
    reveal(chain_keyed);
    let l = ps[j];
    let b2 = split_bounds(b, l, n, all[k].0 as int);
    let ps2 = ps.insert(j + 1, n);
    assert(ps.contains(l));
    assert forall|i: int| 0 <= i < ps2.len() - 1 implies b2[#[trigger] ps2[i]].1 == b2[ps2[i + 1]].0 by {
        if i + 1 < j {
            assert(ps2[i] == ps[i] && ps2[i + 1] == ps[i + 1]);
            assert(ps[i] != l && ps[i + 1] != l);
            assert(ps.contains(ps[i]) && ps.contains(ps[i + 1]));
        } else if i + 1 == j {
            assert(ps2[i] == ps[i] && ps2[i + 1] == l);
            assert(ps[i] != l);
            assert(ps.contains(ps[i]));
        } else if i == j {
            assert(ps2[i] == l && ps2[i + 1] == n);
        } else if i == j + 1 {
            assert(ps2[i] == n);
            assert(ps2[i + 1] == ps[j + 1]);
            assert(ps[j + 1] != l);
            assert(ps.contains(ps[j + 1]));
        } else {
            assert(ps2[i] == ps[i - 1] && ps2[i + 1] == ps[i]);
            assert(ps[i - 1] != l && ps[i] != l);
            assert(ps.contains(ps[i - 1]) && ps.contains(ps[i]));
        }
    }
}

/// The chain with leaf `ps[j]` split into itself and `n`, keys divided at
/// `all[k]`, is keyed under the bounds divided there.
proof fn lemma_chain_split_keyed(
    m1: PagerModel,
    m2: PagerModel,
    ps: Seq<int>,
    b: Map<int, (int, int)>,
    j: int,
    n: int,
    all: Seq<(i64, Seq<u8>)>,
    k: int,
)
    requires
        chain_keyed(m1, ps, b),
        leaf_split_pages(m1, m2, ps, b, j, n, all, k),
    ensures
        chain_keyed(m2, ps.insert(j + 1, n), split_bounds(b, ps[j], n, all[k].0 as int)),
{
    lemma_chain_split_leaves(m1, m2, ps, b, j, n, all, k);
    lemma_chain_split_starts(m1, m2, ps, b, j, n, all, k);
    lemma_chain_split_links(m1, m2, ps, b, j, n, all, k);
    reveal(chain_keyed);
}

/// Internal pages unchanged and the bounds changed only at `x` (whose one
/// parent entry is child `pi` of `pp`) and at `n`, which is no child: every
/// internal node stays keyed, but for `pp`'s entry for `x`.
proof fn lemma_rebound_nodes(
    m1: PagerModel,
    m2: PagerModel,
    root: int,
    nodes: Set<int>,
    nodes2: Set<int>,
    b: Map<int, (int, int)>,
    b2: Map<int, (int, int)>,
    par: Map<int, int>,
    x: int,
    n: int,
    pp: int,
    pi: int,
)
    requires
        forall|q: int| nodes.contains(q) && internal_wf(#[trigger] m1.page(q)) ==> node_keyed(m1.page(q), q, b, par, -1),
        !par.dom().contains(root),
        !par.dom().contains(n),
        x == root ==> pp == -1,
        x != root ==> par.dom().contains(x) && par[x] == pp && 0 <= pi < internal_children(m1.page(pp)).len()
            && internal_children(m1.page(pp))[pi] as int == x,
        forall|q: int|
            nodes2.contains(q) && internal_wf(#[trigger] m2.page(q)) ==> q != x && q != n && m2.page(q) == m1.page(q)
                && nodes.contains(q),
        forall|c: int| c != x && c != n ==> #[trigger] b2[c] == b[c],
        forall|c: int| b.dom().contains(c) ==> #[trigger] b2.dom().contains(c),
    ensures
        forall|q: int|
            nodes2.contains(q) && internal_wf(#[trigger] m2.page(q)) ==> node_keyed(
                m2.page(q),
                q,
                b2,
                par,
                if q == pp { pi } else { -1 },
            ),
{
    reveal(node_keyed);
    assert forall|q: int| nodes2.contains(q) && internal_wf(#[trigger] m2.page(q)) implies node_keyed(
        m2.page(q),
        q,
        b2,
        par,
        if q == pp { pi } else { -1 },
    ) by {
        assert(m2.page(q) == m1.page(q));
        assert(node_keyed(m1.page(q), q, b, par, -1));
        let ks = internal_keys(m1.page(q));
        let cs = internal_children(m1.page(q));
        let skip = if q == pp { pi } else { -1 };
        assert(b2[q] == b[q]);
        assert forall|i: int| 0 <= i < cs.len() implies par.dom().contains(#[trigger] cs[i] as int) && par[cs[i] as int]
            == q && b2.dom().contains(cs[i] as int) by {
            assert(b.dom().contains(cs[i] as int));
        }
        assert forall|i: int| 0 <= i < cs.len() && i != skip implies b2[#[trigger] cs[i] as int] == child_bounds(
            ks,
            b2[q],
            i,
        ) by {
            assert(par.dom().contains(cs[i] as int) && par[cs[i] as int] == q);
            if cs[i] as int == x {
                assert(x != root);
                assert(q == pp);
                assert(cs[pi] as int == x);
            }
        }
    }
}

/// A leaf of the chain split into itself and a fresh leaf `n` (the keys,
/// with the new one, divided at `all[k]`) leaves the insert pending at the
/// leaf's parent.
#[verifier::rlimit(100)]
pub proof fn lemma_leaf_split_pending(
    m1: PagerModel,
    m2: PagerModel,
    root: int,
    nodes: Set<int>,
    ps: Seq<int>,
    b: Map<int, (int, int)>,
    par: Map<int, int>,
    j: int,
    n: int,
    all: Seq<(i64, Seq<u8>)>,
    k: int,
    pp: int,
    pi: int,
)
    requires
        keyed(m1, root, nodes, ps, b, par),
        leaf_split_pages(m1, m2, ps, b, j, n, all, k),
        !nodes.contains(n),
        nodes.contains(root),
        nodes.contains(ps[j]),
        crate::btree::leaf_wf(m1.page(ps[j])),
        crate::btree::leaf_wf(m2.page(ps[j])),
        crate::btree::leaf_wf(m2.page(n)),
        parent_of(m1, root, par, ps[j], pp, pi),
        ps[j] != root ==> nodes.contains(pp) && internal_wf(m1.page(pp)),
    ensures
        pending(
            m2,
            root,
            nodes.insert(n),
            ps.insert(j + 1, n),
            split_bounds(b, ps[j], n, all[k].0 as int),
            par,
            ps[j],
            n,
            all[k].0,
            pp,
            pi,
        ),
{
    let l = ps[j];
    let med = all[k].0;
    let b2 = split_bounds(b, l, n, med as int);
    let ps2 = ps.insert(j + 1, n);
    let nodes2 = nodes.insert(n);
    let root_bd = if l == root { (key_floor(), med as int) } else { (key_floor(), key_ceil()) };
    assert(n != l);
    assert(!par.dom().contains(n));
    lemma_split_halves(all, k, b[l]);
    lemma_chain_split_keyed(m1, m2, ps, b, j, n, all, k);
    assert forall|q: int| nodes2.contains(q) && internal_wf(#[trigger] m2.page(q)) implies q != l && q != n
        && m2.page(q) == m1.page(q) && nodes.contains(q) by {}
    lemma_rebound_nodes(m1, m2, root, nodes, nodes2, b, b2, par, l, n, pp, pi);
    // The chain's last leaf.
    if j == ps.len() - 1 {
        assert(ps2.last() == n);
    } else {
        assert(ps2.last() == ps.last());
        assert(ps.last() != l) by {
            assert(ps.last() == ps[ps.len() - 1]);
        }
        assert(ps.contains(ps.last()));
    }
    assert(keyed_except(m2, root, nodes2, ps2, b2, par, root_bd, pp, pi));
    if l != root {
        let pg = m1.page(pp);
        assert(pp != l && pp != n);
        assert(m2.page(pp) == pg);
        assert(node_keyed(pg, pp, b, par, -1));
        assert(b[l] == child_bounds(internal_keys(pg), b[pp], pi)) by {
            reveal(node_keyed);
        }
    }
}

/// A chain whose pages are unchanged stays keyed.
proof fn lemma_chain_keyed_frame(m1: PagerModel, m2: PagerModel, ps: Seq<int>, b: Map<int, (int, int)>)
    requires
        chain_keyed(m1, ps, b),
        forall|j: int| 0 <= j < ps.len() ==> m2.page(#[trigger] ps[j]) == m1.page(ps[j]),
    ensures
        chain_keyed(m2, ps, b),
{
    reveal(chain_keyed);
}

/// A chain whose pages and bounds are unchanged stays keyed.
proof fn lemma_chain_keyed_frame2(
    m1: PagerModel,
    m2: PagerModel,
    ps: Seq<int>,
    b: Map<int, (int, int)>,
    b2: Map<int, (int, int)>,
)
    requires
        chain_keyed(m1, ps, b),
        forall|j: int|
            0 <= j < ps.len() ==> m2.page(#[trigger] ps[j]) == m1.page(ps[j]) && b2.dom().contains(ps[j])
                && b2[ps[j]] == b[ps[j]],
    ensures
        chain_keyed(m2, ps, b2),
{
    reveal(chain_keyed);
    assert forall|j: int| 0 <= j < ps.len() - 1 implies b2[#[trigger] ps[j]].1 == b2[ps[j + 1]].0 by {
        assert(m2.page(ps[j + 1]) == m1.page(ps[j + 1]) && b2[ps[j + 1]] == b[ps[j + 1]]);
    }
}

/// Where a separator strictly inside child `pi`'s bounds goes among
/// strictly increasing separators: right after that child.
proof fn lemma_key_pos_at_child(ks: Seq<i64>, bd: (int, int), pi: int, med: i64, pos: int)
    requires
        seps_ok(ks, bd),
        0 <= pi <= ks.len(),
        child_bounds(ks, bd, pi).0 < med < child_bounds(ks, bd, pi).1,
        crate::btree::is_key_pos(ks, med, pos),
    ensures
        pos == pi,
{
    if pos < pi {
        assert(ks[pos] >= med);
        if pos < pi - 1 {
            assert(ks[pos] < ks[pi - 1]);
        }
    } else if pos > pi {
        assert(ks[pi] < med);
    }
}

/// The separators and children of a node once `med` and `r` are added
/// right after child `pi`: the node's bounds, split at `med` between `pi`
/// and `r`, the others as before.
proof fn lemma_insert_child_bounds(ks: Seq<i64>, bd: (int, int), pi: int, med: i64, i: int)
    requires
        seps_ok(ks, bd),
        0 <= pi <= ks.len(),
        child_bounds(ks, bd, pi).0 < med < child_bounds(ks, bd, pi).1,
        0 <= i <= ks.len() + 1,
    ensures
        seps_ok(ks.insert(pi, med), bd),
        i < pi ==> child_bounds(ks.insert(pi, med), bd, i) == child_bounds(ks, bd, i),
        i == pi ==> child_bounds(ks.insert(pi, med), bd, i) == (child_bounds(ks, bd, pi).0, med as int),
        i == pi + 1 ==> child_bounds(ks.insert(pi, med), bd, i) == (med as int, child_bounds(ks, bd, pi).1),
        i > pi + 1 ==> child_bounds(ks.insert(pi, med), bd, i) == child_bounds(ks, bd, i - 1),
{
    let k2 = ks.insert(pi, med);
    assert(bd.0 <= child_bounds(ks, bd, pi).0) by {
        if pi > 0 {
            assert(bd.0 < ks[pi - 1]);
        }
    }
    assert(child_bounds(ks, bd, pi).1 <= bd.1) by {
        if pi < ks.len() {
            assert(ks[pi] < bd.1);
        }
    }
    assert forall|j: int| 0 <= j < k2.len() implies bd.0 < #[trigger] k2[j] < bd.1 by {
        if j < pi {
            assert(k2[j] == ks[j]);
        } else if j > pi {
            assert(k2[j] == ks[j - 1]);
        }
    }
    assert forall|j: int, l: int| 0 <= j < l < k2.len() implies #[trigger] k2[j] < #[trigger] k2[l] by {
        if l < pi {
            assert(k2[j] == ks[j] && k2[l] == ks[l]);
        } else if l == pi {
            assert(k2[j] == ks[j]);
            if j < pi - 1 {
                assert(ks[j] < ks[pi - 1]);
            }
        } else if j < pi {
            assert(k2[j] == ks[j] && k2[l] == ks[l - 1]);
            if l - 1 > pi {
                assert(ks[pi] < ks[l - 1]);
            }
            assert(ks[j] < med) by {
                if j < pi - 1 {
                    assert(ks[j] < ks[pi - 1]);
                }
            }
        } else if j == pi {
            assert(k2[l] == ks[l - 1]);
            if l - 1 > pi {
                assert(ks[pi] < ks[l - 1]);
            }
        } else {
            assert(k2[j] == ks[j - 1] && k2[l] == ks[l - 1]);
        }
    }
}

/// A pending split completed by adding `med` and `r` to `x`'s parent,
/// which has room, leaves the keys in order.
#[verifier::rlimit(50)]
pub proof fn lemma_pending_insert(
    m1: PagerModel,
    m2: PagerModel,
    root: int,
    nodes: Set<int>,
    ps: Seq<int>,
    b: Map<int, (int, int)>,
    par: Map<int, int>,
    x: int,
    r: int,
    med: i64,
    pp: int,
    pi: int,
    pos: int,
)
    requires
        pending(m1, root, nodes, ps, b, par, x, r, med, pp, pi),
        x != root,
        0 <= r <= u32::MAX,
        !ps.contains(pp),
        forall|p: int| p != pp ==> #[trigger] m2.page(p) == m1.page(p),
        internal_wf(m2.page(pp)),
        crate::btree::is_key_pos(internal_keys(m1.page(pp)), med, pos),
        internal_keys(m2.page(pp)) == internal_keys(m1.page(pp)).insert(pos, med),
        internal_children(m2.page(pp)) == internal_children(m1.page(pp)).insert(pos + 1, r as u32),
    ensures
        keyed(m2, root, nodes, ps, b, par.insert(r, pp)),
{
    let pg = m1.page(pp);
    let ks = internal_keys(pg);
    let cs = internal_children(pg);
    let par2 = par.insert(r, pp);
    assert(node_keyed(pg, pp, b, par, pi));
    assert(seps_ok(ks, b[pp]) && cs.no_duplicates()) by {
        reveal(node_keyed);
    }
    lemma_key_pos_at_child(ks, b[pp], pi, med, pos);
    let ks2 = ks.insert(pi, med);
    let cs2 = cs.insert(pi + 1, r as u32);
    // The parent.
    assert(node_keyed(m2.page(pp), pp, b, par2, -1)) by {
        reveal(node_keyed);
        lemma_insert_child_bounds(ks, b[pp], pi, med, 0);
        assert(!cs.contains(r as u32)) by {
            if cs.contains(r as u32) {
                let i = choose|i: int| 0 <= i < cs.len() && cs[i] == r as u32;
                assert(par.dom().contains(cs[i] as int));
            }
        }
        assert(cs2.no_duplicates()) by {
            assert forall|a: int, c: int| 0 <= a < c < cs2.len() implies cs2[a] != cs2[c] by {
                if c == pi + 1 {
                    assert(cs2[a] == cs[a]);
                } else if a == pi + 1 {
                    assert(cs2[c] == cs[c - 1]);
                } else {
                    let a0 = if a < pi + 1 { a } else { a - 1 };
                    let c0 = if c < pi + 1 { c } else { c - 1 };
                    assert(cs2[a] == cs[a0] && cs2[c] == cs[c0]);
                }
            }
        }
        assert forall|i: int| 0 <= i < cs2.len() implies par2.dom().contains(#[trigger] cs2[i] as int) && par2[cs2[i] as int]
            == pp && b.dom().contains(cs2[i] as int) by {
            if i < pi + 1 {
                assert(cs2[i] == cs[i]);
                assert(cs[i] as int != r);
            } else if i > pi + 1 {
                assert(cs2[i] == cs[i - 1]);
                assert(cs[i - 1] as int != r);
            }
        }
        assert forall|i: int| 0 <= i < cs2.len() && i != -1 implies b[#[trigger] cs2[i] as int] == child_bounds(
            ks2,
            b[pp],
            i,
        ) by {
            lemma_insert_child_bounds(ks, b[pp], pi, med, i);
            if i < pi {
                assert(cs2[i] == cs[i]);
            } else if i == pi {
                assert(cs2[i] == cs[pi]);
            } else if i > pi + 1 {
                assert(cs2[i] == cs[i - 1]);
            }
        }
    }
    // The other internal nodes.
    assert forall|q: int| nodes.contains(q) && internal_wf(#[trigger] m2.page(q)) implies node_keyed(
        m2.page(q),
        q,
        b,
        par2,
        if q == -1 { -1 } else { -1 },
    ) by {
        if q != pp {
            assert(m2.page(q) == m1.page(q));
            assert(node_keyed(m1.page(q), q, b, par, -1));
            reveal(node_keyed);
            let qc = internal_children(m1.page(q));
            assert forall|i: int| 0 <= i < qc.len() implies par2.dom().contains(#[trigger] qc[i] as int) && par2[qc[i] as int]
                == q && b.dom().contains(qc[i] as int) by {
                assert(par.dom().contains(qc[i] as int));
            }
        }
    }
    assert forall|j: int| 0 <= j < ps.len() implies m2.page(#[trigger] ps[j]) == m1.page(ps[j]) by {
        assert(ps[j] != pp);
    }
    lemma_chain_keyed_frame(m1, m2, ps, b);
}

/// A child's bounds are narrower than its node's.
proof fn lemma_child_narrower(ks: Seq<i64>, bd: (int, int), i: int)
    requires
        seps_ok(ks, bd),
        0 <= i <= ks.len(),
    ensures
        child_bounds(ks, bd, i) != bd,
        bd.0 <= child_bounds(ks, bd, i).0,
        child_bounds(ks, bd, i).1 <= bd.1,
{
    if i > 0 {
        assert(bd.0 < ks[i - 1]);
    } else {
        assert(ks[0] < bd.1);
    }
    if i < ks.len() {
        assert(ks[i] < bd.1);
    }
}

/// The separators of node page `pg` with `med` added at `pi`.
pub open spec fn keys_with(pg: Seq<u8>, pi: int, med: i64) -> Seq<i64> {
    internal_keys(pg).insert(pi, med)
}

/// The children of node page `pg` with `r` added right after child `pi`.
pub open spec fn children_with(pg: Seq<u8>, pi: int, r: int) -> Seq<u32> {
    internal_children(pg).insert(pi + 1, r as u32)
}

/// The parent of a pending split, with the separator and the new child
/// added: ordered separators, distinct children, each child with the bounds
/// they give it and, but for `r`, with the parent as parent.
proof fn lemma_full_view(
    pg: Seq<u8>,
    pp: int,
    b: Map<int, (int, int)>,
    par: Map<int, int>,
    x: int,
    r: int,
    med: i64,
    pi: int,
)
    requires
        internal_wf(pg),
        node_keyed(pg, pp, b, par, pi),
        0 <= pi < internal_children(pg).len(),
        internal_children(pg)[pi] as int == x,
        b[x] == (child_bounds(internal_keys(pg), b[pp], pi).0, med as int),
        b[r] == (med as int, child_bounds(internal_keys(pg), b[pp], pi).1),
        child_bounds(internal_keys(pg), b[pp], pi).0 < med < child_bounds(internal_keys(pg), b[pp], pi).1,
        !par.dom().contains(r),
        b.dom().contains(r),
        b.dom().contains(x),
        0 <= r <= u32::MAX,
    ensures
        seps_ok(keys_with(pg, pi, med), b[pp]),
        children_with(pg, pi, r).no_duplicates(),
        children_with(pg, pi, r).len() == keys_with(pg, pi, med).len() + 1,
        forall|i: int|
            0 <= i < children_with(pg, pi, r).len() ==> b.dom().contains(#[trigger] children_with(pg, pi, r)[i] as int)
                && b[children_with(pg, pi, r)[i] as int] == child_bounds(keys_with(pg, pi, med), b[pp], i) && (
            children_with(pg, pi, r)[i] as int == r || par.dom().contains(children_with(pg, pi, r)[i] as int)
                && par[children_with(pg, pi, r)[i] as int] == pp),
{
    reveal(node_keyed);
    let ks = internal_keys(pg);
    let cs = internal_children(pg);
    let ks2 = keys_with(pg, pi, med);
    let cs2 = children_with(pg, pi, r);
    lemma_insert_child_bounds(ks, b[pp], pi, med, 0);
    assert(!cs.contains(r as u32)) by {
        if cs.contains(r as u32) {
            let i = choose|i: int| 0 <= i < cs.len() && cs[i] == r as u32;
            assert(par.dom().contains(cs[i] as int));
        }
    }
    assert forall|a: int, c: int| 0 <= a < c < cs2.len() implies cs2[a] != cs2[c] by {
        if c == pi + 1 {
            assert(cs2[a] == cs[a]);
        } else if a == pi + 1 {
            assert(cs2[c] == cs[c - 1]);
        } else {
            let a0 = if a < pi + 1 { a } else { a - 1 };
            let c0 = if c < pi + 1 { c } else { c - 1 };
            assert(cs2[a] == cs[a0] && cs2[c] == cs[c0]);
        }
    }
    assert forall|i: int| 0 <= i < cs2.len() implies b.dom().contains(#[trigger] cs2[i] as int) && b[cs2[i] as int]
        == child_bounds(ks2, b[pp], i) && (cs2[i] as int == r || par.dom().contains(cs2[i] as int) && par[cs2[i] as int]
        == pp) by {
        lemma_insert_child_bounds(ks, b[pp], pi, med, i);
        if i < pi {
            assert(cs2[i] == cs[i]);
        } else if i == pi {
            assert(cs2[i] == cs[pi]);
        } else if i > pi + 1 {
            assert(cs2[i] == cs[i - 1]);
        }
    }
}

/// What the two halves of a split internal node are built from: ordered
/// separators `ks2` within `bd` over distinct children `cs2`, each child with
/// the bounds they give it under `b2`.
pub open spec fn split_source(ks2: Seq<i64>, cs2: Seq<u32>, bd: (int, int), b2: Map<int, (int, int)>, mid: int) -> bool {
    &&& seps_ok(ks2, bd)
    &&& cs2.no_duplicates()
    &&& cs2.len() == ks2.len() + 1
    &&& 1 <= mid < ks2.len() - 1
    &&& forall|i: int|
        0 <= i < cs2.len() ==> b2.dom().contains(#[trigger] cs2[i] as int) && b2[cs2[i] as int] == child_bounds(
            ks2,
            bd,
            i,
        )
}

/// The left half of a split internal node: the separators before `mid`
/// over the children up to `mid`, bounded above by the middle separator.
proof fn lemma_left_node_keyed(
    page: Seq<u8>,
    q: int,
    b2: Map<int, (int, int)>,
    par2: Map<int, int>,
    ks2: Seq<i64>,
    cs2: Seq<u32>,
    bd: (int, int),
    mid: int,
)
    requires
        split_source(ks2, cs2, bd, b2, mid),
        internal_keys(page) == ks2.take(mid),
        internal_children(page) == cs2.take(mid + 1),
        b2.dom().contains(q),
        b2[q] == (bd.0, ks2[mid] as int),
        forall|i: int| 0 <= i <= mid ==> par2.dom().contains(#[trigger] cs2[i] as int) && par2[cs2[i] as int] == q,
    ensures
        node_keyed(page, q, b2, par2, -1),
{
    reveal(node_keyed);
    let ks = internal_keys(page);
    let cs = internal_children(page);
    assert forall|j: int| 0 <= j < ks.len() implies b2[q].0 < #[trigger] ks[j] < b2[q].1 by {
        assert(ks[j] == ks2[j]);
        assert(ks2[j] < ks2[mid]);
    }
    assert forall|j: int, l: int| 0 <= j < l < ks.len() implies #[trigger] ks[j] < #[trigger] ks[l] by {
        assert(ks[j] == ks2[j] && ks[l] == ks2[l]);
    }
    assert forall|a: int, c: int| 0 <= a < c < cs.len() implies cs[a] != cs[c] by {
        assert(cs[a] == cs2[a] && cs[c] == cs2[c]);
    }
    assert forall|i: int| 0 <= i < cs.len() implies par2.dom().contains(#[trigger] cs[i] as int) && par2[cs[i] as int]
        == q && b2.dom().contains(cs[i] as int) by {
        assert(cs[i] == cs2[i]);
    }
    assert forall|i: int| 0 <= i < cs.len() && i != -1 implies b2[#[trigger] cs[i] as int] == child_bounds(ks, b2[q], i) by {
        assert(cs[i] == cs2[i]);
        if i > 0 {
            assert(ks[i - 1] == ks2[i - 1]);
        }
        if i < ks.len() {
            assert(ks[i] == ks2[i]);
        }
    }
}

/// The right half of a split internal node: the separators after `mid`
/// over the children after `mid`, bounded below by the middle separator.
proof fn lemma_right_node_keyed(
    page: Seq<u8>,
    q: int,
    b2: Map<int, (int, int)>,
    par2: Map<int, int>,
    ks2: Seq<i64>,
    cs2: Seq<u32>,
    bd: (int, int),
    mid: int,
)
    requires
        split_source(ks2, cs2, bd, b2, mid),
        internal_keys(page) == ks2.skip(mid + 1),
        internal_children(page) == cs2.skip(mid + 1),
        b2.dom().contains(q),
        b2[q] == (ks2[mid] as int, bd.1),
        forall|i: int|
            mid + 1 <= i < cs2.len() ==> par2.dom().contains(#[trigger] cs2[i] as int) && par2[cs2[i] as int] == q,
    ensures
        node_keyed(page, q, b2, par2, -1),
{
    reveal(node_keyed);
    let ks = internal_keys(page);
    let cs = internal_children(page);
    let d = mid + 1;
    assert forall|j: int| 0 <= j < ks.len() implies b2[q].0 < #[trigger] ks[j] < b2[q].1 by {
        assert(ks[j] == ks2[j + d]);
        assert(ks2[mid] < ks2[j + d]);
    }
    assert forall|j: int, l: int| 0 <= j < l < ks.len() implies #[trigger] ks[j] < #[trigger] ks[l] by {
        assert(ks[j] == ks2[j + d] && ks[l] == ks2[l + d]);
    }
    assert forall|a: int, c: int| 0 <= a < c < cs.len() implies cs[a] != cs[c] by {
        assert(cs[a] == cs2[a + d] && cs[c] == cs2[c + d]);
    }
    assert forall|i: int| 0 <= i < cs.len() implies par2.dom().contains(#[trigger] cs[i] as int) && par2[cs[i] as int]
        == q && b2.dom().contains(cs[i] as int) by {
        assert(cs[i] == cs2[i + d]);
    }
    assert forall|i: int| 0 <= i < cs.len() && i != -1 implies b2[#[trigger] cs[i] as int] == child_bounds(ks, b2[q], i) by {
        assert(cs[i] == cs2[i + d]);
        if i > 0 {
            assert(ks[i - 1] == ks2[i - 1 + d]);
        }
        if i < ks.len() {
            assert(ks[i] == ks2[i + d]);
        }
    }
}

/// The children of a split node that move to the new node, as page numbers.
pub open spec fn moved_nodes(moved: Seq<u32>) -> Seq<int> {
    moved.map_values(|v: u32| v as int)
}

/// Parents after a pending split of `pp`'s child completes with `pp` split
/// in turn: `r` joins `pp`'s children, and the children in `moved` go to
/// the new node `np`.
pub open spec fn split_parents(par: Map<int, int>, r: int, pp: int, moved: Seq<u32>, np: int) -> Map<int, int> {
    Map::new(
        |c: int| par.dom().contains(c) || c == r,
        |c: int|
            if moved_nodes(moved).contains(c) {
                np
            } else if c == r {
                pp
            } else {
                par[c]
            },
    )
}

/// Internal nodes other than `pp` and `np` stay keyed when the bounds move
/// only at `pp` (child `ppi` of `ppp`) and `np`, which is no child, and the
/// parents change only for `r`, which is no child, and for children of `pp`.
proof fn lemma_rebound_others(
    m1: PagerModel,
    m2: PagerModel,
    root: int,
    nodes: Set<int>,
    nodes2: Set<int>,
    b: Map<int, (int, int)>,
    b2: Map<int, (int, int)>,
    par: Map<int, int>,
    par2: Map<int, int>,
    pp: int,
    np: int,
    r: int,
    ppp: int,
    ppi: int,
)
    requires
        forall|q: int| nodes.contains(q) && internal_wf(#[trigger] m1.page(q)) && q != pp ==> node_keyed(m1.page(q), q, b, par, -1),
        !par.dom().contains(root),
        !par.dom().contains(np),
        !par.dom().contains(r),
        pp == root ==> ppp == -1,
        pp != root ==> par.dom().contains(pp) && par[pp] == ppp && 0 <= ppi < internal_children(m1.page(ppp)).len()
            && internal_children(m1.page(ppp))[ppi] as int == pp,
        forall|q: int|
            nodes2.contains(q) && internal_wf(#[trigger] m2.page(q)) && q != pp && q != np ==> m2.page(q) == m1.page(q)
                && nodes.contains(q),
        forall|c: int| c != pp && c != np ==> #[trigger] b2[c] == b[c],
        forall|c: int| b.dom().contains(c) ==> #[trigger] b2.dom().contains(c),
        forall|c: int|
            par.dom().contains(c) && par[c] != pp ==> #[trigger] par2.dom().contains(c) && par2[c] == par[c],
    ensures
        forall|q: int|
            nodes2.contains(q) && internal_wf(#[trigger] m2.page(q)) && q != pp && q != np ==> node_keyed(
                m2.page(q),
                q,
                b2,
                par2,
                if q == ppp { ppi } else { -1 },
            ),
{
    reveal(node_keyed);
    assert forall|q: int| nodes2.contains(q) && internal_wf(#[trigger] m2.page(q)) && q != pp && q != np implies node_keyed(
        m2.page(q),
        q,
        b2,
        par2,
        if q == ppp { ppi } else { -1 },
    ) by {
        assert(m2.page(q) == m1.page(q));
        assert(node_keyed(m1.page(q), q, b, par, -1));
        let ks = internal_keys(m1.page(q));
        let cs = internal_children(m1.page(q));
        let skip = if q == ppp { ppi } else { -1 };
        assert(b2[q] == b[q]);
        assert forall|i: int| 0 <= i < cs.len() implies par2.dom().contains(#[trigger] cs[i] as int) && par2[cs[i] as int]
            == q && b2.dom().contains(cs[i] as int) by {
            assert(par.dom().contains(cs[i] as int) && par[cs[i] as int] == q);
        }
        assert forall|i: int| 0 <= i < cs.len() && i != skip implies b2[#[trigger] cs[i] as int] == child_bounds(
            ks,
            b2[q],
            i,
        ) by {
            assert(par.dom().contains(cs[i] as int) && par[cs[i] as int] == q);
            if cs[i] as int == pp {
                assert(pp != root);
                assert(q == ppp);
                assert(cs[ppi] as int == pp);
            }
        }
    }
}

/// A pending split completed at a full parent that splits in turn (the
/// separators and children with `med` and `r` added, divided at `mid`; the
/// part after it to the fresh node `np`) leaves the insert pending one
/// level up.
#[verifier::rlimit(100)]
pub proof fn lemma_pending_split(
    m1: PagerModel,
    m2: PagerModel,
    root: int,
    nodes: Set<int>,
    ps: Seq<int>,
    b: Map<int, (int, int)>,
    par: Map<int, int>,
    x: int,
    r: int,
    med: i64,
    pp: int,
    pi: int,
    pos: int,
    np: int,
    mid: int,
    ppp: int,
    ppi: int,
)
    requires
        pending(m1, root, nodes, ps, b, par, x, r, med, pp, pi),
        x != root,
        0 <= r <= u32::MAX,
        nodes.contains(root),
        ps.len() > 0,
        !ps.contains(pp),
        !ps.contains(np),
        !nodes.contains(np),
        forall|p: int| p != pp && p != np ==> #[trigger] m2.page(p) == m1.page(p),
        internal_wf(m2.page(pp)),
        internal_wf(m2.page(np)),
        crate::btree::is_key_pos(internal_keys(m1.page(pp)), med, pos),
        1 <= mid < internal_keys(m1.page(pp)).len(),
        internal_keys(m2.page(pp)) == keys_with(m1.page(pp), pos, med).take(mid),
        internal_children(m2.page(pp)) == children_with(m1.page(pp), pos, r).take(mid + 1),
        internal_keys(m2.page(np)) == keys_with(m1.page(pp), pos, med).skip(mid + 1),
        internal_children(m2.page(np)) == children_with(m1.page(pp), pos, r).skip(mid + 1),
        parent_of(m1, root, par, pp, ppp, ppi),
        pp != root ==> nodes.contains(ppp) && internal_wf(m1.page(ppp)),
    ensures
        ({
            let med2 = keys_with(m1.page(pp), pos, med)[mid];
            let moved = children_with(m1.page(pp), pos, r).skip(mid + 1);
            pending(
                m2,
                root,
                nodes.insert(np),
                ps,
                split_bounds(b, pp, np, med2 as int),
                split_parents(par, r, pp, moved, np),
                pp,
                np,
                med2,
                ppp,
                ppi,
            )
        }),
        forall|c: int|
            par.dom().contains(c) && par[c] != pp ==> #[trigger] split_parents(
                par,
                r,
                pp,
                children_with(m1.page(pp), pos, r).skip(mid + 1),
                np,
            ).dom().contains(c) && split_parents(par, r, pp, children_with(m1.page(pp), pos, r).skip(mid + 1), np)[c]
                == par[c],
{
    let pg = m1.page(pp);
    let ks = internal_keys(pg);
    let bd = b[pp];
    assert(node_keyed(pg, pp, b, par, pi));
    assert(seps_ok(ks, bd)) by {
        reveal(node_keyed);
    }
    lemma_key_pos_at_child(ks, bd, pi, med, pos);
    lemma_full_view(pg, pp, b, par, x, r, med, pi);
    let ks2 = keys_with(pg, pi, med);
    let cs2 = children_with(pg, pi, r);
    let med2 = ks2[mid];
    let moved = cs2.skip(mid + 1);
    let b2 = split_bounds(b, pp, np, med2 as int);
    let par2 = split_parents(par, r, pp, moved, np);
    let nodes2 = nodes.insert(np);
    assert(!par.dom().contains(np));
    assert(np != r && np != pp && np != root);
    // The children of the full view are neither `pp` nor `np`.
    assert forall|i: int| 0 <= i < cs2.len() implies #[trigger] cs2[i] as int != pp && cs2[i] as int != np by {
        lemma_child_narrower(ks2, bd, i);
        if cs2[i] as int != r {
            assert(par.dom().contains(cs2[i] as int));
        }
    }
    assert(split_source(ks2, cs2, bd, b2, mid)) by {
        assert forall|i: int| 0 <= i < cs2.len() implies b2.dom().contains(#[trigger] cs2[i] as int) && b2[cs2[i] as int]
            == child_bounds(ks2, bd, i) by {
            assert(cs2[i] as int != pp && cs2[i] as int != np);
        }
    }
    // Which children moved.
    assert forall|i: int| 0 <= i <= mid implies par2.dom().contains(#[trigger] cs2[i] as int) && par2[cs2[i] as int] == pp by {
        if moved_nodes(moved).contains(cs2[i] as int) {
            let t = choose|t: int| 0 <= t < moved_nodes(moved).len() && moved_nodes(moved)[t] == cs2[i] as int;
            assert(moved[t] == cs2[t + mid + 1]);
        }
    }
    assert forall|i: int| mid + 1 <= i < cs2.len() implies par2.dom().contains(#[trigger] cs2[i] as int) && par2[cs2[i] as int]
        == np by {
        assert(moved_nodes(moved)[i - mid - 1] == cs2[i] as int);
    }
    lemma_left_node_keyed(m2.page(pp), pp, b2, par2, ks2, cs2, bd, mid);
    lemma_right_node_keyed(m2.page(np), np, b2, par2, ks2, cs2, bd, mid);
    // `pp`'s own parent is another node.
    if pp != root {
        assert(ppp != pp) by {
            if ppp == pp {
                reveal(node_keyed);
                assert(internal_children(pg)[ppi] as int == pp);
                assert(ppi != pi);
                lemma_child_narrower(ks, bd, ppi);
            }
        }
    }
    // The other nodes.
    assert forall|c: int| par.dom().contains(c) && par[c] != pp implies #[trigger] par2.dom().contains(c) && par2[c]
        == par[c] by {
        if moved_nodes(moved).contains(c) {
            let t = choose|t: int| 0 <= t < moved_nodes(moved).len() && moved_nodes(moved)[t] == c;
            assert(cs2[t + mid + 1] as int == c);
        }
    }
    assert forall|q: int| nodes2.contains(q) && internal_wf(#[trigger] m2.page(q)) && q != pp && q != np implies m2.page(q)
        == m1.page(q) && nodes.contains(q) by {}
    assert forall|q: int| nodes.contains(q) && internal_wf(#[trigger] m1.page(q)) && q != pp implies node_keyed(
        m1.page(q),
        q,
        b,
        par,
        -1,
    ) by {}
    lemma_rebound_others(m1, m2, root, nodes, nodes2, b, b2, par, par2, pp, np, r, ppp, ppi);
    assert forall|q: int| nodes2.contains(q) && internal_wf(#[trigger] m2.page(q)) implies node_keyed(
        m2.page(q),
        q,
        b2,
        par2,
        if q == ppp { ppi } else { -1 },
    ) by {
        if q == pp || q == np {
            if pp != root {
                assert(q != ppp);
            }
        }
    }
    // The chain.
    assert forall|j: int| 0 <= j < ps.len() implies m2.page(#[trigger] ps[j]) == m1.page(ps[j]) && b2.dom().contains(ps[j])
        && b2[ps[j]] == b[ps[j]] by {
        assert(ps[j] != pp && ps[j] != np);
        reveal(chain_keyed);
    }
    lemma_chain_keyed_frame2(m1, m2, ps, b, b2);
    assert(ps.last() != pp && ps.last() != np) by {
        let lj = ps.len() - 1;
        assert(ps[lj] == ps.last());
        assert(ps.contains(ps[lj]));
    }
    if pp != root {
        let qg = m1.page(ppp);
        assert(ppp != np);
        assert(m2.page(ppp) == qg);
        assert(node_keyed(qg, ppp, b, par, -1));
        assert(b[pp] == child_bounds(internal_keys(qg), b[ppp], ppi)) by {
            reveal(node_keyed);
        }
        assert(b2[ppp] == b[ppp]);
    }
    assert(ks2[0] < med2 < ks2[ks2.len() - 1]);
}

/// A pending split of the root completed by a fresh root `nr` over the old
/// root and `r`, separated by `med`, leaves the keys in order.
#[verifier::rlimit(60)]
pub proof fn lemma_pending_root(
    m1: PagerModel,
    m2: PagerModel,
    root: int,
    nodes: Set<int>,
    ps: Seq<int>,
    b: Map<int, (int, int)>,
    par: Map<int, int>,
    r: int,
    med: i64,
    pi: int,
    nr: int,
)
    requires
        pending(m1, root, nodes, ps, b, par, root, r, med, -1, pi),
        0 <= r <= u32::MAX,
        0 <= root <= u32::MAX,
        ps.len() > 0,
        !nodes.contains(nr),
        !ps.contains(nr),
        forall|p: int| p != nr ==> #[trigger] m2.page(p) == m1.page(p),
        internal_wf(m2.page(nr)),
        internal_keys(m2.page(nr)) == seq![med],
        internal_children(m2.page(nr)) == seq![root as u32, r as u32],
    ensures
        keyed(
            m2,
            nr,
            nodes.insert(nr),
            ps,
            b.insert(nr, (key_floor(), key_ceil())),
            par.insert(root, nr).insert(r, nr),
        ),
{
    let b2 = b.insert(nr, (key_floor(), key_ceil()));
    let par2 = par.insert(root, nr).insert(r, nr);
    let nodes2 = nodes.insert(nr);
    assert(!par.dom().contains(nr));
    assert(nr != root && nr != r);
    // The new root.
    assert(node_keyed(m2.page(nr), nr, b2, par2, -1)) by {
        reveal(node_keyed);
        let ks = internal_keys(m2.page(nr));
        let cs = internal_children(m2.page(nr));
        assert(seps_ok(ks, b2[nr]));
        assert(cs.no_duplicates()) by {
            assert(cs[0] != cs[1]);
        }
        assert forall|i: int| 0 <= i < cs.len() implies par2.dom().contains(#[trigger] cs[i] as int) && par2[cs[i] as int]
            == nr && b2.dom().contains(cs[i] as int) by {
            if i == 0 {
                assert(cs[0] as int == root);
            } else {
                assert(cs[1] as int == r);
            }
        }
        assert forall|i: int| 0 <= i < cs.len() && i != -1 implies b2[#[trigger] cs[i] as int] == child_bounds(
            ks,
            b2[nr],
            i,
        ) by {
            if i == 0 {
                assert(cs[0] as int == root);
            } else {
                assert(cs[1] as int == r);
            }
        }
    }
    // The other nodes.
    assert forall|q: int| nodes2.contains(q) && internal_wf(#[trigger] m2.page(q)) implies node_keyed(
        m2.page(q),
        q,
        b2,
        par2,
        if q == -1 { -1 } else { -1 },
    ) by {
        if q != nr {
            assert(m2.page(q) == m1.page(q));
            assert(node_keyed(m1.page(q), q, b, par, -1));
            reveal(node_keyed);
            let qc = internal_children(m1.page(q));
            assert(b2[q] == b[q]);
            assert forall|i: int| 0 <= i < qc.len() implies par2.dom().contains(#[trigger] qc[i] as int) && par2[qc[i] as int]
                == q && b2.dom().contains(qc[i] as int) && b2[qc[i] as int] == b[qc[i] as int] by {
                assert(par.dom().contains(qc[i] as int));
            }
        }
    }
    // The chain.
    assert forall|j: int| 0 <= j < ps.len() implies m2.page(#[trigger] ps[j]) == m1.page(ps[j]) && b2.dom().contains(ps[j])
        && b2[ps[j]] == b[ps[j]] by {
        assert(ps[j] != nr);
        reveal(chain_keyed);
    }
    lemma_chain_keyed_frame2(m1, m2, ps, b, b2);
    assert(ps.last() != nr) by {
        let lj = ps.len() - 1;
        assert(ps[lj] == ps.last());
        assert(ps.contains(ps[lj]));
    }
}

/// The cells a scan of the tree rooted at `root` reads, leaf after leaf
/// along the chain from the leftmost leaf.
pub open spec fn scan_cells(m: PagerModel, root: int) -> Option<Seq<(i64, Seq<u8>)>> {
    match leftmost_leaf(m, root, MAX_PAGES as nat) {
        Some(l) => match chain_pages(m, l, MAX_PAGES as nat) {
            Some(ps) => Some(cells_of(m, ps)),
            None => None,
        },
        None => None,
    }
}

/// The tree at `root` is a single leaf, the last of its chain, whose cells
/// are in key order (equal keys side by side).
pub open spec fn one_leaf_in_order(m: PagerModel, root: int) -> bool {
    &&& 0 <= root < MAX_PAGES
    &&& m.page(root)[0] == NODE_TYPE_LEAF
    &&& leaf_wf(m.page(root))
    &&& leaf_next(m.page(root)) == 0
    &&& cells_in_key_order(leaf_cells(m.page(root)))
}

/// The scan of a one-leaf tree reads that leaf's cells, so it reads them in
/// key order.
pub proof fn lemma_one_leaf_scan(m: PagerModel, root: int)
    requires
        one_leaf_in_order(m, root),
    ensures
        scan_cells(m, root) == Some(leaf_cells(m.page(root))),
        cells_in_key_order(scan_cells(m, root).unwrap()),
{
    assert(leftmost_leaf(m, root, MAX_PAGES as nat) == Some(root));
    assert(chain_pages(m, root, MAX_PAGES as nat) == Some(seq![root]));
    let e = seq![root].drop_first();
    assert(e.len() == 0);
    assert(cells_of(m, e) == Seq::<(i64, Seq<u8>)>::empty());
    assert(seq![root][0] == root);
    assert(cells_of(m, seq![root]) =~= leaf_cells(m.page(root)));
}

/// The tree rooted at `root` is sound and its keys are in order.
pub open spec fn sorted_tree(m: PagerModel, root: int) -> bool {
    exists|nodes: Set<int>, ps: Seq<int>, b: Map<int, (int, int)>, par: Map<int, int>|
        shape(m, root, nodes, ps) && keyed(m, root, nodes, ps, b, par)
}

/// The tree's scan reads no cell with key `key`.
pub open spec fn key_absent(m: PagerModel, root: int, key: i64) -> bool {
    &&& scan_cells(m, root) is Some
    &&& forall|g: int| 0 <= g < scan_cells(m, root).unwrap().len() ==> (#[trigger] scan_cells(m, root).unwrap()[g]).0 != key
}

proof fn lemma_cells_rows(m: PagerModel, ps: Seq<int>)
    ensures
        cell_rows(cells_of(m, ps)) == rows_of(m, ps),
    decreases ps.len(),
{
    if ps.len() > 0 {
        lemma_cells_rows(m, ps.drop_first());
        let c0 = leaf_cells(m.page(ps[0]));
        let cr = cells_of(m, ps.drop_first());
        assert(cell_rows(c0 + cr) =~= cell_rows(c0) + cell_rows(cr));
    } else {
        assert(cell_rows(cells_of(m, ps)) =~= rows_of(m, ps));
    }
}

/// What a scan of a sound tree reads, as cells and as rows.
pub proof fn lemma_scan_cells_shape(m: PagerModel, root: int, nodes: Set<int>, ps: Seq<int>)
    requires
        crate::pager::pager_wf(m),
        shape(m, root, nodes, ps),
    ensures
        scan_cells(m, root) == Some(cells_of(m, ps)),
        scan_rows(m, root) == Some(cell_rows(cells_of(m, ps))),
{
    lemma_leftmost_fuel(m, root, m.file_pages, MAX_PAGES as nat);
    lemma_chain_fuel(m, ps[0], m.file_pages, MAX_PAGES as nat);
    crate::shape::lemma_scan_shape(m, root, nodes, ps);
    lemma_cells_rows(m, ps);
}

/// A scan of a tree whose keys are in order reads its cells in strictly
/// increasing key order, and reads the rows of those cells.
pub proof fn lemma_scan_in_key_order(m: PagerModel, root: int)
    requires
        crate::pager::pager_wf(m),
        sorted_tree(m, root),
    ensures
        scan_cells(m, root) is Some,
        keys_increasing(scan_cells(m, root).unwrap()),
        scan_rows(m, root) == Some(cell_rows(scan_cells(m, root).unwrap())),
{
    let (nodes, ps, b, par) = choose|nodes: Set<int>, ps: Seq<int>, b: Map<int, (int, int)>, par: Map<int, int>|
        shape(m, root, nodes, ps) && keyed(m, root, nodes, ps, b, par);
    lemma_scan_cells_shape(m, root, nodes, ps);
    lemma_chain_sorted(m, ps, b);
}

proof fn lemma_cells_concat(m: PagerModel, a: Seq<int>, c: Seq<int>)
    ensures
        cells_of(m, a + c) == cells_of(m, a) + cells_of(m, c),
    decreases a.len(),
{
    if a.len() == 0 {
        assert(a + c =~= c);
        assert(cells_of(m, a) + cells_of(m, c) =~= cells_of(m, c));
    } else {
        assert((a + c).drop_first() =~= a.drop_first() + c);
        assert((a + c)[0] == a[0]);
        lemma_cells_concat(m, a.drop_first(), c);
        assert(cells_of(m, a + c) =~= leaf_cells(m.page(a[0])) + (cells_of(m, a.drop_first()) + cells_of(m, c)));
    }
}

/// A key no cell of a keyed chain holds is in no leaf of it, and is not the
/// upper bound of any leaf.
pub proof fn lemma_key_absent_leaf(m: PagerModel, ps: Seq<int>, b: Map<int, (int, int)>, j: int, key: i64)
    requires
        chain_keyed(m, ps, b),
        b[ps.last()].1 == key_ceil(),
        0 <= j < ps.len(),
        forall|g: int| 0 <= g < cells_of(m, ps).len() ==> (#[trigger] cells_of(m, ps)[g]).0 != key,
    ensures
        forall|i: int| 0 <= i < leaf_cells(m.page(ps[j])).len() ==> (#[trigger] leaf_cells(m.page(ps[j]))[i]).0 != key,
        b[ps[j]].1 != key,
{
    reveal(chain_keyed);
    let pre = ps.take(j);
    let post = ps.skip(j + 1);
    assert(ps =~= pre + (seq![ps[j]] + post));
    lemma_cells_concat(m, pre, seq![ps[j]] + post);
    lemma_cells_concat(m, seq![ps[j]], post);
    assert(seq![ps[j]].drop_first() =~= Seq::<int>::empty());
    assert(cells_of(m, seq![ps[j]]) =~= leaf_cells(m.page(ps[j])) + cells_of(m, Seq::<int>::empty()));
    let a = cells_of(m, pre);
    let lc = leaf_cells(m.page(ps[j]));
    let c = cells_of(m, post);
    assert(cells_of(m, ps) =~= a + (lc + c));
    assert forall|i: int| 0 <= i < lc.len() implies (#[trigger] lc[i]).0 != key by {
        assert(cells_of(m, ps)[a.len() + i] == lc[i]);
    }
    if j + 1 < ps.len() {
        let nx = ps[j + 1];
        assert(post[0] == nx);
        assert(cells_of(m, post) == leaf_cells(m.page(nx)) + cells_of(m, post.drop_first()));
        assert(leaf_cells(m.page(nx)).len() > 0);
        assert(c[0] == leaf_cells(m.page(nx))[0]);
        assert(cells_of(m, ps)[(a.len() + lc.len()) as int] == c[0]);
        assert(b[ps[j]].1 == b[nx].0);
    } else {
        assert(ps.last() == ps[j]);
    }
}

/// A single empty leaf, the whole tree, is keyed.
pub proof fn lemma_new_tree_keyed(m: PagerModel, n: int)
    requires
        crate::btree::leaf_wf(m.page(n)),
        leaf_cells(m.page(n)).len() == 0,
    ensures
        keyed(m, n, set![n], seq![n], map![n => (key_floor(), key_ceil())], Map::<int, int>::empty()),
{
    reveal(chain_keyed);
    let b = map![n => (key_floor(), key_ceil())];
    let ps = seq![n];
    assert(ps.last() == n);
    assert forall|j: int| 0 <= j < ps.len() implies b.dom().contains(#[trigger] ps[j]) && keys_increasing(
        leaf_cells(m.page(ps[j])),
    ) && cells_within(leaf_cells(m.page(ps[j])), b[ps[j]]) && b[ps[j]].0 < b[ps[j]].1 by {
        assert(ps[j] == n);
    }
}

/// The node a descent went to after step `t` of `path`: the next step's
/// node, or `cur` after the last step.
pub open spec fn path_next(path: Seq<(u32, usize)>, cur: int, t: int) -> int {
    if t + 1 < path.len() {
        path[t + 1].0 as int
    } else {
        cur
    }
}

/// A descent from the root to `cur`: each step of `path` (a node and the
/// index of the child it went to) is a parent entry, and the nodes of the
/// path and `cur` are distinct.
pub open spec fn descent_ok(
    m: PagerModel,
    root: int,
    par: Map<int, int>,
    path: Seq<(u32, usize)>,
    cur: int,
) -> bool {
    &&& path.len() == 0 ==> cur == root
    &&& path.len() > 0 ==> path[0].0 as int == root
    &&& forall|t: int|
        0 <= t < path.len() ==> internal_wf(m.page(#[trigger] path[t].0 as int)) && (path[t].1 as int)
            < internal_children(m.page(path[t].0 as int)).len() && internal_children(
            m.page(path[t].0 as int),
        )[path[t].1 as int] as int == path_next(path, cur, t) && par.dom().contains(path_next(path, cur, t))
            && par[path_next(path, cur, t)] == path[t].0 as int
    &&& forall|t1: int, t2: int| 0 <= t1 < t2 < path.len() ==> #[trigger] path[t1].0 != #[trigger] path[t2].0
    &&& forall|t: int| 0 <= t < path.len() ==> #[trigger] path[t].0 as int != cur
}

/// One more step of a descent down a keyed tree, to the child a key within
/// the node's bounds goes to: the key is within the child's bounds.
pub proof fn lemma_descent_step(
    m: PagerModel,
    root: int,
    nodes: Set<int>,
    ps: Seq<int>,
    b: Map<int, (int, int)>,
    par: Map<int, int>,
    path: Seq<(u32, usize)>,
    cur: u32,
    key: i64,
    idx: usize,
    child: u32,
)
    requires
        keyed(m, root, nodes, ps, b, par),
        descent_ok(m, root, par, path, cur as int),
        nodes.contains(cur as int),
        internal_wf(m.page(cur as int)),
        b[cur as int].0 < key <= b[cur as int].1,
        routes_to(internal_keys(m.page(cur as int)), key, idx as int),
        child == internal_children(m.page(cur as int))[idx as int],
    ensures
        descent_ok(m, root, par, path.push((cur, idx)), child as int),
        b.dom().contains(child as int),
        b[child as int].0 < key <= b[child as int].1,
{
    let pg = m.page(cur as int);
    assert(node_keyed(pg, cur as int, b, par, -1));
    reveal(node_keyed);
    let ks = internal_keys(pg);
    lemma_route_step(ks, b[cur as int], key, idx as int);
    let p2 = path.push((cur, idx));
    let c = child as int;
    assert(par.dom().contains(c) && par[c] == cur as int);
    // The child is none of the path's nodes.
    assert forall|t: int| 0 <= t < p2.len() implies #[trigger] p2[t].0 as int != c by {
        if t == path.len() {
            // A node is not its own child: its child's bounds are narrower.
            lemma_child_narrower(ks, b[cur as int], idx as int);
        } else {
            assert(p2[t] == path[t]);
            if path[t].0 as int == c {
                if t == 0 {
                    assert(c == root);
                } else {
                    assert(path_next(path, cur as int, t - 1) == c);
                    assert(par[c] == path[t - 1].0 as int);
                    assert(path[t - 1].0 as int == cur as int);
                }
            }
        }
    }
    assert forall|t: int| 0 <= t < p2.len() implies internal_wf(m.page(#[trigger] p2[t].0 as int)) && (p2[t].1 as int)
        < internal_children(m.page(p2[t].0 as int)).len() && internal_children(m.page(p2[t].0 as int))[p2[t].1 as int]
        as int == path_next(p2, c, t) && par.dom().contains(path_next(p2, c, t)) && par[path_next(p2, c, t)]
        == p2[t].0 as int by {
        if t < path.len() {
            assert(p2[t] == path[t]);
            if t + 1 < path.len() {
                assert(p2[t + 1] == path[t + 1]);
            } else {
                assert(p2[t + 1] == (cur, idx));
            }
        }
    }
    assert forall|t1: int, t2: int| 0 <= t1 < t2 < p2.len() implies #[trigger] p2[t1].0 != #[trigger] p2[t2].0 by {
        assert(p2[t1] == path[t1]);
        if t2 < path.len() {
            assert(p2[t2] == path[t2]);
        }
    }
    if path.len() == 0 {
        assert(p2[0].0 as int == root);
    } else {
        assert(p2[0] == path[0]);
    }
}

/// The unprocessed front of a descent, up to node `path[k]`, stays a
/// descent to it when the pages of its nodes are unchanged and their
/// children keep them as parents.
pub proof fn lemma_descent_prefix(
    m1: PagerModel,
    m2: PagerModel,
    root: int,
    par: Map<int, int>,
    par2: Map<int, int>,
    path: Seq<(u32, usize)>,
    x: int,
    k: int,
)
    requires
        descent_ok(m1, root, par, path, x),
        0 <= k < path.len(),
        forall|t: int| 0 <= t < k ==> m2.page(#[trigger] path[t].0 as int) == m1.page(path[t].0 as int),
        forall|c: int|
            par.dom().contains(c) && par[c] != path[k].0 as int ==> #[trigger] par2.dom().contains(c) && par2[c]
                == par[c],
    ensures
        descent_ok(m2, root, par2, path.take(k), path[k].0 as int),
{
    let p2 = path.take(k);
    let x2 = path[k].0 as int;
    assert forall|t: int| 0 <= t < p2.len() implies internal_wf(m2.page(#[trigger] p2[t].0 as int)) && (p2[t].1 as int)
        < internal_children(m2.page(p2[t].0 as int)).len() && internal_children(m2.page(p2[t].0 as int))[p2[t].1 as int]
        as int == path_next(p2, x2, t) && par2.dom().contains(path_next(p2, x2, t)) && par2[path_next(p2, x2, t)]
        == p2[t].0 as int by {
        assert(p2[t] == path[t]);
        assert(m2.page(path[t].0 as int) == m1.page(path[t].0 as int));
        assert(path_next(p2, x2, t) == path_next(path, x, t)) by {
            if t + 1 < k {
                assert(p2[t + 1] == path[t + 1]);
            }
        }
        assert(path[t].0 != path[k].0);
    }
    assert forall|t1: int, t2: int| 0 <= t1 < t2 < p2.len() implies #[trigger] p2[t1].0 != #[trigger] p2[t2].0 by {
        assert(p2[t1] == path[t1] && p2[t2] == path[t2]);
    }
    assert forall|t: int| 0 <= t < p2.len() implies #[trigger] p2[t].0 as int != x2 by {
        assert(p2[t] == path[t]);
    }
    if k > 0 {
        assert(p2[0] == path[0]);
    }
}

/// The node at level `k` of a descent that ended at `cur`.
pub open spec fn x_of(path: Seq<(u32, usize)>, cur: int, k: int) -> int {
    if k < path.len() {
        path[k].0 as int
    } else {
        cur
    }
}

/// The parent of the node at level `k` of a descent (-1 at the root).
pub open spec fn pp_of(path: Seq<(u32, usize)>, k: int) -> int {
    if k > 0 {
        path[k - 1].0 as int
    } else {
        -1
    }
}

/// The index of the node at level `k` among its parent's children.
pub open spec fn pi_of(path: Seq<(u32, usize)>, k: int) -> int {
    if k > 0 {
        path[k - 1].1 as int
    } else {
        -1
    }
}

/// The node at level `k` of a descent and its parent entry.
pub proof fn lemma_descent_parent(m: PagerModel, root: int, par: Map<int, int>, path: Seq<(u32, usize)>, x: int, k: int)
    requires
        descent_ok(m, root, par, path, x),
        !par.dom().contains(root),
        0 <= k <= path.len(),
    ensures
        parent_of(m, root, par, x_of(path, x, k), pp_of(path, k), pi_of(path, k)),
        k > 0 ==> internal_wf(m.page(pp_of(path, k))),
        x_of(path, x, k) == root <==> k == 0,
{
    if k > 0 {
        let t = k - 1;
        assert(path_next(path, x, t) == x_of(path, x, k));
        assert(internal_wf(m.page(path[t].0 as int)));
        if k < path.len() {
            assert(path[0].0 != path[k].0);
        }
    } else if path.len() > 0 {
        assert(x_of(path, x, 0) == path[0].0 as int);
    }
}

/// A descent stays one when the pages of its nodes are unchanged.
pub proof fn lemma_descent_frame(
    m1: PagerModel,
    m2: PagerModel,
    root: int,
    par: Map<int, int>,
    path: Seq<(u32, usize)>,
    x: int,
)
    requires
        descent_ok(m1, root, par, path, x),
        forall|t: int| 0 <= t < path.len() ==> m2.page(#[trigger] path[t].0 as int) == m1.page(path[t].0 as int),
    ensures
        descent_ok(m2, root, par, path, x),
{
    assert forall|t: int| 0 <= t < path.len() implies internal_wf(m2.page(#[trigger] path[t].0 as int)) && (path[t].1 as int)
        < internal_children(m2.page(path[t].0 as int)).len() && internal_children(m2.page(path[t].0 as int))[path[t].1 as int]
        as int == path_next(path, x, t) && par.dom().contains(path_next(path, x, t)) && par[path_next(path, x, t)]
        == path[t].0 as int by {
        assert(m2.page(path[t].0 as int) == m1.page(path[t].0 as int));
    }
}

/// What a keyed tree says of leaf `ps[j]` of its chain.
pub proof fn lemma_keyed_leaf(
    m: PagerModel,
    root: int,
    nodes: Set<int>,
    ps: Seq<int>,
    b: Map<int, (int, int)>,
    par: Map<int, int>,
    j: int,
)
    requires
        keyed(m, root, nodes, ps, b, par),
        0 <= j < ps.len(),
    ensures
        b.dom().contains(ps[j]),
        keys_increasing(leaf_cells(m.page(ps[j]))),
        cells_within(leaf_cells(m.page(ps[j])), b[ps[j]]),
        j > 0 ==> leaf_cells(m.page(ps[j])).len() > 0 && b[ps[j]].0 == leaf_cells(m.page(ps[j]))[0].0,
        b[root] == (key_floor(), key_ceil()),
        !par.dom().contains(root),
        forall|c: int| par.dom().contains(c) ==> nodes.contains(c),
{
    reveal(chain_keyed);
}

/// The cells of a sound tree's chain hold no `key` where its scan reads none.
pub proof fn lemma_key_absent_chain(m: PagerModel, root: int, nodes: Set<int>, ps: Seq<int>, key: i64)
    requires
        crate::pager::pager_wf(m),
        shape(m, root, nodes, ps),
        key_absent(m, root, key),
    ensures
        forall|g: int| 0 <= g < cells_of(m, ps).len() ==> (#[trigger] cells_of(m, ps)[g]).0 != key,
{
    lemma_scan_cells_shape(m, root, nodes, ps);
    assert forall|g: int| 0 <= g < cells_of(m, ps).len() implies (#[trigger] cells_of(m, ps)[g]).0 != key by {
        assert(scan_cells(m, root).unwrap()[g] == cells_of(m, ps)[g]);
    }
}

/// `after` is `before` with cell `x` added at some position.
pub open spec fn cell_added(
    before: Option<Seq<(i64, Seq<u8>)>>,
    after: Option<Seq<(i64, Seq<u8>)>>,
    x: (i64, Seq<u8>),
) -> bool {
    &&& before is Some
    &&& after is Some
    &&& exists|i: int| 0 <= i <= before.unwrap().len() && after.unwrap() == #[trigger] before.unwrap().insert(i, x)
}

/// A cell inserted at `i` is a cell added.
pub proof fn lemma_cell_added(before: Seq<(i64, Seq<u8>)>, after: Seq<(i64, Seq<u8>)>, i: int, x: (i64, Seq<u8>))
    requires
        0 <= i <= before.len(),
        after == before.insert(i, x),
    ensures
        cell_added(Some(before), Some(after), x),
{
    assert(Some(before).unwrap().insert(i, x) == after);
}

/// The cells of pages that are unchanged are unchanged.
pub proof fn lemma_cells_frame(m1: PagerModel, m2: PagerModel, ps: Seq<int>)
    requires
        forall|i: int| 0 <= i < ps.len() ==> m2.page(#[trigger] ps[i]) == m1.page(ps[i]),
    ensures
        cells_of(m2, ps) == cells_of(m1, ps),
    decreases ps.len(),
{
    if ps.len() > 0 {
        let r = ps.drop_first();
        assert forall|i: int| 0 <= i < r.len() implies m2.page(#[trigger] r[i]) == m1.page(r[i]) by {
            assert(r[i] == ps[i + 1]);
        }
        lemma_cells_frame(m1, m2, r);
        assert(m2.page(ps[0]) == m1.page(ps[0]));
    }
}

proof fn lemma_cells_single(m: PagerModel, p: int)
    ensures
        cells_of(m, seq![p]) == leaf_cells(m.page(p)),
{
    assert(seq![p].drop_first() =~= Seq::<int>::empty());
    assert(cells_of(m, seq![p]) =~= leaf_cells(m.page(p)) + cells_of(m, Seq::<int>::empty()));
}

/// The cells of `ps` around its page `j`.
proof fn lemma_cells_around(m: PagerModel, ps: Seq<int>, j: int)
    requires
        0 <= j < ps.len(),
    ensures
        cells_of(m, ps) == cells_of(m, ps.take(j)) + leaf_cells(m.page(ps[j])) + cells_of(m, ps.skip(j + 1)),
{
    assert(ps =~= ps.take(j) + (seq![ps[j]] + ps.skip(j + 1)));
    lemma_cells_concat(m, ps.take(j), seq![ps[j]] + ps.skip(j + 1));
    lemma_cells_concat(m, seq![ps[j]], ps.skip(j + 1));
    lemma_cells_single(m, ps[j]);
    assert(cells_of(m, ps.take(j)) + (leaf_cells(m.page(ps[j])) + cells_of(m, ps.skip(j + 1))) =~= cells_of(
        m,
        ps.take(j),
    ) + leaf_cells(m.page(ps[j])) + cells_of(m, ps.skip(j + 1)));
}

/// A cell inserted into leaf `ps[j]` is inserted into the cells of the chain.
pub proof fn lemma_cells_leaf_insert(m1: PagerModel, m2: PagerModel, ps: Seq<int>, j: int, pos: int, x: (i64, Seq<u8>))
    requires
        0 <= j < ps.len(),
        ps.no_duplicates(),
        forall|p: int| p != ps[j] ==> #[trigger] m2.page(p) == m1.page(p),
        0 <= pos <= leaf_cells(m1.page(ps[j])).len(),
        leaf_cells(m2.page(ps[j])) == leaf_cells(m1.page(ps[j])).insert(pos, x),
    ensures
        exists|i: int| 0 <= i <= cells_of(m1, ps).len() && cells_of(m2, ps) == #[trigger] cells_of(m1, ps).insert(i, x),
{
    let pre = ps.take(j);
    let post = ps.skip(j + 1);
    lemma_cells_around(m1, ps, j);
    lemma_cells_around(m2, ps, j);
    assert forall|i: int| 0 <= i < pre.len() implies m2.page(#[trigger] pre[i]) == m1.page(pre[i]) by {
        assert(pre[i] == ps[i]);
    }
    assert forall|i: int| 0 <= i < post.len() implies m2.page(#[trigger] post[i]) == m1.page(post[i]) by {
        assert(post[i] == ps[j + 1 + i]);
    }
    lemma_cells_frame(m1, m2, pre);
    lemma_cells_frame(m1, m2, post);
    let a = cells_of(m1, pre);
    let c = leaf_cells(m1.page(ps[j]));
    let d = cells_of(m1, post);
    assert(a + c.insert(pos, x) + d =~= (a + c + d).insert(a.len() + pos, x));
    assert(cells_of(m2, ps) == cells_of(m1, ps).insert(a.len() + pos, x));
}

/// A leaf `ps[j]` split into itself and `n` (linked right after it), the
/// two holding its cells with `x` added, adds `x` to the cells of the chain.
pub proof fn lemma_cells_leaf_split(
    m1: PagerModel,
    m2: PagerModel,
    ps: Seq<int>,
    j: int,
    n: int,
    pos: int,
    x: (i64, Seq<u8>),
)
    requires
        0 <= j < ps.len(),
        ps.no_duplicates(),
        !ps.contains(n),
        forall|p: int| p != ps[j] && p != n ==> #[trigger] m2.page(p) == m1.page(p),
        0 <= pos <= leaf_cells(m1.page(ps[j])).len(),
        leaf_cells(m2.page(ps[j])) + leaf_cells(m2.page(n)) == leaf_cells(m1.page(ps[j])).insert(pos, x),
    ensures
        exists|i: int|
            0 <= i <= cells_of(m1, ps).len() && cells_of(m2, ps.insert(j + 1, n)) == #[trigger] cells_of(m1, ps).insert(i, x),
{
    let l = ps[j];
    let ps2 = ps.insert(j + 1, n);
    let pre = ps.take(j);
    let post = ps.skip(j + 1);
    assert(ps2 =~= pre + (seq![l, n] + post));
    lemma_cells_concat(m2, pre, seq![l, n] + post);
    lemma_cells_concat(m2, seq![l, n], post);
    assert(seq![l, n] =~= seq![l] + seq![n]);
    lemma_cells_concat(m2, seq![l], seq![n]);
    lemma_cells_single(m2, l);
    lemma_cells_single(m2, n);
    assert forall|i: int| 0 <= i < pre.len() implies m2.page(#[trigger] pre[i]) == m1.page(pre[i]) by {
        assert(pre[i] == ps[i]);
        assert(ps.contains(ps[i]));
    }
    assert forall|i: int| 0 <= i < post.len() implies m2.page(#[trigger] post[i]) == m1.page(post[i]) by {
        assert(post[i] == ps[j + 1 + i]);
        assert(ps.contains(ps[j + 1 + i]));
    }
    lemma_cells_frame(m1, m2, pre);
    lemma_cells_frame(m1, m2, post);
    lemma_cells_around(m1, ps, j);
    let a = cells_of(m1, pre);
    let c = leaf_cells(m1.page(l));
    let d = cells_of(m1, post);
    assert(cells_of(m2, ps2) =~= a + c.insert(pos, x) + d);
    assert(a + c.insert(pos, x) + d =~= (a + c + d).insert(a.len() + pos, x));
    assert(cells_of(m2, ps2) == cells_of(m1, ps).insert(a.len() + pos, x));
}

/// Key order is kept by any change outside the tree's nodes and chain.
pub proof fn lemma_keyed_frame(
    m1: PagerModel,
    m2: PagerModel,
    root: int,
    nodes: Set<int>,
    ps: Seq<int>,
    b: Map<int, (int, int)>,
    par: Map<int, int>,
)
    requires
        keyed(m1, root, nodes, ps, b, par),
        forall|p: int| nodes.contains(p) || ps.contains(p) ==> #[trigger] m2.page(p) == m1.page(p),
    ensures
        keyed(m2, root, nodes, ps, b, par),
{
    assert forall|q: int| nodes.contains(q) && internal_wf(#[trigger] m2.page(q)) implies node_keyed(
        m2.page(q),
        q,
        b,
        par,
        if q == -1 { -1 } else { -1 },
    ) by {
        assert(m2.page(q) == m1.page(q));
    }
    assert forall|j: int| 0 <= j < ps.len() implies m2.page(#[trigger] ps[j]) == m1.page(ps[j]) by {
        assert(ps.contains(ps[j]));
    }
    lemma_chain_keyed_frame(m1, m2, ps, b);
}

/// A tree in key order whose first leaf is not page 0, and the cells its
/// scan reads, are kept by a change of page 0 alone that keeps the file's
/// length.
pub proof fn lemma_sorted_frame(m1: PagerModel, m2: PagerModel, root: int)
    requires
        crate::pager::pager_wf(m1),
        crate::pager::pager_wf(m2),
        sorted_tree(m1, root),
        crate::btree::leftmost_leaf(m1, root, m1.file_pages) != Some(0int),
        m2.file_pages == m1.file_pages,
        forall|p: int| p != 0 ==> #[trigger] m2.page(p) == m1.page(p),
    ensures
        sorted_tree(m2, root),
        scan_cells(m2, root) == scan_cells(m1, root),
{
    let (nodes, ps, b, par) = choose|nodes: Set<int>, ps: Seq<int>, b: Map<int, (int, int)>, par: Map<int, int>|
        shape(m1, root, nodes, ps) && keyed(m1, root, nodes, ps, b, par);
    assert(ps[0] != 0);
    assert forall|p: int| nodes.contains(p) || ps.contains(p) implies #[trigger] m2.page(p) == m1.page(p) by {
        assert(p != 0);
    }
    crate::shape::lemma_shape_frame(m1, m2, root, nodes, ps);
    lemma_keyed_frame(m1, m2, root, nodes, ps, b, par);
    lemma_scan_cells_shape(m1, root, nodes, ps);
    lemma_scan_cells_shape(m2, root, nodes, ps);
    assert forall|i: int| 0 <= i < ps.len() implies m2.page(#[trigger] ps[i]) == m1.page(ps[i]) by {
        assert(ps.contains(ps[i]));
    }
    lemma_cells_frame(m1, m2, ps);
}

proof fn lemma_chain_pages_same(m1: PagerModel, m2: PagerModel, cur: int, f: nat)
    requires
        forall|n: int| #[trigger] m2.page(n) == m1.page(n),
    ensures
        chain_pages(m2, cur, f) == chain_pages(m1, cur, f),
    decreases f,
{
    if f > 0 && 0 <= cur < MAX_PAGES {
        let p = m1.page(cur);
        assert(m2.page(cur) == p);
        if crate::btree::leaf_wf(p) && crate::btree::leaf_next(p) != 0 {
            lemma_chain_pages_same(m1, m2, crate::btree::leaf_next(p) as int, (f - 1) as nat);
        }
    }
}

/// Two pagers with the same pages and length hold the same cells, in key
/// order in one where in the other.
pub proof fn lemma_same_pages_sorted(m1: PagerModel, m2: PagerModel, root: int)
    requires
        m2.file_pages == m1.file_pages,
        forall|n: int| #[trigger] m2.page(n) == m1.page(n),
    ensures
        scan_cells(m2, root) == scan_cells(m1, root),
        sorted_tree(m1, root) ==> sorted_tree(m2, root),
{
    crate::shape::lemma_same_pages(m1, m2, root);
    crate::shape::lemma_leftmost_same(m1, m2, root, MAX_PAGES as nat);
    if let Some(l) = leftmost_leaf(m1, root, MAX_PAGES as nat) {
        lemma_chain_pages_same(m1, m2, l, MAX_PAGES as nat);
        if let Some(ps) = chain_pages(m1, l, MAX_PAGES as nat) {
            lemma_cells_frame(m1, m2, ps);
        }
    }
    if sorted_tree(m1, root) {
        let (nodes, ps, b, par) = choose|nodes: Set<int>, ps: Seq<int>, b: Map<int, (int, int)>, par: Map<int, int>|
            shape(m1, root, nodes, ps) && keyed(m1, root, nodes, ps, b, par);
        crate::shape::lemma_shape_frame(m1, m2, root, nodes, ps);
        lemma_keyed_frame(m1, m2, root, nodes, ps, b, par);
    }
}

/// A tree in key order is sound.
pub proof fn lemma_sorted_is_sound(m: PagerModel, root: int)
    requires
        sorted_tree(m, root),
    ensures
        crate::shape::tree_ok(m, root),
{
    let (nodes, ps, b, par) = choose|nodes: Set<int>, ps: Seq<int>, b: Map<int, (int, int)>, par: Map<int, int>|
        shape(m, root, nodes, ps) && keyed(m, root, nodes, ps, b, par);
    assert(shape(m, root, nodes, ps));
}

} // verus!
