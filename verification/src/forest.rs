//! The label forest: a flat array in which every foreground cell holds the
//! index of its parent, a root holds its own index, and a background cell
//! holds `-1`.

use vstd::prelude::*;

verus! {

/// The label of a cell that belongs to no component.
pub const BACKGROUND: i32 = -1;

/// Cell `i` exists and belongs to some component.
pub open spec fn is_foreground(l: Seq<i32>, i: int) -> bool {
    0 <= i < l.len() && l[i] >= 0
}

/// Cell `i` holds the background label or points to a foreground cell that
/// does not come after it.
pub open spec fn cell_ok(l: Seq<i32>, i: int) -> bool {
    &&& -1 <= l[i] <= i
    &&& l[i] >= 0 ==> l[l[i] as int] >= 0
}

/// Every parent pointer leads to an earlier foreground cell, so the chains of
/// parents are finite and end in a root.
pub open spec fn is_forest(l: Seq<i32>) -> bool {
    &&& l.len() <= i32::MAX
    &&& forall|i: int| 0 <= i < l.len() ==> #[trigger] cell_ok(l, i)
}

/// The root that the parent chain of cell `i` ends in; `-1` for a background
/// cell and for an index outside the array.
pub open spec fn root(l: Seq<i32>, i: int) -> int
    decreases i,
{
    if !is_foreground(l, i) {
        -1
    } else if l[i] < i {
        root(l, l[i] as int)
    } else {
        i
    }
}

/// Cell `i` is the representative of its component.
pub open spec fn is_root(l: Seq<i32>, i: int) -> bool {
    0 <= i < l.len() && l[i] == i
}

/// Two foreground cells hang in the same tree.
pub open spec fn same_tree(l: Seq<i32>, i: int, j: int) -> bool {
    is_foreground(l, i) && is_foreground(l, j) && root(l, i) == root(l, j)
}

/// Every label already is the root of its tree.
pub open spec fn is_flat(l: Seq<i32>) -> bool {
    forall|i: int| 0 <= i < l.len() ==> #[trigger] l[i] as int == root(l, i)
}

/// The array in which every cell holds the root of its tree.
pub open spec fn flattened(l: Seq<i32>) -> Seq<i32> {
    Seq::new(l.len(), |i: int| root(l, i) as i32)
}

/// No label has grown and the background is the same.
pub open spec fn descends(before: Seq<i32>, after: Seq<i32>) -> bool {
    &&& after.len() == before.len()
    &&& forall|i: int|
        0 <= i < before.len() ==> #[trigger] after[i] <= before[i] && (after[i] < 0 <==> before[i]
            < 0)
}

/// The root of a foreground cell is a root, lies at or before the cell's
/// parent, and is its own root.
pub proof fn lemma_root_is_root(l: Seq<i32>, i: int)
    requires
        is_forest(l),
        is_foreground(l, i),
    ensures
        0 <= root(l, i) <= l[i] <= i,
        is_root(l, root(l, i)),
        root(l, root(l, i)) == root(l, i),
    decreases i,
{
    assert(cell_ok(l, i));
    if l[i] < i {
        lemma_root_is_root(l, l[i] as int);
        assert(cell_ok(l, l[i] as int));
    }
}

/// The root of a tree is the first of its cells.
pub proof fn lemma_root_is_least(l: Seq<i32>, i: int, j: int)
    requires
        is_forest(l),
        same_tree(l, i, j),
    ensures
        root(l, i) <= j,
{
    lemma_root_is_root(l, j);
}

/// Pointing a cell at an earlier member of its own tree changes no root.
pub proof fn lemma_repoint_keeps_roots(l: Seq<i32>, c: int, v: int)
    requires
        is_forest(l),
        is_foreground(l, c),
        is_foreground(l, v),
        v <= l[c],
        root(l, v) == root(l, c),
    ensures
        is_forest(l.update(c, v as i32)),
        descends(l, l.update(c, v as i32)),
        forall|k: int| root(l.update(c, v as i32), k) == root(l, k),
{
    let m = l.update(c, v as i32);
    assert(cell_ok(l, c));
    assert forall|i: int| 0 <= i < m.len() implies #[trigger] cell_ok(m, i) by {
        assert(cell_ok(l, i));
        if m[i] >= 0 {
            assert(cell_ok(l, m[i] as int));
        }
    }
    assert forall|k: int| root(m, k) == root(l, k) by {
        lemma_repoint_root_at(l, c, v, k);
    }
}

proof fn lemma_repoint_root_at(l: Seq<i32>, c: int, v: int, k: int)
    requires
        is_forest(l),
        is_foreground(l, c),
        is_foreground(l, v),
        v <= l[c],
        root(l, v) == root(l, c),
    ensures
        root(l.update(c, v as i32), k) == root(l, k),
    decreases k,
{
    let m = l.update(c, v as i32);
    assert(cell_ok(l, c));
    if is_foreground(l, k) {
        assert(cell_ok(l, k));
        if k == c {
            if v < c {
                lemma_repoint_root_at(l, c, v, v);
            }
        } else if l[k] < k {
            lemma_repoint_root_at(l, c, v, l[k] as int);
        }
    }
}

/// Hanging a root under an earlier root moves the cells of its tree, and no
/// others, to the earlier root.
pub proof fn lemma_link_moves_tree(l: Seq<i32>, low: int, high: int)
    requires
        is_forest(l),
        is_root(l, low),
        is_root(l, high),
        low < high,
    ensures
        is_forest(l.update(high, low as i32)),
        descends(l, l.update(high, low as i32)),
        forall|k: int|
            root(l.update(high, low as i32), k) == if root(l, k) == high {
                low
            } else {
                root(l, k)
            },
{
    let m = l.update(high, low as i32);
    assert forall|i: int| 0 <= i < m.len() implies #[trigger] cell_ok(m, i) by {
        assert(cell_ok(l, i));
        if m[i] >= 0 {
            assert(cell_ok(l, m[i] as int));
        }
    }
    assert forall|k: int|
        root(m, k) == if root(l, k) == high {
            low
        } else {
            root(l, k)
        } by {
        lemma_link_root_at(l, low, high, k);
    }
}

proof fn lemma_link_root_at(l: Seq<i32>, low: int, high: int, k: int)
    requires
        is_forest(l),
        is_root(l, low),
        is_root(l, high),
        low < high,
    ensures
        root(l.update(high, low as i32), k) == if root(l, k) == high {
            low
        } else {
            root(l, k)
        },
    decreases k,
{
    if is_foreground(l, k) {
        assert(cell_ok(l, k));
        if k == high {
            lemma_link_root_at(l, low, high, low);
        } else if l[k] < k {
            lemma_link_root_at(l, low, high, l[k] as int);
        }
    }
}

/// Walks from `index` up its parent chain and returns the root it ends in,
/// or `-1` where the cell is background.
pub fn find_root(labels: &Vec<i32>, index: usize) -> (r: i32)
    requires
        is_forest(labels@),
        index < labels.len(),
    ensures
        r == root(labels@, index as int),
{
    let mut v: i32 = labels[index];
    assert(cell_ok(labels@, index as int));
    if v < 0 {
        return v;
    }
    let mut w: usize = index;
    while v as usize != w
        invariant
            is_forest(labels@),
            is_foreground(labels@, w as int),
            v == labels@[w as int],
            root(labels@, w as int) == root(labels@, index as int),
        decreases w,
    {
        assert(cell_ok(labels@, w as int));
        w = v as usize;
        v = labels[w];
    }
    v
}

/// Cell `k` lies on the parent chain that starts at cell `i`.
pub open spec fn on_path(l: Seq<i32>, i: int, k: int) -> bool
    decreases i,
{
    is_foreground(l, i) && (k == i || (l[i] < i && on_path(l, l[i] as int, k)))
}

/// The array in which every cell on the parent chain of `i` points straight at
/// the root of `i`; all other cells keep their labels.
pub open spec fn compressed(l: Seq<i32>, i: int) -> Seq<i32> {
    Seq::new(
        l.len(),
        |k: int|
            if on_path(l, i, k) {
                root(l, i) as i32
            } else {
                l[k]
            },
    )
}

/// A cell on the parent chain of `i` is a foreground cell at or before `i`
/// with the root of `i`, and its parent lies on the chain too.
pub proof fn lemma_on_path(l: Seq<i32>, i: int, k: int)
    requires
        is_forest(l),
        on_path(l, i, k),
    ensures
        is_foreground(l, k),
        k <= i,
        root(l, k) == root(l, i),
        l[k] < k ==> on_path(l, i, l[k] as int),
    decreases i,
{
    assert(cell_ok(l, i));
    if k != i {
        lemma_on_path(l, l[i] as int, k);
    } else if l[i] < i {
        assert(on_path(l, l[i] as int, l[i] as int));
    }
}

/// Of two cells on one parent chain, the earlier lies on the chain of the
/// later.
pub proof fn lemma_on_path_below(l: Seq<i32>, i: int, c: int, k: int)
    requires
        is_forest(l),
        on_path(l, i, c),
        on_path(l, i, k),
        k <= c,
    ensures
        on_path(l, c, k),
    decreases i,
{
    lemma_on_path(l, i, c);
    if c != i {
        lemma_on_path(l, l[i] as int, c);
        lemma_on_path_below(l, l[i] as int, c, k);
    }
}

/// Compressing a parent chain keeps the forest, lets no label grow and
/// changes no root.
pub proof fn lemma_compressed_keeps_roots(l: Seq<i32>, i: int)
    requires
        is_forest(l),
    ensures
        is_forest(compressed(l, i)),
        descends(l, compressed(l, i)),
        forall|k: int| root(compressed(l, i), k) == root(l, k),
    decreases i,
{
    if !is_foreground(l, i) {
        assert(compressed(l, i) =~= l);
    } else {
        assert(cell_ok(l, i));
        lemma_root_is_root(l, i);
        let r = root(l, i);
        if l[i] < i {
            let p = l[i] as int;
            let m = compressed(l, p);
            lemma_compressed_keeps_roots(l, p);
            assert(!on_path(l, p, i)) by {
                if on_path(l, p, i) {
                    lemma_on_path(l, p, i);
                }
            }
            assert(root(m, r) == root(m, i));
            lemma_repoint_keeps_roots(m, i, r);
            assert(compressed(l, i) =~= m.update(i, r as i32));
        } else {
            assert(compressed(l, i) =~= l);
        }
    }
}

/// Finds the root of `index` and points every cell on the way straight at it.
/// Returns the root, or `-1` where the cell is background.
pub fn find_and_compress(labels: &mut Vec<i32>, index: usize) -> (r: i32)
    requires
        is_forest(old(labels)@),
        index < old(labels).len(),
    ensures
        r == root(old(labels)@, index as int),
        final(labels)@ == compressed(old(labels)@, index as int),
{
    let r = find_root(labels, index);
    if r < 0 {
        proof {
            if is_foreground(labels@, index as int) {
                lemma_root_is_root(labels@, index as int);
            }
            assert(labels@ =~= compressed(old(labels)@, index as int));
        }
        return r;
    }
    let mut c: usize = index;
    proof {
        lemma_root_is_root(labels@, index as int);
        assert forall|k: int| on_path(labels@, index as int, k) implies k <= index by {
            lemma_on_path(labels@, index as int, k);
        }
    }
    while c != r as usize
        invariant
            labels.len() == old(labels).len(),
            is_forest(old(labels)@),
            index < labels.len(),
            0 <= r == root(old(labels)@, index as int),
            on_path(old(labels)@, index as int, c as int),
            forall|k: int|
                0 <= k < labels.len() ==> #[trigger] labels@[k] == if on_path(
                    old(labels)@,
                    index as int,
                    k,
                ) && k > c {
                    r
                } else {
                    old(labels)@[k]
                },
        decreases c,
    {
        let ghost before = labels@;
        proof {
            lemma_on_path(old(labels)@, index as int, c as int);
            lemma_root_is_root(old(labels)@, c as int);
            assert(cell_ok(old(labels)@, c as int));
        }
        let next = labels[c];
        labels[c] = r;
        proof {
            assert forall|k: int| 0 <= k < labels.len() implies #[trigger] labels@[k] == if on_path(
                old(labels)@,
                index as int,
                k,
            ) && k > next {
                r
            } else {
                old(labels)@[k]
            } by {
                if on_path(old(labels)@, index as int, k) && k < c {
                    lemma_on_path_below(old(labels)@, index as int, c as int, k);
                    lemma_on_path(old(labels)@, next as int, k);
                }
            }
        }
        c = next as usize;
    }
    proof {
        lemma_root_is_root(old(labels)@, index as int);
        assert forall|k: int| 0 <= k < labels.len() implies labels@[k] == compressed(
            old(labels)@,
            index as int,
        )[k] by {
            if on_path(old(labels)@, index as int, k) {
                lemma_on_path(old(labels)@, index as int, k);
                lemma_root_is_root(old(labels)@, k);
            }
        }
        assert(labels@ =~= compressed(old(labels)@, index as int));
    }
    r
}

/// Labels that never grow from one array to the next do not grow over both
/// steps.
pub proof fn lemma_descends_transitive(a: Seq<i32>, b: Seq<i32>, c: Seq<i32>)
    requires
        descends(a, b),
        descends(b, c),
    ensures
        descends(a, c),
{
    assert forall|i: int| 0 <= i < a.len() implies #[trigger] c[i] <= a[i] && (c[i] < 0 <==> a[i]
        < 0) by {
        assert(b[i] <= a[i] && (b[i] < 0 <==> a[i] < 0));
    }
}

/// The array after the trees of two foreground cells `a` and `b` are made
/// one: both parent chains are compressed, and the later of the two roots is
/// hung under the earlier. Where one of the cells is background nothing
/// changes.
pub open spec fn united(l: Seq<i32>, a: int, b: int) -> Seq<i32> {
    if is_foreground(l, a) && is_foreground(l, b) {
        let m = compressed(compressed(l, a), b);
        let ra = root(l, a);
        let rb = root(l, b);
        if ra < rb {
            m.update(rb, ra as i32)
        } else if rb < ra {
            m.update(ra, rb as i32)
        } else {
            m
        }
    } else {
        l
    }
}

/// The root of cell `k` once the trees of `a` and `b` are one: the earlier of
/// the two roots for the cells of both trees, the old root for all others.
pub open spec fn united_root(l: Seq<i32>, a: int, b: int, k: int) -> int {
    let ra = root(l, a);
    let rb = root(l, b);
    if is_foreground(l, a) && is_foreground(l, b) && is_foreground(l, k) && (root(l, k) == ra
        || root(l, k) == rb) {
        if ra < rb {
            ra
        } else {
            rb
        }
    } else {
        root(l, k)
    }
}

/// Uniting two trees keeps the forest, lets no label grow, and gives every
/// cell the root that `united_root` names.
pub proof fn lemma_united(l: Seq<i32>, a: int, b: int)
    requires
        is_forest(l),
    ensures
        is_forest(united(l, a, b)),
        descends(l, united(l, a, b)),
        forall|k: int| root(united(l, a, b), k) == united_root(l, a, b, k),
{
    if is_foreground(l, a) && is_foreground(l, b) {
        let m1 = compressed(l, a);
        let m2 = compressed(m1, b);
        let ra = root(l, a);
        let rb = root(l, b);
        lemma_compressed_keeps_roots(l, a);
        lemma_compressed_keeps_roots(m1, b);
        lemma_descends_transitive(l, m1, m2);
        lemma_root_is_root(l, a);
        lemma_root_is_root(l, b);
        lemma_root_is_root(m2, a);
        lemma_root_is_root(m2, b);
        assert(root(m2, a) == ra && root(m2, b) == rb);
        if ra < rb {
            lemma_link_moves_tree(m2, ra, rb);
            lemma_descends_transitive(l, m2, m2.update(rb, ra as i32));
        } else if rb < ra {
            lemma_link_moves_tree(m2, rb, ra);
            lemma_descends_transitive(l, m2, m2.update(ra, rb as i32));
        }
    }
}

/// Makes the trees of cells `a` and `b` one by hanging the later root under
/// the earlier, compressing both parent chains on the way. Does nothing where
/// one of the two cells is background.
pub fn unite(labels: &mut Vec<i32>, a: usize, b: usize)
    requires
        is_forest(old(labels)@),
        a < old(labels).len(),
        b < old(labels).len(),
    ensures
        final(labels)@ == united(old(labels)@, a as int, b as int),
{
    if labels[a] >= 0 && labels[b] >= 0 {
        let ra = find_and_compress(labels, a);
        proof {
            lemma_compressed_keeps_roots(old(labels)@, a as int);
        }
        let rb = find_and_compress(labels, b);
        proof {
            lemma_compressed_keeps_roots(compressed(old(labels)@, a as int), b as int);
            lemma_root_is_root(old(labels)@, a as int);
            lemma_root_is_root(old(labels)@, b as int);
        }
        if ra < rb {
            labels[rb as usize] = ra;
        } else if rb < ra {
            labels[ra as usize] = rb;
        }
    }
}

} // verus!
