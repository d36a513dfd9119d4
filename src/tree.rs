//! The copy-on-write B-tree over an arena of pages addressed by index.
use vstd::prelude::*;
use crate::key::{compare_keys, lemma_lex_order, lex_lt};
use crate::node::{
    NodeView, Node, MAX_KEYS, kseq, sorted, leaf_get, route, lemma_leaf_get_at, lemma_route_char,
    lemma_route_le, lower_bound, child_index, copy_bytes, copy_node,
};

verus! {

/// The nodes that a page vector holds.
pub open spec fn pview(p: Seq<Node>) -> Seq<NodeView> {
    p.map_values(|n: Node| n@)
}

/// `p2` keeps every page of `p1` and may add pages after them.
pub open spec fn extends(p1: Seq<NodeView>, p2: Seq<NodeView>) -> bool {
    p1.len() <= p2.len() && forall|i: int| 0 <= i < p1.len() ==> #[trigger] p2[i] == p1[i]
}

/// `k` is at or above the lower bound, if there is one.
pub open spec fn lo_ok(lo: Option<Seq<u8>>, k: Seq<u8>) -> bool {
    match lo {
        Some(l) => !lex_lt(k, l),
        None => true,
    }
}

/// `k` is below the upper bound, if there is one.
pub open spec fn hi_ok(hi: Option<Seq<u8>>, k: Seq<u8>) -> bool {
    match hi {
        Some(h) => lex_lt(k, h),
        None => true,
    }
}

pub open spec fn within(lo: Option<Seq<u8>>, hi: Option<Seq<u8>>, k: Seq<u8>) -> bool {
    lo_ok(lo, k) && hi_ok(hi, k)
}

/// Lower bound of the keys under child `i`.
pub open spec fn child_lo(ks: Seq<Seq<u8>>, lo: Option<Seq<u8>>, i: int) -> Option<Seq<u8>> {
    if i == 0 {
        lo
    } else {
        Some(ks[i - 1])
    }
}

/// Upper bound of the keys under child `i`.
pub open spec fn child_hi(ks: Seq<Seq<u8>>, hi: Option<Seq<u8>>, i: int) -> Option<Seq<u8>> {
    if i == ks.len() {
        hi
    } else {
        Some(ks[i])
    }
}

/// Sorted keys, all within the bounds.
pub open spec fn keys_ok(ks: Seq<Seq<u8>>, lo: Option<Seq<u8>>, hi: Option<Seq<u8>>) -> bool {
    sorted(ks) && forall|i: int| 0 <= i < ks.len() ==> within(lo, hi, #[trigger] ks[i])
}

/// The subtree at page `id`, of height `h`, is well formed and holds only keys
/// within `[lo, hi)`.
pub open spec fn wf_node(
    p: Seq<NodeView>,
    id: int,
    h: int,
    lo: Option<Seq<u8>>,
    hi: Option<Seq<u8>>,
) -> bool
    decreases h,
{
    &&& 0 <= id < p.len()
    &&& p[id] is Leaf ==> {
        let keys = p[id]->Leaf_keys;
        &&& h == 0
        &&& keys.len() == p[id]->Leaf_vals.len()
        &&& keys.len() <= MAX_KEYS
        &&& keys_ok(keys, lo, hi)
    }
    &&& p[id] is Internal ==> {
        &&& h > 0
        &&& 1 <= p[id]->Internal_keys.len() <= MAX_KEYS
        &&& p[id]->Internal_children.len() == p[id]->Internal_keys.len() + 1
        &&& keys_ok(p[id]->Internal_keys, lo, hi)
        &&& forall|i: int|
            0 <= i < p[id]->Internal_children.len() ==> wf_node(
                p,
                #[trigger] p[id]->Internal_children[i],
                h - 1,
                child_lo(p[id]->Internal_keys, lo, i),
                child_hi(p[id]->Internal_keys, hi, i),
            )
    }
}

/// The routing part of an internal node is well formed, whatever its size.
pub open spec fn inode_wf(
    p: Seq<NodeView>,
    ks: Seq<Seq<u8>>,
    cs: Seq<int>,
    h: int,
    lo: Option<Seq<u8>>,
    hi: Option<Seq<u8>>,
) -> bool {
    h > 0 && cs.len() == ks.len() + 1 && keys_ok(ks, lo, hi) && forall|i: int|
        0 <= i < cs.len() ==> wf_node(
            p,
            #[trigger] cs[i],
            h - 1,
            child_lo(ks, lo, i),
            child_hi(ks, hi, i),
        )
}

/// The value that the subtree at `id` holds for `k`.
pub open spec fn lookup(p: Seq<NodeView>, id: int, h: int, k: Seq<u8>) -> Option<Seq<u8>>
    decreases h,
{
    if 0 <= id < p.len() {
        match p[id] {
            NodeView::Leaf { keys, vals } => leaf_get(keys, vals, k),
            NodeView::Internal { keys, children } => if h > 0 && route(keys, k) < children.len() {
                lookup(p, children[route(keys, k) as int], h - 1, k)
            } else {
                None
            },
        }
    } else {
        None
    }
}

/// The value that an internal node made of `ks` and `cs` holds for `k`.
pub open spec fn inode_lookup(
    p: Seq<NodeView>,
    ks: Seq<Seq<u8>>,
    cs: Seq<int>,
    h: int,
    k: Seq<u8>,
) -> Option<Seq<u8>> {
    if h > 0 && route(ks, k) < cs.len() {
        lookup(p, cs[route(ks, k) as int], h - 1, k)
    } else {
        None
    }
}

/// An internal node's well-formedness and lookup, through its parts.
pub proof fn lemma_wf_inode(p: Seq<NodeView>, id: int, h: int, lo: Option<Seq<u8>>, hi: Option<Seq<u8>>)
    requires
        0 <= id < p.len(),
        p[id] is Internal,
    ensures
        wf_node(p, id, h, lo, hi) <==> (h > 0 && 1 <= p[id]->Internal_keys.len() <= MAX_KEYS
            && inode_wf(p, p[id]->Internal_keys, p[id]->Internal_children, h, lo, hi)),
        forall|k: Seq<u8>| #[trigger] lookup(p, id, h, k) == inode_lookup(
            p,
            p[id]->Internal_keys,
            p[id]->Internal_children,
            h,
            k,
        ),
{
    let ks = p[id]->Internal_keys;
    let cs = p[id]->Internal_children;
    if wf_node(p, id, h, lo, hi) {
        assert forall|i: int| 0 <= i < cs.len() implies wf_node(
                p,
                #[trigger] cs[i],
                h - 1,
                child_lo(ks, lo, i),
                child_hi(ks, hi, i),
            ) by {}
    }
}

/// Pages added after a subtree change nothing in it.
pub proof fn lemma_frame(
    p1: Seq<NodeView>,
    p2: Seq<NodeView>,
    id: int,
    h: int,
    lo: Option<Seq<u8>>,
    hi: Option<Seq<u8>>,
)
    requires
        wf_node(p1, id, h, lo, hi),
        extends(p1, p2),
    ensures
        wf_node(p2, id, h, lo, hi),
        forall|k: Seq<u8>| #[trigger] lookup(p2, id, h, k) == lookup(p1, id, h, k),
    decreases h, 1nat,
{
    assert(p2[id] == p1[id]);
    match p1[id] {
        NodeView::Internal { keys, children } => {
            lemma_wf_inode(p1, id, h, lo, hi);
            lemma_frame_inode(p1, p2, keys, children, h, lo, hi);
            lemma_wf_inode(p2, id, h, lo, hi);
        },
        NodeView::Leaf { .. } => {},
    }
}

/// Pages added after an internal node's children change nothing under it.
pub proof fn lemma_frame_inode(
    p1: Seq<NodeView>,
    p2: Seq<NodeView>,
    ks: Seq<Seq<u8>>,
    cs: Seq<int>,
    h: int,
    lo: Option<Seq<u8>>,
    hi: Option<Seq<u8>>,
)
    requires
        inode_wf(p1, ks, cs, h, lo, hi),
        extends(p1, p2),
    ensures
        inode_wf(p2, ks, cs, h, lo, hi),
        forall|k: Seq<u8>| #[trigger] inode_lookup(p2, ks, cs, h, k) == inode_lookup(p1, ks, cs, h, k),
    decreases h, 0nat,
{
    assert forall|i: int| 0 <= i < cs.len() implies wf_node(
        p2,
        #[trigger] cs[i],
        h - 1,
        child_lo(ks, lo, i),
        child_hi(ks, hi, i),
    ) by {
        lemma_frame(p1, p2, cs[i], h - 1, child_lo(ks, lo, i), child_hi(ks, hi, i));
    }
    assert forall|k: Seq<u8>| #[trigger] inode_lookup(p2, ks, cs, h, k) == inode_lookup(p1, ks, cs, h, k) by {
        let i = route(ks, k) as int;
        lemma_route_le(ks, k);
        lemma_frame(p1, p2, cs[i], h - 1, child_lo(ks, lo, i), child_hi(ks, hi, i));
    }
}


/// `lo`, if there is one, is strictly below `k`.
pub open spec fn lo_lt(lo: Option<Seq<u8>>, k: Seq<u8>) -> bool {
    match lo {
        Some(l) => lex_lt(l, k),
        None => true,
    }
}

proof fn lemma_leaf_absent(ks: Seq<Seq<u8>>, vs: Seq<Seq<u8>>, k: Seq<u8>, i: int)
    requires
        sorted(ks),
        0 <= i <= ks.len(),
        forall|j: int| 0 <= j < i ==> lex_lt(#[trigger] ks[j], k),
        forall|j: int| i <= j < ks.len() ==> !lex_lt(#[trigger] ks[j], k),
        i == ks.len() || ks[i] != k,
    ensures
        leaf_get(ks, vs, k) is None,
{
    lemma_lex_order();
    if exists|j: int| 0 <= j < ks.len() && ks[j] == k {
        let j = choose|j: int| 0 <= j < ks.len() && ks[j] == k;
        if j > i {
            assert(lex_lt(ks[i], ks[j]));
            assert(ks[i] != k);
        }
    }
}

proof fn lemma_leaf_insert(ks: Seq<Seq<u8>>, vs: Seq<Seq<u8>>, i: int, k: Seq<u8>, v: Seq<u8>)
    requires
        sorted(ks),
        ks.len() == vs.len(),
        0 <= i <= ks.len(),
        forall|j: int| 0 <= j < i ==> lex_lt(#[trigger] ks[j], k),
        forall|j: int| i <= j < ks.len() ==> lex_lt(k, #[trigger] ks[j]),
    ensures
        sorted(ks.insert(i, k)),
        forall|k2: Seq<u8>| #[trigger] leaf_get(ks.insert(i, k), vs.insert(i, v), k2) == if k2 == k {
            Some(v)
        } else {
            leaf_get(ks, vs, k2)
        },
{
    lemma_lex_order();
    let nk = ks.insert(i, k);
    let nv = vs.insert(i, v);
    assert forall|a: int, b: int| 0 <= a < b < nk.len() implies lex_lt(nk[a], nk[b]) by {
        if a < i && b > i {
            assert(lex_lt(ks[a], k));
            assert(lex_lt(k, ks[b - 1]));
        } else if a > i {
            assert(lex_lt(ks[a - 1], ks[b - 1]));
        } else if b < i {
            assert(lex_lt(ks[a], ks[b]));
        }
    }
    assert forall|k2: Seq<u8>| #[trigger] leaf_get(nk, nv, k2) == if k2 == k {
        Some(v)
    } else {
        leaf_get(ks, vs, k2)
    } by {
        if k2 == k {
            lemma_leaf_get_at(nk, nv, i);
        } else if exists|j: int| 0 <= j < ks.len() && ks[j] == k2 {
            let j = choose|j: int| 0 <= j < ks.len() && ks[j] == k2;
            lemma_leaf_get_at(ks, vs, j);
            if j < i {
                lemma_leaf_get_at(nk, nv, j);
            } else {
                lemma_leaf_get_at(nk, nv, j + 1);
            }
        } else {
            if exists|a: int| 0 <= a < nk.len() && nk[a] == k2 {
                let a = choose|a: int| 0 <= a < nk.len() && nk[a] == k2;
                if a < i {
                    assert(ks[a] == k2);
                } else if a > i {
                    assert(ks[a - 1] == k2);
                }
            }
        }
    }
}

proof fn lemma_leaf_split(ks: Seq<Seq<u8>>, vs: Seq<Seq<u8>>, m: int)
    requires
        sorted(ks),
        ks.len() == vs.len(),
        0 < m < ks.len(),
    ensures
        sorted(ks.subrange(0, m)),
        sorted(ks.subrange(m, ks.len() as int)),
        forall|k2: Seq<u8>| #[trigger] leaf_get(ks, vs, k2) == if lex_lt(k2, ks[m]) {
            leaf_get(ks.subrange(0, m), vs.subrange(0, m), k2)
        } else {
            leaf_get(ks.subrange(m, ks.len() as int), vs.subrange(m, vs.len() as int), k2)
        },
{
    lemma_lex_order();
    let n = ks.len() as int;
    let lk = ks.subrange(0, m);
    let lv = vs.subrange(0, m);
    let rk = ks.subrange(m, n);
    let rv = vs.subrange(m, n);
    assert forall|a: int, b: int| 0 <= a < b < rk.len() implies lex_lt(rk[a], rk[b]) by {
        assert(lex_lt(ks[a + m], ks[b + m]));
    }
    assert forall|k2: Seq<u8>| #[trigger] leaf_get(ks, vs, k2) == if lex_lt(k2, ks[m]) {
        leaf_get(lk, lv, k2)
    } else {
        leaf_get(rk, rv, k2)
    } by {
        if exists|j: int| 0 <= j < n && ks[j] == k2 {
            let j = choose|j: int| 0 <= j < n && ks[j] == k2;
            lemma_leaf_get_at(ks, vs, j);
            if j < m {
                assert(lex_lt(ks[j], ks[m]));
                lemma_leaf_get_at(lk, lv, j);
            } else {
                if j > m {
                    assert(lex_lt(ks[m], ks[j]));
                }
                assert(rk[j - m] == k2);
                lemma_leaf_get_at(rk, rv, j - m);
            }
        } else {
            if exists|a: int| 0 <= a < lk.len() && lk[a] == k2 {
                let a = choose|a: int| 0 <= a < lk.len() && lk[a] == k2;
                assert(ks[a] == k2);
            }
            if exists|a: int| 0 <= a < rk.len() && rk[a] == k2 {
                let a = choose|a: int| 0 <= a < rk.len() && rk[a] == k2;
                assert(ks[a + m] == k2);
            }
        }
    }
}

/// The value of an optional byte vector.
pub open spec fn opt_view(o: Option<Vec<u8>>) -> Option<Seq<u8>> {
    match o {
        Some(v) => Some(v@),
        None => None,
    }
}

/// Looks `k` up in the tree of height `height` rooted at page `root`.
pub fn tree_get(pages: &Vec<Node>, root: usize, height: usize, k: &Vec<u8>) -> (r: Option<Vec<u8>>)
    requires
        wf_node(pview(pages@), root as int, height as int, None, None),
    ensures
        opt_view(r) == lookup(pview(pages@), root as int, height as int, k@),
{
    let ghost p = pview(pages@);
    let mut id: usize = root;
    let mut h: usize = height;
    let ghost mut lo: Option<Seq<u8>> = None;
    let ghost mut hi: Option<Seq<u8>> = None;
    loop
        invariant
            p == pview(pages@),
            wf_node(p, id as int, h as int, lo, hi),
            lookup(p, id as int, h as int, k@) == lookup(p, root as int, height as int, k@),
        decreases h,
    {
        assert(p[id as int] == pages@[id as int]@);
        match &pages[id] {
            Node::Leaf { keys, vals } => {
                let i = lower_bound(keys, k);
                if i < keys.len() && compare_keys(keys[i].as_slice(), k.as_slice()) == 0 {
                    proof {
                        assert(kseq(keys@)[i as int] == keys@[i as int]@);
                        lemma_leaf_get_at(kseq(keys@), kseq(vals@), i as int);
                    }
                    return Some(copy_bytes(&vals[i]));
                }
                proof {
                    if i < keys.len() {
                        assert(kseq(keys@)[i as int] == keys@[i as int]@);
                    }
                    lemma_leaf_absent(kseq(keys@), kseq(vals@), k@, i as int);
                }
                return None;
            },
            Node::Internal { keys, children } => {
                proof {
                    lemma_wf_inode(p, id as int, h as int, lo, hi);
                    lemma_route_le(kseq(keys@), k@);
                }
                let c = child_index(keys, k);
                proof {
                    assert(p[id as int]->Internal_children[c as int] == children@[c as int] as int);
                    lo = child_lo(kseq(keys@), lo, c as int);
                    hi = child_hi(kseq(keys@), hi, c as int);
                }
                id = children[c];
                h = h - 1;
            },
        }
    }
}


/// Replacing one child by a subtree with the same bounds.
proof fn lemma_inode_replace(
    p: Seq<NodeView>,
    q: Seq<NodeView>,
    ks: Seq<Seq<u8>>,
    cs: Seq<int>,
    h: int,
    lo: Option<Seq<u8>>,
    hi: Option<Seq<u8>>,
    c: int,
    n: int,
)
    requires
        inode_wf(p, ks, cs, h, lo, hi),
        extends(p, q),
        0 <= c < cs.len(),
        wf_node(q, n, h - 1, child_lo(ks, lo, c), child_hi(ks, hi, c)),
    ensures
        inode_wf(q, ks, cs.update(c, n), h, lo, hi),
        forall|k2: Seq<u8>| #[trigger] inode_lookup(q, ks, cs.update(c, n), h, k2) == if route(ks, k2)
            == c {
            lookup(q, n, h - 1, k2)
        } else {
            inode_lookup(p, ks, cs, h, k2)
        },
{
    lemma_frame_inode(p, q, ks, cs, h, lo, hi);
    let ncs = cs.update(c, n);
    assert forall|i: int| 0 <= i < ncs.len() implies wf_node(
        q,
        #[trigger] ncs[i],
        h - 1,
        child_lo(ks, lo, i),
        child_hi(ks, hi, i),
    ) by {
        if i != c {
            assert(ncs[i] == cs[i]);
        }
    }
    assert forall|k2: Seq<u8>| #[trigger] inode_lookup(q, ks, ncs, h, k2) == if route(ks, k2) == c {
        lookup(q, n, h - 1, k2)
    } else {
        inode_lookup(p, ks, cs, h, k2)
    } by {
        lemma_route_le(ks, k2);
        assert(inode_lookup(q, ks, cs, h, k2) == inode_lookup(p, ks, cs, h, k2));
    }
}

/// Replacing one child by two subtrees split at `s`, with `s` added to the keys.
proof fn lemma_inode_grow(
    q: Seq<NodeView>,
    ks: Seq<Seq<u8>>,
    cs: Seq<int>,
    h: int,
    lo: Option<Seq<u8>>,
    hi: Option<Seq<u8>>,
    c: int,
    l: int,
    s: Seq<u8>,
    r: int,
)
    requires
        h > 0,
        cs.len() == ks.len() + 1,
        keys_ok(ks, lo, hi),
        0 <= c < cs.len(),
        forall|i: int|
            0 <= i < cs.len() && i != c ==> wf_node(
                q,
                #[trigger] cs[i],
                h - 1,
                child_lo(ks, lo, i),
                child_hi(ks, hi, i),
            ),
        lo_lt(child_lo(ks, lo, c), s),
        hi_ok(child_hi(ks, hi, c), s),
        wf_node(q, l, h - 1, child_lo(ks, lo, c), Some(s)),
        wf_node(q, r, h - 1, Some(s), child_hi(ks, hi, c)),
    ensures
        inode_wf(q, ks.insert(c, s), cs.update(c, l).insert(c + 1, r), h, lo, hi),
        forall|k2: Seq<u8>| #[trigger]
            inode_lookup(q, ks.insert(c, s), cs.update(c, l).insert(c + 1, r), h, k2) == if route(
                ks,
                k2,
            ) == c {
                if lex_lt(k2, s) {
                    lookup(q, l, h - 1, k2)
                } else {
                    lookup(q, r, h - 1, k2)
                }
            } else {
                lookup(q, cs[route(ks, k2) as int], h - 1, k2)
            },
{
    lemma_lex_order();
    let nks = ks.insert(c, s);
    let ncs = cs.update(c, l).insert(c + 1, r);
    assert(lo_ok(lo, s) && hi_ok(hi, s)) by {
        if c > 0 {
            assert(within(lo, hi, ks[c - 1]));
        }
        if c < ks.len() {
            assert(within(lo, hi, ks[c]));
        }
    }
    assert(sorted(nks)) by {
        assert forall|a: int, b: int| 0 <= a < b < nks.len() implies lex_lt(nks[a], nks[b]) by {
            if a < c && b > c {
                if a < c - 1 {
                    assert(lex_lt(ks[a], ks[c - 1]));
                }
                if b > c + 1 {
                    assert(lex_lt(ks[c], ks[b - 1]));
                }
            } else if a > c {
                assert(lex_lt(ks[a - 1], ks[b - 1]));
            } else if b < c {
                assert(lex_lt(ks[a], ks[b]));
            } else if a == c {
                if b > c + 1 {
                    assert(lex_lt(ks[c], ks[b - 1]));
                }
            } else {
                if a < c - 1 {
                    assert(lex_lt(ks[a], ks[c - 1]));
                }
            }
        }
    }
    assert forall|i: int| 0 <= i < nks.len() implies within(lo, hi, #[trigger] nks[i]) by {
        if i < c {
            assert(nks[i] == ks[i]);
        } else if i > c {
            assert(nks[i] == ks[i - 1]);
        }
    }
    assert forall|i: int| 0 <= i < ncs.len() implies wf_node(
        q,
        #[trigger] ncs[i],
        h - 1,
        child_lo(nks, lo, i),
        child_hi(nks, hi, i),
    ) by {
        if i < c {
            assert(ncs[i] == cs[i]);
            assert(child_lo(nks, lo, i) == child_lo(ks, lo, i));
            assert(child_hi(nks, hi, i) == child_hi(ks, hi, i));
        } else if i == c {
            assert(child_lo(nks, lo, i) == child_lo(ks, lo, c));
        } else if i == c + 1 {
            assert(child_hi(nks, hi, i) == child_hi(ks, hi, c));
        } else {
            assert(ncs[i] == cs[i - 1]);
            assert(child_lo(nks, lo, i) == child_lo(ks, lo, i - 1));
            assert(child_hi(nks, hi, i) == child_hi(ks, hi, i - 1));
        }
    }
    assert forall|k2: Seq<u8>| #[trigger] inode_lookup(q, nks, ncs, h, k2) == if route(ks, k2) == c {
        if lex_lt(k2, s) {
            lookup(q, l, h - 1, k2)
        } else {
            lookup(q, r, h - 1, k2)
        }
    } else {
        lookup(q, cs[route(ks, k2) as int], h - 1, k2)
    } by {
        let j = route(ks, k2) as int;
        lemma_route_le(ks, k2);
        lemma_route_facts(ks, k2);
        if j < c {
            if j < c - 1 {
                assert(lex_lt(ks[j], ks[c - 1]));
            }
            lemma_route_char(nks, k2, j);
        } else if j > c {
            if j > c + 1 {
                assert(lex_lt(ks[c], ks[j - 1]));
            }
            lemma_route_char(nks, k2, j + 1);
        } else if lex_lt(k2, s) {
            lemma_route_char(nks, k2, c);
        } else {
            lemma_route_char(nks, k2, c + 1);
        }
    }
}

/// The keys around the child that `route` picks.
proof fn lemma_route_facts(ks: Seq<Seq<u8>>, k: Seq<u8>)
    requires
        sorted(ks),
    ensures
        route(ks, k) == 0 || !lex_lt(k, ks[route(ks, k) - 1]),
        route(ks, k) == ks.len() || lex_lt(k, ks[route(ks, k) as int]),
    decreases ks.len(),
{
    if ks.len() > 0 && lex_lt(k, ks.last()) {
        assert(sorted(ks.drop_last()));
        lemma_route_facts(ks.drop_last(), k);
        lemma_route_le(ks.drop_last(), k);
        lemma_lex_order();
        let j = route(ks, k) as int;
        if j < ks.len() - 1 {
            assert(ks.drop_last()[j] == ks[j]);
        }
    }
}

/// Splitting an internal node around its key `m`.
proof fn lemma_inode_split(
    q: Seq<NodeView>,
    ks: Seq<Seq<u8>>,
    cs: Seq<int>,
    h: int,
    lo: Option<Seq<u8>>,
    hi: Option<Seq<u8>>,
    m: int,
)
    requires
        inode_wf(q, ks, cs, h, lo, hi),
        1 <= m < ks.len() - 1,
    ensures
        inode_wf(q, ks.subrange(0, m), cs.subrange(0, m + 1), h, lo, Some(ks[m])),
        inode_wf(
            q,
            ks.subrange(m + 1, ks.len() as int),
            cs.subrange(m + 1, cs.len() as int),
            h,
            Some(ks[m]),
            hi,
        ),
        lo_lt(lo, ks[m]),
        hi_ok(hi, ks[m]),
        forall|k2: Seq<u8>| #[trigger] inode_lookup(q, ks, cs, h, k2) == if lex_lt(k2, ks[m]) {
            inode_lookup(q, ks.subrange(0, m), cs.subrange(0, m + 1), h, k2)
        } else {
            inode_lookup(q, ks.subrange(m + 1, ks.len() as int), cs.subrange(m + 1, cs.len() as int), h, k2)
        },
{
    lemma_lex_order();
    let n = ks.len() as int;
    let lk = ks.subrange(0, m);
    let lc = cs.subrange(0, m + 1);
    let rk = ks.subrange(m + 1, n);
    let rc = cs.subrange(m + 1, n + 1);
    assert(lex_lt(ks[0], ks[m]));
    assert(within(lo, hi, ks[0]));
    assert(within(lo, hi, ks[m]));
    assert forall|i: int| 0 <= i < lk.len() implies within(lo, Some(ks[m]), #[trigger] lk[i]) by {
        assert(lex_lt(ks[i], ks[m]));
        assert(within(lo, hi, ks[i]));
    }
    assert forall|i: int| 0 <= i < rk.len() implies within(Some(ks[m]), hi, #[trigger] rk[i]) by {
        assert(lex_lt(ks[m], ks[i + m + 1]));
        assert(within(lo, hi, ks[i + m + 1]));
    }
    assert forall|a: int, b: int| 0 <= a < b < rk.len() implies lex_lt(rk[a], rk[b]) by {
        assert(lex_lt(ks[a + m + 1], ks[b + m + 1]));
    }
    assert forall|i: int| 0 <= i < lc.len() implies wf_node(
        q,
        #[trigger] lc[i],
        h - 1,
        child_lo(lk, lo, i),
        child_hi(lk, Some(ks[m]), i),
    ) by {
        assert(lc[i] == cs[i]);
        assert(child_lo(lk, lo, i) == child_lo(ks, lo, i));
        assert(child_hi(lk, Some(ks[m]), i) == child_hi(ks, hi, i));
    }
    assert forall|i: int| 0 <= i < rc.len() implies wf_node(
        q,
        #[trigger] rc[i],
        h - 1,
        child_lo(rk, Some(ks[m]), i),
        child_hi(rk, hi, i),
    ) by {
        assert(rc[i] == cs[i + m + 1]);
        assert(child_lo(rk, Some(ks[m]), i) == child_lo(ks, lo, i + m + 1));
        assert(child_hi(rk, hi, i) == child_hi(ks, hi, i + m + 1));
    }
    assert forall|k2: Seq<u8>| #[trigger] inode_lookup(q, ks, cs, h, k2) == if lex_lt(k2, ks[m]) {
        inode_lookup(q, lk, lc, h, k2)
    } else {
        inode_lookup(q, rk, rc, h, k2)
    } by {
        let j = route(ks, k2) as int;
        lemma_route_le(ks, k2);
        lemma_route_facts(ks, k2);
        if lex_lt(k2, ks[m]) {
            if j > m {
                assert(!lex_lt(k2, ks[j - 1]));
                if j - 1 > m {
                    assert(lex_lt(ks[m], ks[j - 1]));
                }
            }
            if j > 0 {
                assert(lk[j - 1] == ks[j - 1]);
            }
            if j < m {
                assert(lk[j] == ks[j]);
            }
            lemma_route_char(lk, k2, j);
        } else {
            if j <= m {
                if j < m {
                    assert(lex_lt(ks[j], ks[m]));
                }
                assert(lex_lt(k2, ks[j]));
            }
            if j - m - 1 > 0 {
                assert(rk[j - m - 2] == ks[j - 1]);
            }
            if j < n {
                assert(rk[j - m - 1] == ks[j]);
            }
            lemma_route_char(rk, k2, j - m - 1);
        }
    }
}


/// What inserting into a subtree produced.
pub enum Outcome {
    /// The key was present for an insert, or absent for an update; nothing was written.
    Refused,
    /// One new subtree replaces the old one.
    One(usize),
    /// Two new subtrees, split at the key, replace the old one.
    Two(usize, Vec<u8>, usize),
}

/// The subtree at `id` with `k` set to `v`.
pub open spec fn updated(p: Seq<NodeView>, id: int, h: int, k: Seq<u8>, v: Seq<u8>, k2: Seq<u8>) -> Option<Seq<u8>> {
    if k2 == k {
        Some(v)
    } else {
        lookup(p, id, h, k2)
    }
}

/// What `insert_rec` promises, over the pages before (`p`) and after (`q`).
pub open spec fn insert_post(
    p: Seq<NodeView>,
    q: Seq<NodeView>,
    id: int,
    h: int,
    lo: Option<Seq<u8>>,
    hi: Option<Seq<u8>>,
    k: Seq<u8>,
    v: Seq<u8>,
    replace: bool,
    r: Outcome,
) -> bool {
    &&& extends(p, q)
    &&& match r {
        Outcome::Refused => (lookup(p, id, h, k) is Some) != replace && q == p,
        Outcome::One(n) => {
            &&& (lookup(p, id, h, k) is Some) == replace
            &&& wf_node(q, n as int, h, lo, hi)
            &&& forall|k2: Seq<u8>| #[trigger] lookup(q, n as int, h, k2) == updated(p, id, h, k, v, k2)
        },
        Outcome::Two(l, s, rr) => {
            &&& (lookup(p, id, h, k) is Some) == replace
            &&& lo_lt(lo, s@)
            &&& hi_ok(hi, s@)
            &&& wf_node(q, l as int, h, lo, Some(s@))
            &&& wf_node(q, rr as int, h, Some(s@), hi)
            &&& forall|k2: Seq<u8>| #[trigger] updated(p, id, h, k, v, k2) == if lex_lt(k2, s@) {
                lookup(q, l as int, h, k2)
            } else {
                lookup(q, rr as int, h, k2)
            }
        },
    }
}

proof fn lemma_push_extends(p: Seq<Node>, n: Node)
    ensures
        extends(pview(p), pview(p.push(n))),
        pview(p.push(n)).len() == p.len() + 1,
        pview(p.push(n))[p.len() as int] == n@,
{
    assert forall|i: int| 0 <= i < p.len() implies #[trigger] pview(p.push(n))[i] == pview(p)[i] by {
        assert(p.push(n)[i] == p[i]);
    }
}

proof fn lemma_extends_trans(a: Seq<NodeView>, b: Seq<NodeView>, c: Seq<NodeView>)
    requires
        extends(a, b),
        extends(b, c),
    ensures
        extends(a, c),
{
    assert forall|i: int| 0 <= i < a.len() implies #[trigger] c[i] == a[i] by {
        assert(c[i] == b[i]);
    }
}

/// What writing a node, split in two when it is over capacity, promises:
/// `look(k2)` is what the node would hold for `k2`.
pub open spec fn written(
    p: Seq<NodeView>,
    q: Seq<NodeView>,
    h: int,
    lo: Option<Seq<u8>>,
    hi: Option<Seq<u8>>,
    look: spec_fn(Seq<u8>) -> Option<Seq<u8>>,
    r: Outcome,
) -> bool {
    &&& extends(p, q)
    &&& match r {
        Outcome::Refused => false,
        Outcome::One(n) => {
            &&& wf_node(q, n as int, h, lo, hi)
            &&& forall|k2: Seq<u8>| #[trigger] lookup(q, n as int, h, k2) == look(k2)
        },
        Outcome::Two(l, s, rr) => {
            &&& lo_lt(lo, s@)
            &&& hi_ok(hi, s@)
            &&& wf_node(q, l as int, h, lo, Some(s@))
            &&& wf_node(q, rr as int, h, Some(s@), hi)
            &&& forall|k2: Seq<u8>| #[trigger] look(k2) == if lex_lt(k2, s@) {
                lookup(q, l as int, h, k2)
            } else {
                lookup(q, rr as int, h, k2)
            }
        },
    }
}

/// Writes a leaf, split in two halves if it holds more than `MAX_KEYS` keys.
fn write_leaf(
    pages: &mut Vec<Node>,
    keys: Vec<Vec<u8>>,
    vals: Vec<Vec<u8>>,
    Ghost(lo): Ghost<Option<Seq<u8>>>,
    Ghost(hi): Ghost<Option<Seq<u8>>>,
) -> (r: Outcome)
    requires
        keys@.len() == vals@.len(),
        1 <= keys@.len() <= MAX_KEYS + 1,
        keys_ok(kseq(keys@), lo, hi),
    ensures
        written(
            pview(old(pages)@),
            pview(final(pages)@),
            0,
            lo,
            hi,
            |k2: Seq<u8>| leaf_get(kseq(keys@), kseq(vals@), k2),
            r,
        ),
        r is One <==> keys@.len() <= MAX_KEYS,
{
    let ghost nks = kseq(keys@);
    let ghost nvs = kseq(vals@);
    if keys.len() <= MAX_KEYS {
        let ghost old_pages = pages@;
        pages.push(Node::Leaf { keys, vals });
        proof {
            lemma_push_extends(old_pages, pages@[old_pages.len() as int]);
            assert(pages@ == old_pages.push(pages@[old_pages.len() as int]));
        }
        return Outcome::One(pages.len() - 1);
    }
    let mut keys = keys;
    let mut vals = vals;
    let m: usize = keys.len() / 2;
    proof {
        lemma_leaf_split(nks, nvs, m as int);
        lemma_lex_order();
    }
    let rk = keys.split_off(m);
    let rv = vals.split_off(m);
    let s = copy_bytes(&rk[0]);
    assert(kseq(keys@) =~= nks.subrange(0, m as int));
    assert(kseq(vals@) =~= nvs.subrange(0, m as int));
    assert(kseq(rk@) =~= nks.subrange(m as int, nks.len() as int));
    assert(kseq(rv@) =~= nvs.subrange(m as int, nvs.len() as int));
    assert(s@ == nks[m as int]);
    proof {
        assert(lex_lt(nks[0], nks[m as int]));
        assert(within(lo, hi, nks[0]));
        assert(within(lo, hi, nks[m as int]));
        assert forall|j: int| 0 <= j < m implies within(lo, Some(s@), #[trigger] kseq(keys@)[j]) by {
            assert(kseq(keys@)[j] == nks[j]);
            assert(lex_lt(nks[j], nks[m as int]));
            assert(within(lo, hi, nks[j]));
        }
        assert forall|j: int| 0 <= j < kseq(rk@).len() implies within(Some(s@), hi, #[trigger] kseq(rk@)[j]) by {
            assert(kseq(rk@)[j] == nks[j + m]);
            assert(within(lo, hi, nks[j + m]));
            if j > 0 {
                assert(lex_lt(nks[m as int], nks[j + m]));
            }
        }
    }
    let ghost p0 = pages@;
    pages.push(Node::Leaf { keys, vals });
    let l = pages.len() - 1;
    let ghost p1 = pages@;
    pages.push(Node::Leaf { keys: rk, vals: rv });
    let r = pages.len() - 1;
    proof {
        lemma_push_extends(p0, p1[l as int]);
        assert(p1 == p0.push(p1[l as int]));
        lemma_push_extends(p1, pages@[r as int]);
        assert(pages@ == p1.push(pages@[r as int]));
        lemma_extends_trans(pview(p0), pview(p1), pview(pages@));
        assert(pview(pages@)[l as int] == pview(p1)[l as int]);
    }
    Outcome::Two(l, s, r)
}

/// Writes an internal node, split in two if it holds more than `MAX_KEYS` keys.
fn write_inode(
    pages: &mut Vec<Node>,
    keys: Vec<Vec<u8>>,
    children: Vec<usize>,
    h: usize,
    Ghost(lo): Ghost<Option<Seq<u8>>>,
    Ghost(hi): Ghost<Option<Seq<u8>>>,
) -> (r: Outcome)
    requires
        1 <= keys@.len() <= MAX_KEYS + 1,
        inode_wf(
            pview(old(pages)@),
            kseq(keys@),
            children@.map_values(|c: usize| c as int),
            h as int,
            lo,
            hi,
        ),
    ensures
        written(
            pview(old(pages)@),
            pview(final(pages)@),
            h as int,
            lo,
            hi,
            |k2: Seq<u8>|
                inode_lookup(
                    pview(old(pages)@),
                    kseq(keys@),
                    children@.map_values(|c: usize| c as int),
                    h as int,
                    k2,
                ),
            r,
        ),
{
    let ghost q = pview(pages@);
    let ghost nks = kseq(keys@);
    let ghost ncs = children@.map_values(|c: usize| c as int);
    if keys.len() <= MAX_KEYS {
        let ghost p0 = pages@;
        pages.push(Node::Internal { keys, children });
        let nid = pages.len() - 1;
        proof {
            lemma_push_extends(p0, pages@[nid as int]);
            assert(pages@ == p0.push(pages@[nid as int]));
            let q2 = pview(pages@);
            lemma_frame_inode(q, q2, nks, ncs, h as int, lo, hi);
            lemma_wf_inode(q2, nid as int, h as int, lo, hi);
        }
        return Outcome::One(nid);
    }
    let mut keys = keys;
    let mut children = children;
    let m: usize = keys.len() / 2;
    proof {
        lemma_inode_split(q, nks, ncs, h as int, lo, hi, m as int);
    }
    let rk = keys.split_off(m + 1);
    let rc = children.split_off(m + 1);
    let sep = keys.pop().unwrap();
    let ghost lks = nks.subrange(0, m as int);
    let ghost lcs = ncs.subrange(0, m + 1);
    let ghost rks = nks.subrange(m + 1, nks.len() as int);
    let ghost rcs = ncs.subrange(m + 1, ncs.len() as int);
    assert(kseq(keys@) =~= lks);
    assert(sep@ == nks[m as int]);
    assert(children@.map_values(|c: usize| c as int) =~= lcs);
    assert(kseq(rk@) =~= rks);
    assert(rc@.map_values(|c: usize| c as int) =~= rcs);
    let ghost p0 = pages@;
    pages.push(Node::Internal { keys, children });
    let nl = pages.len() - 1;
    let ghost p1 = pages@;
    pages.push(Node::Internal { keys: rk, children: rc });
    let nr = pages.len() - 1;
    proof {
        lemma_push_extends(p0, p1[nl as int]);
        assert(p1 == p0.push(p1[nl as int]));
        lemma_push_extends(p1, pages@[nr as int]);
        assert(pages@ == p1.push(pages@[nr as int]));
        let q1 = pview(p1);
        let q2 = pview(pages@);
        lemma_extends_trans(q, q1, q2);
        lemma_frame_inode(q, q2, lks, lcs, h as int, lo, Some(sep@));
        lemma_frame_inode(q, q2, rks, rcs, h as int, Some(sep@), hi);
        assert(q2[nl as int] == q1[nl as int]);
        lemma_wf_inode(q2, nl as int, h as int, lo, Some(sep@));
        lemma_wf_inode(q2, nr as int, h as int, Some(sep@), hi);
    }
    Outcome::Two(nl, sep, nr)
}


proof fn lemma_written_post(
    p: Seq<NodeView>,
    q: Seq<NodeView>,
    q2: Seq<NodeView>,
    id: int,
    h: int,
    lo: Option<Seq<u8>>,
    hi: Option<Seq<u8>>,
    k: Seq<u8>,
    v: Seq<u8>,
    look: spec_fn(Seq<u8>) -> Option<Seq<u8>>,
    replace: bool,
    r: Outcome,
)
    requires
        extends(p, q),
        written(q, q2, h, lo, hi, look, r),
        forall|k2: Seq<u8>| #[trigger] look(k2) == updated(p, id, h, k, v, k2),
        (lookup(p, id, h, k) is Some) == replace,
    ensures
        insert_post(p, q2, id, h, lo, hi, k, v, replace, r),
{
    lemma_extends_trans(p, q, q2);
    match r {
        Outcome::One(n) => {
            assert forall|k2: Seq<u8>| #[trigger] lookup(q2, n as int, h, k2) == updated(p, id, h, k, v, k2) by {
                assert(look(k2) == updated(p, id, h, k, v, k2));
            }
        },
        Outcome::Two(l, s, rr) => {
            assert forall|k2: Seq<u8>| #[trigger] updated(p, id, h, k, v, k2) == if lex_lt(k2, s@) {
                lookup(q2, l as int, h, k2)
            } else {
                lookup(q2, rr as int, h, k2)
            } by {
                assert(look(k2) == updated(p, id, h, k, v, k2));
            }
        },
        Outcome::Refused => {},
    }
}

/// After a child took the key as one new subtree and the node was rewritten.
proof fn lemma_after_one(
    p: Seq<NodeView>,
    q: Seq<NodeView>,
    q2: Seq<NodeView>,
    id: int,
    h: int,
    lo: Option<Seq<u8>>,
    hi: Option<Seq<u8>>,
    k: Seq<u8>,
    v: Seq<u8>,
    c: int,
    n: int,
    replace: bool,
    r: Outcome,
)
    requires
        wf_node(p, id, h, lo, hi),
        p[id] is Internal,
        c == route(p[id]->Internal_keys, k),
        insert_post(
            p,
            q,
            p[id]->Internal_children[c],
            h - 1,
            child_lo(p[id]->Internal_keys, lo, c),
            child_hi(p[id]->Internal_keys, hi, c),
            k,
            v,
            replace,
            Outcome::One(n as usize),
        ),
        n == n as usize,
        written(
            q,
            q2,
            h,
            lo,
            hi,
            |k2: Seq<u8>|
                inode_lookup(q, p[id]->Internal_keys, p[id]->Internal_children.update(c, n), h, k2),
            r,
        ),
    ensures
        insert_post(p, q2, id, h, lo, hi, k, v, replace, r),
{
    let ks = p[id]->Internal_keys;
    let cs = p[id]->Internal_children;
    lemma_wf_inode(p, id, h, lo, hi);
    lemma_route_le(ks, k);
    lemma_inode_replace(p, q, ks, cs, h, lo, hi, c, n);
    let look = |k2: Seq<u8>| inode_lookup(q, ks, cs.update(c, n), h, k2);
    assert forall|k2: Seq<u8>| #[trigger] look(k2) == updated(p, id, h, k, v, k2) by {
        lemma_route_le(ks, k2);
    }
    lemma_written_post(p, q, q2, id, h, lo, hi, k, v, look, replace, r);
}

/// After a child took the key by splitting in two and the node was rewritten.
proof fn lemma_after_two(
    p: Seq<NodeView>,
    q: Seq<NodeView>,
    q2: Seq<NodeView>,
    id: int,
    h: int,
    lo: Option<Seq<u8>>,
    hi: Option<Seq<u8>>,
    k: Seq<u8>,
    v: Seq<u8>,
    c: int,
    l: usize,
    s: Vec<u8>,
    rr: usize,
    replace: bool,
    r: Outcome,
)
    requires
        wf_node(p, id, h, lo, hi),
        p[id] is Internal,
        c == route(p[id]->Internal_keys, k),
        insert_post(
            p,
            q,
            p[id]->Internal_children[c],
            h - 1,
            child_lo(p[id]->Internal_keys, lo, c),
            child_hi(p[id]->Internal_keys, hi, c),
            k,
            v,
            replace,
            Outcome::Two(l, s, rr),
        ),
        written(
            q,
            q2,
            h,
            lo,
            hi,
            |k2: Seq<u8>|
                inode_lookup(
                    q,
                    p[id]->Internal_keys.insert(c, s@),
                    p[id]->Internal_children.update(c, l as int).insert(c + 1, rr as int),
                    h,
                    k2,
                ),
            r,
        ),
    ensures
        insert_post(p, q2, id, h, lo, hi, k, v, replace, r),
{
    let ks = p[id]->Internal_keys;
    let cs = p[id]->Internal_children;
    lemma_wf_inode(p, id, h, lo, hi);
    lemma_route_le(ks, k);
    lemma_frame_inode(p, q, ks, cs, h, lo, hi);
    lemma_inode_grow(q, ks, cs, h, lo, hi, c, l as int, s@, rr as int);
    let look = |k2: Seq<u8>|
        inode_lookup(q, ks.insert(c, s@), cs.update(c, l as int).insert(c + 1, rr as int), h, k2);
    assert forall|k2: Seq<u8>| #[trigger] look(k2) == updated(p, id, h, k, v, k2) by {
        lemma_route_le(ks, k2);
        assert(inode_lookup(q, ks, cs, h, k2) == inode_lookup(p, ks, cs, h, k2));
        assert(lookup(p, id, h, k2) == inode_lookup(p, ks, cs, h, k2));
        assert(updated(p, cs[c], h - 1, k, v, k2) == if lex_lt(k2, s@) {
            lookup(q, l as int, h - 1, k2)
        } else {
            lookup(q, rr as int, h - 1, k2)
        });
    }
    lemma_written_post(p, q, q2, id, h, lo, hi, k, v, look, replace, r);
}

/// Sets `k` to `v` in the leaf at `id`, whose contents are `keys` and `vals`:
/// adds it if `replace` is false and it is absent, or changes its value if
/// `replace` is true and it is present.
fn insert_leaf(
    pages: &mut Vec<Node>,
    keys: Vec<Vec<u8>>,
    vals: Vec<Vec<u8>>,
    k: &Vec<u8>,
    v: &Vec<u8>,
    replace: bool,
    Ghost(id): Ghost<int>,
    Ghost(lo): Ghost<Option<Seq<u8>>>,
    Ghost(hi): Ghost<Option<Seq<u8>>>,
) -> (r: Outcome)
    requires
        wf_node(pview(old(pages)@), id, 0, lo, hi),
        pview(old(pages)@)[id] == (NodeView::Leaf { keys: kseq(keys@), vals: kseq(vals@) }),
        within(lo, hi, k@),
    ensures
        insert_post(pview(old(pages)@), pview(final(pages)@), id, 0, lo, hi, k@, v@, replace, r),
        !replace && !(r is Refused) ==> (r is Two <==> keys@.len() == MAX_KEYS),
{
    let ghost p = pview(pages@);
    let ghost ks = kseq(keys@);
    let ghost vs = kseq(vals@);
    let i = lower_bound(&keys, k);
    if i < keys.len() && compare_keys(keys[i].as_slice(), k.as_slice()) == 0 {
        proof {
            assert(ks[i as int] == keys@[i as int]@);
            lemma_leaf_get_at(ks, vs, i as int);
        }
        if !replace {
            return Outcome::Refused;
        }
        proof {
            lemma_leaf_replace(ks, vs, i as int, v@);
        }
        let mut vals = vals;
        let cv = copy_bytes(v);
        vals.set(i, cv);
        assert(kseq(vals@) =~= vs.update(i as int, v@));
        let ghost look = |k2: Seq<u8>| leaf_get(ks, vs.update(i as int, v@), k2);
        let r = write_leaf(pages, keys, vals, Ghost(lo), Ghost(hi));
        proof {
            lemma_written_post(p, p, pview(pages@), id, 0, lo, hi, k@, v@, look, replace, r);
        }
        return r;
    }
    proof {
        lemma_lex_order();
        if i < keys.len() {
            assert(ks[i as int] == keys@[i as int]@);
        }
        lemma_leaf_absent(ks, vs, k@, i as int);
    }
    if replace {
        return Outcome::Refused;
    }
    proof {
        assert forall|j: int| i <= j < ks.len() implies lex_lt(k@, #[trigger] ks[j]) by {
            if ks[j] == k@ {
                assert(j != i);
                assert(lex_lt(ks[i as int], ks[j]));
            }
        }
        lemma_leaf_insert(ks, vs, i as int, k@, v@);
    }
    let mut keys = keys;
    let mut vals = vals;
    let ck = copy_bytes(k);
    let cv = copy_bytes(v);
    keys.insert(i, ck);
    vals.insert(i, cv);
    let ghost nks = ks.insert(i as int, k@);
    let ghost nvs = vs.insert(i as int, v@);
    assert(kseq(keys@) =~= nks);
    assert(kseq(vals@) =~= nvs);
    proof {
        assert forall|j: int| 0 <= j < nks.len() implies within(lo, hi, #[trigger] nks[j]) by {
            if j < i {
                assert(nks[j] == ks[j]);
            } else if j > i {
                assert(nks[j] == ks[j - 1]);
            }
        }
    }
    let ghost look = |k2: Seq<u8>| leaf_get(nks, nvs, k2);
    let r = write_leaf(pages, keys, vals, Ghost(lo), Ghost(hi));
    proof {
        lemma_written_post(p, p, pview(pages@), id, 0, lo, hi, k@, v@, look, replace, r);
    }
    r
}

proof fn lemma_leaf_replace(ks: Seq<Seq<u8>>, vs: Seq<Seq<u8>>, i: int, v: Seq<u8>)
    requires
        sorted(ks),
        ks.len() == vs.len(),
        0 <= i < ks.len(),
    ensures
        forall|k2: Seq<u8>| #[trigger] leaf_get(ks, vs.update(i, v), k2) == if k2 == ks[i] {
            Some(v)
        } else {
            leaf_get(ks, vs, k2)
        },
{
    assert forall|k2: Seq<u8>| #[trigger] leaf_get(ks, vs.update(i, v), k2) == if k2 == ks[i] {
        Some(v)
    } else {
        leaf_get(ks, vs, k2)
    } by {
        lemma_leaf_get_at(ks, vs.update(i, v), i);
        if exists|j: int| 0 <= j < ks.len() && ks[j] == k2 {
            let j = choose|j: int| 0 <= j < ks.len() && ks[j] == k2;
            lemma_leaf_get_at(ks, vs, j);
            lemma_leaf_get_at(ks, vs.update(i, v), j);
        }
    }
}

/// Inserts `k` with `v` into the subtree at `id`, writing new pages for every
/// node on the path and leaving all existing pages untouched.
fn insert_rec(
    pages: &mut Vec<Node>,
    id: usize,
    h: usize,
    k: &Vec<u8>,
    v: &Vec<u8>,
    replace: bool,
    Ghost(lo): Ghost<Option<Seq<u8>>>,
    Ghost(hi): Ghost<Option<Seq<u8>>>,
) -> (r: Outcome)
    requires
        wf_node(pview(old(pages)@), id as int, h as int, lo, hi),
        within(lo, hi, k@),
    ensures
        insert_post(
            pview(old(pages)@),
            pview(final(pages)@),
            id as int,
            h as int,
            lo,
            hi,
            k@,
            v@,
            replace,
            r,
        ),
        h == 0 && !replace && !(r is Refused) ==> (r is Two <==> pview(old(pages)@)[id as int]->Leaf_keys.len() == MAX_KEYS),
    decreases h,
{
    let ghost p = pview(pages@);
    assert(p[id as int] == pages@[id as int]@);
    let node = copy_node(&pages[id]);
    match node {
        Node::Leaf { keys, vals } => {
            insert_leaf(pages, keys, vals, k, v, replace, Ghost(id as int), Ghost(lo), Ghost(hi))
        },
        Node::Internal { keys, children } => {
            proof {
                lemma_wf_inode(p, id as int, h as int, lo, hi);
            }
            let ghost ks = kseq(keys@);
            let ghost cs = children@.map_values(|c: usize| c as int);
            let c = child_index(&keys, k);
            let child = children[c];
            assert(cs[c as int] == child as int);
            let res = insert_rec(
                pages,
                child,
                h - 1,
                k,
                v,
                replace,
                Ghost(child_lo(ks, lo, c as int)),
                Ghost(child_hi(ks, hi, c as int)),
            );
            let ghost q = pview(pages@);
            match res {
                Outcome::Refused => Outcome::Refused,
                Outcome::One(n) => {
                    proof {
                        lemma_inode_replace(p, q, ks, cs, h as int, lo, hi, c as int, n as int);
                    }
                    let mut children = children;
                    children.set(c, n);
                    assert(children@.map_values(|c: usize| c as int) =~= cs.update(c as int, n as int));
                    let r = write_inode(pages, keys, children, h, Ghost(lo), Ghost(hi));
                    proof {
                        lemma_after_one(p, q, pview(pages@), id as int, h as int, lo, hi, k@, v@, c as int, n as int, replace, r);
                    }
                    r
                },
                Outcome::Two(l, s, rr) => {
                    proof {
                        lemma_frame_inode(p, q, ks, cs, h as int, lo, hi);
                        lemma_inode_grow(q, ks, cs, h as int, lo, hi, c as int, l as int, s@, rr as int);
                    }
                    let ghost s0 = s;
                    let mut keys = keys;
                    let mut children = children;
                    keys.insert(c, s);
                    children.set(c, l);
                    children.insert(c + 1, rr);
                    assert(kseq(keys@) =~= ks.insert(c as int, s0@));
                    assert(children@.map_values(|c: usize| c as int) =~= cs.update(c as int, l as int).insert(c + 1, rr as int));
                    let r = write_inode(pages, keys, children, h, Ghost(lo), Ghost(hi));
                    proof {
                        lemma_after_two(p, q, pview(pages@), id as int, h as int, lo, hi, k@, v@, c as int, l, s0, rr, replace, r);
                    }
                    r
                },
            }
        },
    }
}


/// Sets `k` to `v` in the tree rooted at `root`, of height `height`: adds it
/// when `replace` is false, changes its value when `replace` is true. Returns
/// the new root and height, or `None` when the key was present for an add or
/// absent for a change, in which case nothing is written. Existing pages are
/// never modified.
pub fn tree_set(
    pages: &mut Vec<Node>,
    root: usize,
    height: usize,
    k: &Vec<u8>,
    v: &Vec<u8>,
    replace: bool,
) -> (r: Option<(usize, usize)>)
    requires
        wf_node(pview(old(pages)@), root as int, height as int, None, None),
        height < old(pages)@.len(),
    ensures
        extends(pview(old(pages)@), pview(final(pages)@)),
        r is None <==> (lookup(pview(old(pages)@), root as int, height as int, k@) is Some) != replace,
        r is None ==> pview(final(pages)@) == pview(old(pages)@),
        r matches Some((nr, nh)) ==> {
            &&& wf_node(pview(final(pages)@), nr as int, nh as int, None, None)
            &&& nh < final(pages)@.len()
            &&& nh == height || nh == height + 1
            &&& nh == height + 1 ==> (pview(final(pages)@)[nr as int] matches NodeView::Internal { keys, children }
                && keys.len() == 1 && children.len() == 2)
            &&& height == 0 && !replace ==> (nh == 1 <==> pview(old(pages)@)[root as int]->Leaf_keys.len() == MAX_KEYS)
            &&& forall|k2: Seq<u8>| #[trigger] lookup(pview(final(pages)@), nr as int, nh as int, k2)
                == updated(pview(old(pages)@), root as int, height as int, k@, v@, k2)
        },
{
    let ghost p = pview(pages@);
    let res = insert_rec(pages, root, height, k, v, replace, Ghost(None), Ghost(None));
    match res {
        Outcome::Refused => None,
        Outcome::One(n) => Some((n, height)),
        Outcome::Two(l, s, rr) => {
            let ghost q = pview(pages@);
            let ghost sv = s@;
            let mut keys: Vec<Vec<u8>> = Vec::new();
            keys.push(s);
            let mut children: Vec<usize> = Vec::new();
            children.push(l);
            children.push(rr);
            let ghost ks = kseq(keys@);
            let ghost cs = children@.map_values(|c: usize| c as int);
            assert(ks =~= seq![sv]);
            assert(cs =~= seq![l as int, rr as int]);
            proof {
                lemma_lex_order();
                assert(keys_ok(ks, None, None));
                assert forall|i: int| 0 <= i < cs.len() implies wf_node(
                    q,
                    #[trigger] cs[i],
                    height as int,
                    child_lo(ks, None, i),
                    child_hi(ks, None, i),
                ) by {
                    if i == 0 {
                        assert(cs[i] == l as int);
                    } else {
                        assert(cs[i] == rr as int);
                    }
                }
                assert(inode_wf(q, ks, cs, height as int + 1, None, None));
            }
            let ghost p0 = pages@;
            pages.push(Node::Internal { keys, children });
            let nr = pages.len() - 1;
            proof {
                lemma_push_extends(p0, pages@[nr as int]);
                assert(pages@ == p0.push(pages@[nr as int]));
                let q2 = pview(pages@);
                lemma_frame_inode(q, q2, ks, cs, height as int + 1, None, None);
                lemma_wf_inode(q2, nr as int, height as int + 1, None, None);
                lemma_extends_trans(p, q, q2);
                assert forall|k2: Seq<u8>| #[trigger] lookup(q2, nr as int, height as int + 1, k2)
                    == updated(p, root as int, height as int, k@, v@, k2) by {
                    assert(inode_lookup(q2, ks, cs, height as int + 1, k2) == inode_lookup(q, ks, cs, height as int + 1, k2));
                    if lex_lt(k2, sv) {
                        lemma_route_char(ks, k2, 0);
                    } else {
                        lemma_route_char(ks, k2, 1);
                    }
                }
                assert(q2[nr as int] == pages@[nr as int]@);
            }
            Some((nr, height + 1))
        },
    }
}


/// The keys of a list of entries.
pub open spec fn ekeys(e: Seq<(Vec<u8>, Vec<u8>)>) -> Seq<Seq<u8>> {
    e.map_values(|x: (Vec<u8>, Vec<u8>)| x.0@)
}

/// The values of a list of entries.
pub open spec fn evals(e: Seq<(Vec<u8>, Vec<u8>)>) -> Seq<Seq<u8>> {
    e.map_values(|x: (Vec<u8>, Vec<u8>)| x.1@)
}

proof fn lemma_get_concat(ka: Seq<Seq<u8>>, va: Seq<Seq<u8>>, kb: Seq<Seq<u8>>, vb: Seq<Seq<u8>>, k: Seq<u8>)
    requires
        sorted(ka + kb),
        ka.len() == va.len(),
        kb.len() == vb.len(),
    ensures
        leaf_get(ka + kb, va + vb, k) == if leaf_get(ka, va, k) is Some {
            leaf_get(ka, va, k)
        } else {
            leaf_get(kb, vb, k)
        },
{
    let kk = ka + kb;
    let vv = va + vb;
    assert(sorted(ka)) by {
        assert forall|a: int, b: int| 0 <= a < b < ka.len() implies lex_lt(ka[a], ka[b]) by {
            assert(kk[a] == ka[a] && kk[b] == ka[b]);
        }
    }
    assert(sorted(kb)) by {
        assert forall|a: int, b: int| 0 <= a < b < kb.len() implies lex_lt(kb[a], kb[b]) by {
            assert(kk[a + ka.len()] == kb[a] && kk[b + ka.len()] == kb[b]);
        }
    }
    if exists|j: int| 0 <= j < ka.len() && ka[j] == k {
        let j = choose|j: int| 0 <= j < ka.len() && ka[j] == k;
        lemma_leaf_get_at(ka, va, j);
        assert(kk[j] == ka[j] && vv[j] == va[j]);
        lemma_leaf_get_at(kk, vv, j);
    } else if exists|j: int| 0 <= j < kb.len() && kb[j] == k {
        let j = choose|j: int| 0 <= j < kb.len() && kb[j] == k;
        lemma_leaf_get_at(kb, vb, j);
        assert(kk[j + ka.len()] == kb[j] && vv[j + ka.len()] == vb[j]);
        lemma_leaf_get_at(kk, vv, j + ka.len());
    } else {
        if exists|j: int| 0 <= j < kk.len() && kk[j] == k {
            let j = choose|j: int| 0 <= j < kk.len() && kk[j] == k;
            if j < ka.len() {
                assert(ka[j] == k);
            } else {
                assert(kb[j - ka.len()] == k);
            }
        }
    }
}

proof fn lemma_get_outside(ks: Seq<Seq<u8>>, vs: Seq<Seq<u8>>, lo: Option<Seq<u8>>, hi: Option<Seq<u8>>, k: Seq<u8>)
    requires
        forall|i: int| 0 <= i < ks.len() ==> within(lo, hi, #[trigger] ks[i]),
        !within(lo, hi, k),
    ensures
        leaf_get(ks, vs, k) is None,
{
}

/// Every entry of the subtree at `id`, in increasing key order.
pub(crate) fn collect(pages: &Vec<Node>, id: usize, h: usize, Ghost(lo): Ghost<Option<Seq<u8>>>, Ghost(hi): Ghost<Option<Seq<u8>>>) -> (r: Vec<(Vec<u8>, Vec<u8>)>)
    requires
        wf_node(pview(pages@), id as int, h as int, lo, hi),
    ensures
        keys_ok(ekeys(r@), lo, hi),
        forall|k: Seq<u8>| #[trigger] leaf_get(ekeys(r@), evals(r@), k) == lookup(pview(pages@), id as int, h as int, k),
    decreases h,
{
    let ghost p = pview(pages@);
    assert(p[id as int] == pages@[id as int]@);
    let mut out: Vec<(Vec<u8>, Vec<u8>)> = Vec::new();
    match &pages[id] {
        Node::Leaf { keys, vals } => {
            let ghost ks = kseq(keys@);
            let ghost vs = kseq(vals@);
            let mut i: usize = 0;
            while i < keys.len()
                invariant
                    i <= keys@.len(),
                    keys@.len() == vals@.len(),
                    ekeys(out@) == ks.subrange(0, i as int),
                    evals(out@) == vs.subrange(0, i as int),
                    ks == kseq(keys@),
                    vs == kseq(vals@),
                decreases keys.len() - i,
            {
                let ck = copy_bytes(&keys[i]);
                let cv = copy_bytes(&vals[i]);
                let ghost old_out = out@;
                out.push((ck, cv));
                proof {
                    assert(out@ == old_out.push((ck, cv)));
                    assert(ks[i as int] == ck@);
                    assert(vs[i as int] == cv@);
                    assert(ekeys(old_out).len() == old_out.len());
                }
                i = i + 1;
                assert(ekeys(out@) =~= ks.subrange(0, i as int));
                assert(evals(out@) =~= vs.subrange(0, i as int));
            }
            assert(ekeys(out@) =~= ks);
            assert(evals(out@) =~= vs);
            out
        },
        Node::Internal { keys, children } => {
            proof {
                lemma_wf_inode(p, id as int, h as int, lo, hi);
                lemma_lex_order();
            }
            let ghost ks = kseq(keys@);
            let ghost cs = children@.map_values(|c: usize| c as int);
            let mut i: usize = 0;
            while i < children.len()
                invariant
                    i <= children@.len(),
                    p == pview(pages@),
                    ks == kseq(keys@),
                    cs == children@.map_values(|c: usize| c as int),
                    inode_wf(p, ks, cs, h as int, lo, hi),
                    keys_ok(ekeys(out@), lo, hi),
                    i == 0 ==> out@.len() == 0,
                    i > 0 ==> forall|j: int| 0 <= j < out@.len() ==> hi_ok(child_hi(ks, hi, i - 1), #[trigger] ekeys(out@)[j]),
                    forall|k: Seq<u8>| #[trigger] leaf_get(ekeys(out@), evals(out@), k) == if route(ks, k) < i {
                        inode_lookup(p, ks, cs, h as int, k)
                    } else {
                        None
                    },
                decreases children.len() - i,
            {
                proof {
                    lemma_lex_order();
                }
                assert(cs[i as int] == children@[i as int] as int);
                let mut sub = collect(pages, children[i], h - 1, Ghost(child_lo(ks, lo, i as int)), Ghost(child_hi(ks, hi, i as int)));
                let ghost a = out@;
                let ghost b = sub@;
                let ghost clo = child_lo(ks, lo, i as int);
                let ghost chi = child_hi(ks, hi, i as int);
                out.append(&mut sub);
                assert(ekeys(out@) =~= ekeys(a) + ekeys(b));
                assert(evals(out@) =~= evals(a) + evals(b));
                proof {
                    let kk = ekeys(a) + ekeys(b);
                    assert forall|j: int| 0 <= j < ekeys(b).len() implies within(lo, hi, #[trigger] ekeys(b)[j]) by {
                        assert(within(clo, chi, ekeys(b)[j]));
                        if i > 0 {
                            assert(within(lo, hi, ks[i - 1]));
                        }
                        if i < ks.len() {
                            assert(within(lo, hi, ks[i as int]));
                        }
                    }
                    assert forall|x: int, y: int| 0 <= x < y < kk.len() implies lex_lt(kk[x], kk[y]) by {
                        if y < a.len() {
                            assert(kk[x] == ekeys(a)[x] && kk[y] == ekeys(a)[y]);
                        } else if x >= a.len() {
                            assert(kk[x] == ekeys(b)[x - a.len()] && kk[y] == ekeys(b)[y - a.len()]);
                        } else {
                            assert(kk[x] == ekeys(a)[x] && kk[y] == ekeys(b)[y - a.len()]);
                            assert(i > 0);
                            assert(hi_ok(child_hi(ks, hi, i - 1), ekeys(a)[x]));
                            assert(within(clo, chi, ekeys(b)[y - a.len()]));
                        }
                    }
                    assert forall|j: int| 0 <= j < kk.len() implies within(lo, hi, #[trigger] kk[j]) by {
                        if j < a.len() {
                            assert(kk[j] == ekeys(a)[j]);
                        } else {
                            assert(kk[j] == ekeys(b)[j - a.len()]);
                        }
                    }
                    assert forall|j: int| 0 <= j < kk.len() implies hi_ok(chi, #[trigger] kk[j]) by {
                        if j < a.len() {
                            assert(kk[j] == ekeys(a)[j]);
                            assert(hi_ok(child_hi(ks, hi, i - 1), ekeys(a)[j]));
                            if i < ks.len() {
                                assert(lex_lt(ks[i - 1], ks[i as int]));
                            }
                        } else {
                            assert(kk[j] == ekeys(b)[j - a.len()]);
                        }
                    }
                    assert forall|k: Seq<u8>| #[trigger] leaf_get(kk, evals(a) + evals(b), k) == if route(ks, k) < i + 1 {
                        inode_lookup(p, ks, cs, h as int, k)
                    } else {
                        None
                    } by {
                        lemma_get_concat(ekeys(a), evals(a), ekeys(b), evals(b), k);
                        lemma_route_le(ks, k);
                        lemma_route_facts(ks, k);
                        let j = route(ks, k) as int;
                        if j < i {
                            if j < i - 1 {
                                assert(lex_lt(ks[j], ks[i - 1]));
                            }
                            lemma_get_outside(ekeys(b), evals(b), clo, chi, k);
                        } else if j > i {
                            if j > i + 1 {
                                assert(lex_lt(ks[i as int], ks[j - 1]));
                            }
                            lemma_get_outside(ekeys(b), evals(b), clo, chi, k);
                        }
                    }
                }
                i = i + 1;
            }
            proof {
                assert forall|k: Seq<u8>| #[trigger] leaf_get(ekeys(out@), evals(out@), k) == lookup(p, id as int, h as int, k) by {
                    lemma_route_le(ks, k);
                }
            }
            out
        },
    }
}

} // verus!
