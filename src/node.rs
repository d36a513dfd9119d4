//! B-tree nodes: leaves of sorted (key, value) pairs and internal routing nodes.
use vstd::prelude::*;
use crate::key::{compare_keys, lemma_lex_order, lex_lt};

verus! {

/// Longest key accepted, in bytes.
pub const MAX_KEY_SIZE: usize = 100;

/// Longest value accepted, in bytes.
pub const MAX_VALUE_SIZE: usize = 100;

/// Most keys a node holds before it must split; with the size limits above a
/// full node fits a 4096-byte page.
pub const MAX_KEYS: usize = 16;

/// A node of the tree as it is stored in a page.
/// An internal node has one more child than it has keys: child `i` covers the
/// keys below `keys[i]` and at or above `keys[i - 1]`.
#[derive(Debug, PartialEq, Eq)]
pub enum Node {
    Leaf { keys: Vec<Vec<u8>>, vals: Vec<Vec<u8>> },
    Internal { keys: Vec<Vec<u8>>, children: Vec<usize> },
}

/// The byte strings held by a vector of vectors.
pub open spec fn kseq(s: Seq<Vec<u8>>) -> Seq<Seq<u8>> {
    s.map_values(|x: Vec<u8>| x@)
}

/// Strictly increasing.
pub open spec fn sorted(ks: Seq<Seq<u8>>) -> bool {
    forall|i: int, j: int| 0 <= i < j < ks.len() ==> lex_lt(ks[i], ks[j])
}

/// The value that a sorted leaf holds for `k`.
pub open spec fn leaf_get(ks: Seq<Seq<u8>>, vs: Seq<Seq<u8>>, k: Seq<u8>) -> Option<Seq<u8>> {
    if exists|i: int| 0 <= i < ks.len() && ks[i] == k {
        Some(vs[choose|i: int| 0 <= i < ks.len() && ks[i] == k])
    } else {
        None
    }
}

/// The child of an internal node that covers `k`: how many keys are at or below `k`.
pub open spec fn route(ks: Seq<Seq<u8>>, k: Seq<u8>) -> nat
    decreases ks.len(),
{
    if ks.len() == 0 {
        0
    } else if lex_lt(k, ks.last()) {
        route(ks.drop_last(), k)
    } else {
        ks.len()
    }
}

pub proof fn lemma_leaf_get_at(ks: Seq<Seq<u8>>, vs: Seq<Seq<u8>>, i: int)
    requires
        sorted(ks),
        0 <= i < ks.len(),
    ensures
        leaf_get(ks, vs, ks[i]) == Some(vs[i]),
{
    lemma_lex_order();
    let j = choose|j: int| 0 <= j < ks.len() && ks[j] == ks[i];
    if j != i {
        if j < i {
            assert(lex_lt(ks[j], ks[i]));
        } else {
            assert(lex_lt(ks[i], ks[j]));
        }
    }
}

/// `j` is the child index of `k` exactly when `k` lies between the keys around `j`.
pub proof fn lemma_route_char(ks: Seq<Seq<u8>>, k: Seq<u8>, j: int)
    requires
        sorted(ks),
        0 <= j <= ks.len(),
        j == 0 || !lex_lt(k, ks[j - 1]),
        j == ks.len() || lex_lt(k, ks[j]),
    ensures
        route(ks, k) == j,
    decreases ks.len(),
{
    lemma_lex_order();
    if ks.len() > 0 {
        let n = ks.len() - 1;
        if lex_lt(k, ks.last()) {
            assert(j != ks.len());
            assert(sorted(ks.drop_last()));
            lemma_route_char(ks.drop_last(), k, j);
        } else if j < ks.len() {
            if j < n {
                assert(lex_lt(ks[j], ks[n]));
            }
            assert(false);
        }
    }
}

/// First index whose key is not below `k`.
pub fn lower_bound(keys: &Vec<Vec<u8>>, k: &Vec<u8>) -> (r: usize)
    requires
        sorted(kseq(keys@)),
    ensures
        r <= keys@.len(),
        forall|j: int| 0 <= j < r ==> lex_lt(#[trigger] kseq(keys@)[j], k@),
        forall|j: int| r <= j < keys@.len() ==> !lex_lt(#[trigger] kseq(keys@)[j], k@),
{
    proof {
        lemma_lex_order();
    }
    let ghost ks = kseq(keys@);
    let mut lo: usize = 0;
    let mut hi: usize = keys.len();
    while lo < hi
        invariant
            lo <= hi <= keys@.len(),
            ks == kseq(keys@),
            sorted(ks),
            forall|j: int| 0 <= j < lo ==> lex_lt(#[trigger] ks[j], k@),
            forall|j: int| hi <= j < keys@.len() ==> !lex_lt(#[trigger] ks[j], k@),
        decreases hi - lo,
    {
        proof {
            lemma_lex_order();
        }
        let mid: usize = lo + (hi - lo) / 2;
        let c = compare_keys(keys[mid].as_slice(), k.as_slice());
        assert(ks[mid as int] == keys@[mid as int]@);
        if c < 0 {
            proof {
                assert forall|j: int| 0 <= j < mid + 1 implies lex_lt(#[trigger] ks[j], k@) by {
                    if j < mid {
                        assert(lex_lt(ks[j], ks[mid as int]));
                    }
                }
            }
            lo = mid + 1;
        } else {
            proof {
                assert forall|j: int| mid <= j < keys@.len() implies !lex_lt(#[trigger] ks[j], k@) by {
                    if j > mid {
                        assert(lex_lt(ks[mid as int], ks[j]));
                        if ks[mid as int] != k@ {
                            assert(lex_lt(k@, ks[mid as int]));
                        }
                    }
                }
            }
            hi = mid;
        }
    }
    lo
}

/// The child of an internal node that covers `k`.
pub fn child_index(keys: &Vec<Vec<u8>>, k: &Vec<u8>) -> (r: usize)
    requires
        sorted(kseq(keys@)),
    ensures
        r == route(kseq(keys@), k@),
        r <= keys@.len(),
        r == 0 || !lex_lt(k@, kseq(keys@)[r - 1]),
        r == keys@.len() || lex_lt(k@, kseq(keys@)[r as int]),
{
    proof {
        lemma_lex_order();
    }
    let ghost ks = kseq(keys@);
    let mut lo: usize = 0;
    let mut hi: usize = keys.len();
    while lo < hi
        invariant
            lo <= hi <= keys@.len(),
            ks == kseq(keys@),
            sorted(ks),
            forall|j: int| 0 <= j < lo ==> !lex_lt(k@, #[trigger] ks[j]),
            forall|j: int| hi <= j < keys@.len() ==> lex_lt(k@, #[trigger] ks[j]),
        decreases hi - lo,
    {
        proof {
            lemma_lex_order();
        }
        let mid: usize = lo + (hi - lo) / 2;
        let c = compare_keys(k.as_slice(), keys[mid].as_slice());
        assert(ks[mid as int] == keys@[mid as int]@);
        if c < 0 {
            proof {
                assert forall|j: int| mid <= j < keys@.len() implies lex_lt(k@, #[trigger] ks[j]) by {
                    if j > mid {
                        assert(lex_lt(ks[mid as int], ks[j]));
                    }
                }
            }
            hi = mid;
        } else {
            proof {
                assert forall|j: int| 0 <= j < mid + 1 implies !lex_lt(k@, #[trigger] ks[j]) by {
                    if j < mid {
                        assert(lex_lt(ks[j], ks[mid as int]));
                        if ks[mid as int] != k@ {
                            assert(lex_lt(ks[mid as int], k@));
                        }
                    }
                }
            }
            lo = mid + 1;
        }
    }
    proof {
        lemma_route_char(ks, k@, lo as int);
    }
    lo
}

/// A copy of a byte string.
pub fn copy_bytes(b: &Vec<u8>) -> (r: Vec<u8>)
    ensures
        r@ == b@,
{
    let mut r: Vec<u8> = Vec::new();
    let mut i: usize = 0;
    while i < b.len()
        invariant
            i <= b@.len(),
            r@ == b@.subrange(0, i as int),
        decreases b.len() - i,
    {
        r.push(b[i]);
        i = i + 1;
        assert(r@ =~= b@.subrange(0, i as int));
    }
    assert(r@ =~= b@);
    r
}

/// A copy of the byte strings `s[lo..hi]`.
pub fn copy_range(s: &Vec<Vec<u8>>, lo: usize, hi: usize) -> (r: Vec<Vec<u8>>)
    requires
        lo <= hi <= s@.len(),
    ensures
        kseq(r@) == kseq(s@).subrange(lo as int, hi as int),
{
    let mut r: Vec<Vec<u8>> = Vec::new();
    let mut i: usize = lo;
    while i < hi
        invariant
            lo <= i <= hi <= s@.len(),
            kseq(r@) == kseq(s@).subrange(lo as int, i as int),
        decreases hi - i,
    {
        let c = copy_bytes(&s[i]);
        let ghost old_r = r@;
        r.push(c);
        proof {
            assert(r@ == old_r.push(c));
            assert(kseq(old_r).len() == old_r.len());
            assert(r@.len() == i + 1 - lo);
            assert forall|j: int| 0 <= j < r@.len() implies kseq(r@)[j] == kseq(s@).subrange(
                lo as int,
                i + 1,
            )[j] by {
                if j < old_r.len() {
                    assert(kseq(old_r)[j] == kseq(s@).subrange(lo as int, i as int)[j]);
                }
            }
        }
        i = i + 1;
        assert(kseq(r@) =~= kseq(s@).subrange(lo as int, i as int));
    }
    r
}

/// A copy of the page ids `s[lo..hi]`.
pub fn copy_ids(s: &Vec<usize>, lo: usize, hi: usize) -> (r: Vec<usize>)
    requires
        lo <= hi <= s@.len(),
    ensures
        r@ == s@.subrange(lo as int, hi as int),
{
    let mut r: Vec<usize> = Vec::new();
    let mut i: usize = lo;
    while i < hi
        invariant
            lo <= i <= hi <= s@.len(),
            r@ == s@.subrange(lo as int, i as int),
        decreases hi - i,
    {
        r.push(s[i]);
        i = i + 1;
        assert(r@ =~= s@.subrange(lo as int, i as int));
    }
    r
}

} // verus!

verus! {

/// What a node holds, as mathematical values.
pub enum NodeView {
    Leaf { keys: Seq<Seq<u8>>, vals: Seq<Seq<u8>> },
    Internal { keys: Seq<Seq<u8>>, children: Seq<int> },
}

impl View for Node {
    type V = NodeView;

    open spec fn view(&self) -> NodeView {
        match self {
            Node::Leaf { keys, vals } => NodeView::Leaf { keys: kseq(keys@), vals: kseq(vals@) },
            Node::Internal { keys, children } => NodeView::Internal {
                keys: kseq(keys@),
                children: children@.map_values(|c: usize| c as int),
            },
        }
    }
}

/// A copy of a node.
pub fn copy_node(n: &Node) -> (r: Node)
    ensures
        r@ == n@,
{
    match n {
        Node::Leaf { keys, vals } => {
            assert(kseq(keys@).subrange(0, keys@.len() as int) =~= kseq(keys@));
            assert(kseq(vals@).subrange(0, vals@.len() as int) =~= kseq(vals@));
            Node::Leaf {
                keys: copy_range(keys, 0, keys.len()),
                vals: copy_range(vals, 0, vals.len()),
            }
        },
        Node::Internal { keys, children } => {
            assert(kseq(keys@).subrange(0, keys@.len() as int) =~= kseq(keys@));
            assert(children@.subrange(0, children@.len() as int) =~= children@);
            let r = copy_ids(children, 0, children.len());
            assert(r@.map_values(|c: usize| c as int) =~= children@.map_values(|c: usize| c as int));
            Node::Internal {
                keys: copy_range(keys, 0, keys.len()),
                children: r,
            }
        },
    }
}

pub proof fn lemma_route_le(ks: Seq<Seq<u8>>, k: Seq<u8>)
    ensures
        route(ks, k) <= ks.len(),
    decreases ks.len(),
{
    if ks.len() > 0 && lex_lt(k, ks.last()) {
        lemma_route_le(ks.drop_last(), k);
    }
}

} // verus!
