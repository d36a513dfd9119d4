//! The page format of a node.
//!
//! A leaf is the tag byte 1, its entry count as two little-endian bytes, its
//! keys and then its values, each as a two-byte little-endian length followed
//! by the bytes. An internal node is the tag byte 2, its key count, its keys,
//! and one more child page id than keys, each as eight little-endian bytes.
use vstd::prelude::*;
use crate::node::{Node, NodeView, kseq};

verus! {

/// Largest encoded size of a page.
pub const PAGE_SIZE: usize = 4096;

/// `256` to the power `w`.
pub open spec fn pow256(w: nat) -> nat
    decreases w,
{
    if w == 0 {
        1
    } else {
        256 * pow256((w - 1) as nat)
    }
}

/// `x` as `w` little-endian bytes (the low `w` bytes of it).
pub open spec fn le(x: nat, w: nat) -> Seq<u8>
    decreases w,
{
    if w == 0 {
        seq![]
    } else {
        seq![(x % 256) as u8] + le(x / 256, (w - 1) as nat)
    }
}

/// The number that little-endian bytes stand for.
pub open spec fn from_le(s: Seq<u8>) -> nat
    decreases s.len(),
{
    if s.len() == 0 {
        0
    } else {
        s[0] as nat + 256 * from_le(s.drop_first())
    }
}

/// A byte string with its two-byte length in front.
pub open spec fn enc_bytes(b: Seq<u8>) -> Seq<u8> {
    le(b.len(), 2) + b
}

/// Byte strings one after the other.
pub open spec fn enc_list(ks: Seq<Seq<u8>>) -> Seq<u8>
    decreases ks.len(),
{
    if ks.len() == 0 {
        seq![]
    } else {
        enc_list(ks.drop_last()) + enc_bytes(ks.last())
    }
}

/// Page ids one after the other, eight bytes each.
pub open spec fn enc_ids(cs: Seq<int>) -> Seq<u8>
    decreases cs.len(),
{
    if cs.len() == 0 {
        seq![]
    } else {
        enc_ids(cs.drop_last()) + le(cs.last() as nat, 8)
    }
}

/// The bytes of a node's page.
pub open spec fn encode_node(n: NodeView) -> Seq<u8> {
    match n {
        NodeView::Leaf { keys, vals } => seq![1u8] + le(keys.len(), 2) + enc_list(keys) + enc_list(vals),
        NodeView::Internal { keys, children } => seq![2u8] + le(keys.len(), 2) + enc_list(keys) + enc_ids(
            children,
        ),
    }
}

/// Every byte string is shorter than `65536`.
pub open spec fn short_all(ks: Seq<Seq<u8>>) -> bool {
    forall|i: int| 0 <= i < ks.len() ==> (#[trigger] ks[i]).len() < 65536
}

/// The node fits the format: counts and lengths fit two bytes, ids fit eight.
pub open spec fn encodable(n: NodeView) -> bool {
    match n {
        NodeView::Leaf { keys, vals } => keys.len() == vals.len() && keys.len() < 65536 && short_all(keys)
            && short_all(vals),
        NodeView::Internal { keys, children } => children.len() == keys.len() + 1 && keys.len() < 65536
            && short_all(keys) && forall|i: int|
            0 <= i < children.len() ==> 0 <= #[trigger] children[i] < pow256(8) && children[i] <= usize::MAX,
    }
}

proof fn lemma_from_le_bound(s: Seq<u8>)
    ensures
        from_le(s) < pow256(s.len()),
    decreases s.len(),
{
    if s.len() > 0 {
        lemma_from_le_bound(s.drop_first());
        let r = from_le(s.drop_first());
        let p = pow256((s.len() - 1) as nat);
        assert(s[0] as nat + 256 * r < 256 * p) by (nonlinear_arith)
            requires
                r < p,
                s[0] < 256,
        ;
    }
}

proof fn lemma_le_from_le(s: Seq<u8>)
    ensures
        le(from_le(s), s.len()) == s,
    decreases s.len(),
{
    if s.len() > 0 {
        let r = from_le(s.drop_first());
        let x = s[0] as nat + 256 * r;
        lemma_le_from_le(s.drop_first());
        assert(x % 256 == s[0] as nat && x / 256 == r) by (nonlinear_arith)
            requires
                x == s[0] as nat + 256 * r,
                s[0] < 256,
        ;
        assert(le(x, s.len()) =~= s);
    }
}

/// Appends `x` as `w` little-endian bytes.
fn push_le(out: &mut Vec<u8>, x: u64, w: usize)
    ensures
        final(out)@ == old(out)@ + le(x as nat, w as nat),
    decreases w,
{
    if w > 0 {
        out.push((x % 256) as u8);
        push_le(out, x / 256, w - 1);
        assert(out@ =~= old(out)@ + le(x as nat, w as nat));
    } else {
        assert(out@ =~= old(out)@ + le(x as nat, w as nat));
    }
}

/// Appends a byte string with its length in front.
fn push_bytes(out: &mut Vec<u8>, b: &Vec<u8>)
    requires
        b@.len() < 65536,
    ensures
        final(out)@ == old(out)@ + enc_bytes(b@),
{
    push_le(out, b.len() as u64, 2);
    let ghost mid = out@;
    let mut i: usize = 0;
    while i < b.len()
        invariant
            i <= b@.len(),
            out@ == mid + b@.subrange(0, i as int),
        decreases b.len() - i,
    {
        out.push(b[i]);
        i = i + 1;
        assert(out@ =~= mid + b@.subrange(0, i as int));
    }
    assert(b@.subrange(0, b@.len() as int) =~= b@);
    assert(out@ =~= old(out)@ + enc_bytes(b@));
}

/// Appends byte strings one after the other.
fn push_list(out: &mut Vec<u8>, ks: &Vec<Vec<u8>>)
    requires
        short_all(kseq(ks@)),
    ensures
        final(out)@ == old(out)@ + enc_list(kseq(ks@)),
{
    let ghost start = out@;
    let ghost all = kseq(ks@);
    let mut i: usize = 0;
    while i < ks.len()
        invariant
            i <= ks@.len(),
            all == kseq(ks@),
            short_all(all),
            out@ == start + enc_list(all.subrange(0, i as int)),
        decreases ks.len() - i,
    {
        assert(all[i as int] == ks@[i as int]@);
        push_bytes(out, &ks[i]);
        proof {
            let t = all.subrange(0, i + 1);
            assert(t.drop_last() =~= all.subrange(0, i as int));
            assert(t.last() == all[i as int]);
        }
        i = i + 1;
        assert(out@ =~= start + enc_list(all.subrange(0, i as int)));
    }
    assert(all.subrange(0, ks@.len() as int) =~= all);
}

/// The bytes of a node's page.
pub fn encode(n: &Node) -> (r: Vec<u8>)
    requires
        encodable(n@),
    ensures
        r@ == encode_node(n@),
{
    let mut out: Vec<u8> = Vec::new();
    match n {
        Node::Leaf { keys, vals } => {
            out.push(1u8);
            push_le(&mut out, keys.len() as u64, 2);
            push_list(&mut out, keys);
            push_list(&mut out, vals);
        },
        Node::Internal { keys, children } => {
            out.push(2u8);
            push_le(&mut out, keys.len() as u64, 2);
            push_list(&mut out, keys);
            let ghost start = out@;
            let ghost cs = children@.map_values(|c: usize| c as int);
            let mut i: usize = 0;
            while i < children.len()
                invariant
                    i <= children@.len(),
                    cs == children@.map_values(|c: usize| c as int),
                    out@ == start + enc_ids(cs.subrange(0, i as int)),
                decreases children.len() - i,
            {
                push_le(&mut out, children[i] as u64, 8);
                proof {
                    let t = cs.subrange(0, i + 1);
                    assert(t.drop_last() =~= cs.subrange(0, i as int));
                    assert(t.last() == children@[i as int] as int);
                }
                i = i + 1;
                assert(out@ =~= start + enc_ids(cs.subrange(0, i as int)));
            }
            assert(cs.subrange(0, children@.len() as int) =~= cs);
        },
    }
    assert(out@ =~= encode_node(n@));
    out
}


proof fn lemma_from_le_le(x: nat, w: nat)
    requires
        x < pow256(w),
    ensures
        from_le(le(x, w)) == x,
    decreases w,
{
    if w > 0 {
        let s = le(x, w);
        assert(s.drop_first() =~= le(x / 256, (w - 1) as nat));
        assert(x / 256 < pow256((w - 1) as nat)) by (nonlinear_arith)
            requires
                x < 256 * pow256((w - 1) as nat),
        ;
        lemma_from_le_le(x / 256, (w - 1) as nat);
        assert(x == x % 256 + 256 * (x / 256)) by (nonlinear_arith);
    }
}

proof fn lemma_le_len(x: nat, w: nat)
    ensures
        le(x, w).len() == w,
    decreases w,
{
    if w > 0 {
        lemma_le_len(x / 256, (w - 1) as nat);
    }
}

/// The encoding of the first `j` byte strings is a prefix of the encoding of all of them.
proof fn lemma_enc_list_prefix(t: Seq<Seq<u8>>, j: int)
    requires
        0 <= j <= t.len(),
    ensures
        enc_list(t.take(j)).len() <= enc_list(t).len(),
        enc_list(t).subrange(0, enc_list(t.take(j)).len() as int) == enc_list(t.take(j)),
    decreases t.len(),
{
    if j == t.len() {
        assert(t.take(j) =~= t);
    } else {
        lemma_enc_list_prefix(t.drop_last(), j);
        assert(t.drop_last().take(j) =~= t.take(j));
    }
}

proof fn lemma_enc_list_step(t: Seq<Seq<u8>>, i: int)
    requires
        0 <= i < t.len(),
    ensures
        enc_list(t.take(i + 1)) == enc_list(t.take(i)) + enc_bytes(t[i]),
{
    assert(t.take(i + 1).drop_last() =~= t.take(i));
}

proof fn lemma_enc_ids_prefix(t: Seq<int>, j: int)
    requires
        0 <= j <= t.len(),
    ensures
        enc_ids(t.take(j)).len() <= enc_ids(t).len(),
        enc_ids(t).subrange(0, enc_ids(t.take(j)).len() as int) == enc_ids(t.take(j)),
    decreases t.len(),
{
    if j == t.len() {
        assert(t.take(j) =~= t);
    } else {
        lemma_enc_ids_prefix(t.drop_last(), j);
        assert(t.drop_last().take(j) =~= t.take(j));
    }
}

proof fn lemma_enc_ids_step(t: Seq<int>, i: int)
    requires
        0 <= i < t.len(),
    ensures
        enc_ids(t.take(i + 1)) == enc_ids(t.take(i)) + le(t[i] as nat, 8),
{
    assert(t.take(i + 1).drop_last() =~= t.take(i));
}

proof fn lemma_pow256_mono(a: nat, b: nat)
    requires
        a <= b,
    ensures
        pow256(a) <= pow256(b),
    decreases b,
{
    if a < b {
        lemma_pow256_mono(a, (b - 1) as nat);
    }
}

/// Reads `w` little-endian bytes at `pos`.
fn read_le(b: &Vec<u8>, pos: usize, w: usize) -> (r: u64)
    requires
        pos + w <= b@.len(),
        w <= 8,
    ensures
        r as nat == from_le(b@.subrange(pos as int, pos + w)),
        le(r as nat, w as nat) == b@.subrange(pos as int, pos + w),
    decreases w,
{
    let ghost s = b@.subrange(pos as int, pos + w);
    proof {
        lemma_le_from_le(s);
    }
    if w == 0 {
        return 0;
    }
    let blen = b.len();
    let rest = read_le(b, pos + 1, w - 1);
    proof {
        assert(s.drop_first() =~= b@.subrange(pos + 1, pos + w));
        lemma_from_le_bound(s.drop_first());
        lemma_pow256_mono((w - 1) as nat, 7);
        reveal_with_fuel(pow256, 8);
        assert(pow256(7) == 0x100000000000000);
    }
    b[pos] as u64 + 256 * rest
}

/// Reads a byte string with its length in front, at `pos`; gives it and the
/// position after it.
fn read_bytes(b: &Vec<u8>, pos: usize, Ghost(x): Ghost<Seq<u8>>) -> (r: Option<(Vec<u8>, usize)>)
    requires
        pos <= b@.len(),
    ensures
        x.len() < 65536 && pos + x.len() + 2 <= b@.len() && b@.subrange(pos as int, pos + x.len() + 2)
            == enc_bytes(x) ==> (r matches Some((v, np)) && v@ == x && np == pos + x.len() + 2),
        r matches Some((v, np)) ==> pos <= np <= b@.len() && v@.len() < 65536 && b@.subrange(
            pos as int,
            np as int,
        ) == enc_bytes(v@),
{
    if b.len() - pos < 2 {
        return None;
    }
    let n = read_le(b, pos, 2);
    proof {
        lemma_from_le_bound(b@.subrange(pos as int, pos + 2));
        reveal_with_fuel(pow256, 3);
        if x.len() < 65536 && pos + x.len() + 2 <= b@.len() && b@.subrange(pos as int, pos + x.len() + 2)
            == enc_bytes(x) {
            lemma_le_len(x.len(), 2);
            assert(b@.subrange(pos as int, pos + 2) =~= le(x.len(), 2));
            lemma_from_le_le(x.len(), 2);
            let e = enc_bytes(x);
            assert forall|j: int| 0 <= j < x.len() implies b@.subrange(pos + 2, pos + x.len() + 2)[j] == x[j] by {
                assert(b@.subrange(pos as int, pos + x.len() + 2)[j + 2] == e[j + 2]);
            }
            assert(b@.subrange(pos + 2, pos + x.len() + 2) =~= x);
        }
    }
    let n = n as usize;
    let start = pos + 2;
    if b.len() - start < n {
        return None;
    }
    let mut v: Vec<u8> = Vec::new();
    let mut i: usize = 0;
    let blen = b.len();
    while i < n
        invariant
            i <= n,
            blen == b@.len(),
            start + n <= b@.len(),
            v@ == b@.subrange(start as int, start + i),
        decreases n - i,
    {
        v.push(b[start + i]);
        i = i + 1;
        assert(v@ =~= b@.subrange(start as int, start + i));
    }
    assert(b@.subrange(pos as int, start + n) =~= b@.subrange(pos as int, pos + 2) + v@);
    Some((v, start + n))
}

/// Reads `n` byte strings at `pos`.
fn read_list(b: &Vec<u8>, pos: usize, n: usize, Ghost(t): Ghost<Seq<Seq<u8>>>) -> (r: Option<(Vec<Vec<u8>>, usize)>)
    requires
        pos <= b@.len(),
    ensures
        t.len() == n && short_all(t) && pos + enc_list(t).len() <= b@.len() && b@.subrange(
            pos as int,
            pos + enc_list(t).len(),
        ) == enc_list(t) ==> (r matches Some((ks, np)) && kseq(ks@) == t && np == pos + enc_list(t).len()),
        r matches Some((ks, np)) ==> pos <= np <= b@.len() && ks@.len() == n && short_all(kseq(ks@))
            && b@.subrange(pos as int, np as int) == enc_list(kseq(ks@)),
{
    let ghost good = t.len() == n && short_all(t) && pos + enc_list(t).len() <= b@.len() && b@.subrange(
        pos as int,
        pos + enc_list(t).len(),
    ) == enc_list(t);
    let mut ks: Vec<Vec<u8>> = Vec::new();
    let mut p: usize = pos;
    let mut i: usize = 0;
    proof {
        assert(kseq(ks@) =~= t.take(0));
    }
    while i < n
        invariant
            i <= n,
            pos <= p <= b@.len(),
            ks@.len() == i,
            short_all(kseq(ks@)),
            b@.subrange(pos as int, p as int) == enc_list(kseq(ks@)),
            good == (t.len() == n && short_all(t) && pos + enc_list(t).len() <= b@.len() && b@.subrange(
                pos as int,
                pos + enc_list(t).len(),
            ) == enc_list(t)),
            good ==> kseq(ks@) == t.take(i as int),
        decreases n - i,
    {
        proof {
            if good {
                lemma_enc_list_prefix(t, i + 1);
                lemma_enc_list_step(t, i as int);
                let e = enc_list(t);
                let a = enc_list(t.take(i as int));
                let c = enc_list(t.take(i + 1));
                assert(p == pos + a.len());
                assert(b@.subrange(p as int, pos + c.len()) =~= c.subrange(a.len() as int, c.len() as int));
                assert(c.subrange(a.len() as int, c.len() as int) =~= enc_bytes(t[i as int]));
                lemma_le_len(t[i as int].len(), 2);
            }
        }
        match read_bytes(b, p, Ghost(t[i as int])) {
            None => {
                return None;
            },
            Some((v, np)) => {
                let ghost old_ks = ks@;
                ks.push(v);
                proof {
                    let t = kseq(ks@);
                    assert(t.drop_last() =~= kseq(old_ks));
                    assert(t.last() == v@);
                    assert(b@.subrange(pos as int, np as int) =~= b@.subrange(pos as int, p as int)
                        + b@.subrange(p as int, np as int));
                    assert forall|j: int| 0 <= j < t.len() implies (#[trigger] t[j]).len() < 65536 by {
                        if j < old_ks.len() {
                            assert(t[j] == kseq(old_ks)[j]);
                        }
                    }
                }
                proof {
                    if good {
                        assert(kseq(ks@) =~= t.take(i + 1));
                    }
                }
                p = np;
                i = i + 1;
            },
        }
    }
    proof {
        if good {
            assert(t.take(n as int) =~= t);
        }
    }
    Some((ks, p))
}

/// Reads `n` page ids at `pos`.
fn read_ids(b: &Vec<u8>, pos: usize, n: usize, Ghost(t): Ghost<Seq<int>>) -> (r: Option<(Vec<usize>, usize)>)
    requires
        pos <= b@.len(),
    ensures
        t.len() == n && (forall|i: int| 0 <= i < t.len() ==> 0 <= #[trigger] t[i] <= usize::MAX) && pos + enc_ids(t).len() <= b@.len() && b@.subrange(pos as int, pos + enc_ids(t).len())
            == enc_ids(t) && (forall|i: int| 0 <= i < t.len() ==> #[trigger] t[i] < pow256(8)) ==> (r matches Some((cs, np))
            && cs@.map_values(|c: usize| c as int) == t && np == pos + enc_ids(t).len()),
        r matches Some((cs, np)) ==> pos <= np <= b@.len() && cs@.len() == n && b@.subrange(
            pos as int,
            np as int,
        ) == enc_ids(cs@.map_values(|c: usize| c as int)) && forall|i: int|
            0 <= i < cs@.len() ==> (#[trigger] cs@[i]) < pow256(8),
{
    let ghost good = t.len() == n && (forall|i: int| 0 <= i < t.len() ==> 0 <= #[trigger] t[i] <= usize::MAX) && pos + enc_ids(t).len() <= b@.len() && b@.subrange(
        pos as int,
        pos + enc_ids(t).len(),
    ) == enc_ids(t) && (forall|i: int| 0 <= i < t.len() ==> #[trigger] t[i] < pow256(8));
    let mut cs: Vec<usize> = Vec::new();
    let mut p: usize = pos;
    let mut i: usize = 0;
    proof {
        assert(cs@.map_values(|c: usize| c as int) =~= t.take(0));
    }
    while i < n
        invariant
            i <= n,
            pos <= p <= b@.len(),
            cs@.len() == i,
            b@.subrange(pos as int, p as int) == enc_ids(cs@.map_values(|c: usize| c as int)),
            forall|j: int| 0 <= j < cs@.len() ==> (#[trigger] cs@[j]) < pow256(8),
            good == (t.len() == n && (forall|i: int| 0 <= i < t.len() ==> 0 <= #[trigger] t[i] <= usize::MAX) && pos + enc_ids(t).len() <= b@.len() && b@.subrange(
                pos as int,
                pos + enc_ids(t).len(),
            ) == enc_ids(t) && (forall|i: int| 0 <= i < t.len() ==> #[trigger] t[i] < pow256(8))),
            good ==> cs@.map_values(|c: usize| c as int) == t.take(i as int),
        decreases n - i,
    {
        proof {
            if good {
                lemma_enc_ids_prefix(t, i + 1);
                lemma_enc_ids_step(t, i as int);
                let a = enc_ids(t.take(i as int));
                let c = enc_ids(t.take(i + 1));
                lemma_le_len(t[i as int] as nat, 8);
                assert(p == pos + a.len());
                assert(b@.subrange(p as int, p + 8) =~= c.subrange(a.len() as int, c.len() as int));
                assert(c.subrange(a.len() as int, c.len() as int) =~= le(t[i as int] as nat, 8));
                lemma_from_le_le(t[i as int] as nat, 8);
            }
        }
        if b.len() - p < 8 {
            return None;
        }
        let x = read_le(b, p, 8);
        if x > usize::MAX as u64 {
            return None;
        }
        let ghost old_cs = cs@;
        cs.push(x as usize);
        proof {
            lemma_from_le_bound(b@.subrange(p as int, p + 8));
            let t = cs@.map_values(|c: usize| c as int);
            assert(t.drop_last() =~= old_cs.map_values(|c: usize| c as int));
            assert(t.last() == x as int);
            assert(b@.subrange(pos as int, p + 8) =~= b@.subrange(pos as int, p as int) + b@.subrange(
                p as int,
                p + 8,
            ));
            if good {
                assert(t.take(i + 1) =~= t.take(i as int).push(x as int));
            }
        }
        p = p + 8;
        i = i + 1;
    }
    proof {
        if good {
            assert(t.take(n as int) =~= t);
        }
    }
    Some((cs, p))
}

/// The node whose page is `b`, if `b` is the page of a node.
pub fn decode(b: &Vec<u8>) -> (r: Option<Node>)
    ensures
        r matches Some(n) ==> encodable(n@) && encode_node(n@) == b@,
        (exists|v: NodeView| encodable(v) && #[trigger] encode_node(v) == b@) ==> r is Some,
{
    let ghost good = exists|v: NodeView| encodable(v) && #[trigger] encode_node(v) == b@;
    let ghost v = choose|v: NodeView| encodable(v) && #[trigger] encode_node(v) == b@;
    let ghost tk = match v {
        NodeView::Leaf { keys, .. } => keys,
        NodeView::Internal { keys, .. } => keys,
    };
    let ghost tv = match v {
        NodeView::Leaf { vals, .. } => vals,
        NodeView::Internal { .. } => Seq::<Seq<u8>>::empty(),
    };
    let ghost tc = match v {
        NodeView::Leaf { .. } => Seq::<int>::empty(),
        NodeView::Internal { children, .. } => children,
    };
    proof {
        if good {
            lemma_le_len(tk.len(), 2);
            let e = enc_list(tk);
            assert(b@.len() >= 3 + e.len());
            assert(b@.subrange(1, 3) =~= le(tk.len(), 2));
            lemma_from_le_le(tk.len(), 2);
            assert(b@.subrange(3, (3 + e.len()) as int) =~= e);
            if v is Leaf {
                assert(b@[0] == 1u8);
                assert(b@.subrange((3 + e.len()) as int, b@.len() as int) =~= enc_list(tv));
            } else {
                assert(b@[0] == 2u8);
                assert(b@.subrange((3 + e.len()) as int, b@.len() as int) =~= enc_ids(tc));
            }
        }
    }
    if b.len() < 3 {
        return None;
    }
    let tag = b[0];
    let n = read_le(b, 1, 2);
    proof {
        lemma_from_le_bound(b@.subrange(1, 3));
        reveal_with_fuel(pow256, 3);
    }
    let n = n as usize;
    let (keys, p1) = match read_list(b, 3, n, Ghost(tk)) {
        Some(x) => x,
        None => {
            return None;
        },
    };
    if tag == 1 {
        let (vals, p2) = match read_list(b, p1, n, Ghost(tv)) {
            Some(x) => x,
            None => {
                return None;
            },
        };
        if p2 != b.len() {
            return None;
        }
        let node = Node::Leaf { keys, vals };
        proof {
            assert(b@ =~= b@.subrange(0, 1) + b@.subrange(1, 3) + b@.subrange(3, p1 as int) + b@.subrange(
                p1 as int,
                p2 as int,
            ));
            assert(b@.subrange(0, 1) =~= seq![1u8]);
        }
        Some(node)
    } else if tag == 2 {
        let (children, p2) = match read_ids(b, p1, n + 1, Ghost(tc)) {
            Some(x) => x,
            None => {
                return None;
            },
        };
        if p2 != b.len() {
            return None;
        }
        let node = Node::Internal { keys, children };
        proof {
            assert(b@ =~= b@.subrange(0, 1) + b@.subrange(1, 3) + b@.subrange(3, p1 as int) + b@.subrange(
                p1 as int,
                p2 as int,
            ));
            assert(b@.subrange(0, 1) =~= seq![2u8]);
            let cs = children@.map_values(|c: usize| c as int);
            assert forall|i: int| 0 <= i < cs.len() implies 0 <= #[trigger] cs[i] < pow256(8) && cs[i] <= usize::MAX by {
                assert(cs[i] == children@[i] as int);
            }
        }
        Some(node)
    } else {
        None
    }
}


fn all_short(ks: &Vec<Vec<u8>>) -> (r: bool)
    ensures
        r == short_all(kseq(ks@)),
{
    let mut i: usize = 0;
    while i < ks.len()
        invariant
            i <= ks@.len(),
            forall|j: int| 0 <= j < i ==> (#[trigger] kseq(ks@)[j]).len() < 65536,
        decreases ks.len() - i,
    {
        assert(kseq(ks@)[i as int] == ks@[i as int]@);
        if ks[i].len() >= 65536 {
            return false;
        }
        i = i + 1;
    }
    true
}

/// Whether the node fits the page format.
pub fn is_encodable(n: &Node) -> (r: bool)
    ensures
        r == encodable(n@),
{
    match n {
        Node::Leaf { keys, vals } => keys.len() == vals.len() && keys.len() < 65536 && all_short(keys)
            && all_short(vals),
        Node::Internal { keys, children } => {
            proof {
                reveal_with_fuel(pow256, 9);
                assert(pow256(8) == 0x10000000000000000);
                let cs = children@.map_values(|c: usize| c as int);
                assert forall|i: int| 0 <= i < cs.len() implies 0 <= #[trigger] cs[i] < pow256(8) && cs[i] <= usize::MAX by {
                    assert(cs[i] == children@[i] as int);
                }
            }
            children.len() >= 1 && children.len() - 1 == keys.len() && keys.len() < 65536 && all_short(keys)
        },
    }
}

} // verus!
