//! The database: a page store, its durable meta record, and the single-writer,
//! many-reader transaction protocol over them.
use vstd::prelude::*;
use crate::error::{NodeError, TreeError, TxnError};
use crate::node::{Node, NodeView, MAX_KEYS, MAX_KEY_SIZE, MAX_VALUE_SIZE};
use crate::tree::{
    pview, extends, wf_node, lookup, updated, ekeys, evals, keys_ok, opt_view, tree_get, tree_set,
    collect, lemma_frame,
};
use crate::node::{leaf_get, lemma_leaf_get_at};
use crate::key::{lemma_lex_order, lex_lt};
use crate::codec::{encodable, encode_node, encode, is_encodable};

verus! {

/// The durable root of trust: which page is the root, how tall the tree is,
/// how many pages are durable, and how many commits have happened.
#[derive(Debug, Clone, Copy, PartialEq, Eq, Structural)]
pub struct Meta {
    pub root: usize,
    pub height: usize,
    pub num_pages: usize,
    pub seq: u64,
}

/// The database. Pages below `meta.num_pages` are durable and never change;
/// pages above it are staged by the active writer.
pub struct Database {
    pages: Vec<Node>,
    meta: Meta,
    writer: bool,
}

/// A read transaction: a snapshot of the committed root.
#[derive(Debug, Clone, Copy, PartialEq, Eq, Structural)]
pub struct ReadTxn {
    pub root: usize,
    pub height: usize,
    pub seq: u64,
}

/// A write transaction: the root of its private working tree.
#[derive(Debug, PartialEq, Eq, Structural)]
pub struct WriteTxn {
    pub root: usize,
    pub height: usize,
    pub base: usize,
    pub seq: u64,
}

/// The number of pages that hold `meta`'s tree.
pub open spec fn durable(p: Seq<NodeView>, meta: Meta) -> Seq<NodeView> {
    p.subrange(0, meta.num_pages as int)
}

impl Database {
    /// The pages, as nodes.
    pub closed spec fn pages_view(&self) -> Seq<NodeView> {
        pview(self.pages@)
    }

    pub closed spec fn meta_view(&self) -> Meta {
        self.meta
    }

    pub closed spec fn writer_active(&self) -> bool {
        self.writer
    }

    /// The durable meta record names a well-formed tree among the durable pages.
    pub open spec fn wf(&self) -> bool {
        let m = self.meta_view();
        let p = self.pages_view();
        &&& 1 <= m.num_pages <= p.len()
        &&& m.height < m.num_pages
        &&& wf_node(durable(p, m), m.root as int, m.height as int, None, None)
        &&& !self.writer_active() ==> p.len() == m.num_pages
    }

    /// The committed value of `k`.
    pub open spec fn committed(&self, k: Seq<u8>) -> Option<Seq<u8>> {
        lookup(self.pages_view(), self.meta_view().root as int, self.meta_view().height as int, k)
    }

    /// An empty database.
    pub fn new() -> (r: Database)
        ensures
            r.wf(),
            !r.writer_active(),
            r.meta_view().seq == 0,
            forall|k: Seq<u8>| #[trigger] r.committed(k) is None,
    {
        let mut pages: Vec<Node> = Vec::new();
        pages.push(Node::Leaf { keys: Vec::new(), vals: Vec::new() });
        let r = Database { pages, meta: Meta { root: 0, height: 0, num_pages: 1, seq: 0 }, writer: false };
        proof {
            let p = pview(r.pages@);
            assert(p[0] == r.pages@[0]@);
            assert(durable(p, r.meta) =~= p);
        }
        r
    }

    /// The durable meta record.
    pub fn meta(&self) -> (r: Meta)
        ensures
            r == self.meta_view(),
    {
        self.meta
    }

    /// How many pages the store holds, staged ones included.
    pub fn page_count(&self) -> (r: usize)
        ensures
            r == self.pages_view().len(),
    {
        self.pages.len()
    }

    /// The bytes of page `id`, if there is such a page and it fits the page format.
    pub fn page_bytes(&self, id: usize) -> (r: Option<Vec<u8>>)
        ensures
            r is Some <==> id < self.pages_view().len() && encodable(self.pages_view()[id as int]),
            r matches Some(b) ==> b@ == encode_node(self.pages_view()[id as int]),
    {
        if id >= self.pages.len() {
            return None;
        }
        assert(self.pages_view()[id as int] == self.pages@[id as int]@);
        if !is_encodable(&self.pages[id]) {
            return None;
        }
        Some(encode(&self.pages[id]))
    }

    /// How many children the committed root has: zero when it is a leaf.
    pub fn root_fanout(&self) -> (r: usize)
        requires
            self.wf(),
        ensures
            self.pages_view()[self.meta_view().root as int] is Leaf ==> r == 0,
            self.pages_view()[self.meta_view().root as int] matches NodeView::Internal { children, .. } ==> r == children.len(),
    {
        proof {
            assert(self.pages_view()[self.meta.root as int] == durable(self.pages_view(), self.meta)[self.meta.root as int]);
            assert(self.pages_view()[self.meta.root as int] == self.pages@[self.meta.root as int]@);
        }
        match &self.pages[self.meta.root] {
            Node::Leaf { .. } => 0,
            Node::Internal { children, .. } => children.len(),
        }
    }

    /// A read transaction on the committed tree. Never waits.
    pub fn r_txn(&self) -> (r: ReadTxn)
        requires
            self.wf(),
        ensures
            r.valid(self),
            forall|k: Seq<u8>| #[trigger] r.sees(self, k) == self.committed(k),
            r.root == self.meta_view().root,
            r.height == self.meta_view().height,
            r.seq == self.meta_view().seq,
    {
        proof {
            let p = pview(self.pages@);
            assert(extends(durable(p, self.meta), p));
            lemma_frame(durable(p, self.meta), p, self.meta.root as int, self.meta.height as int, None, None);
        }
        ReadTxn { root: self.meta.root, height: self.meta.height, seq: self.meta.seq }
    }

    /// The write transaction, bound to the committed tree; fails while another is active.
    pub fn rw_txn(&mut self) -> (r: Result<WriteTxn, TxnError>)
        requires
            old(self).wf(),
        ensures
            final(self).wf(),
            final(self).meta_view() == old(self).meta_view(),
            final(self).pages_view() == old(self).pages_view(),
            r is Err <==> old(self).writer_active(),
            r is Err ==> r == Err::<WriteTxn, TxnError>(TxnError::WriterActive) && final(self).writer_active(),
            r matches Ok(t) ==> {
                &&& t.valid(final(self))
                &&& t.root == old(self).meta_view().root
                &&& t.height == old(self).meta_view().height
            },
    {
        if self.writer {
            return Err(TxnError::WriterActive);
        }
        self.writer = true;
        let t = WriteTxn { root: self.meta.root, height: self.meta.height, base: self.meta.num_pages, seq: self.meta.seq };
        proof {
            assert(durable(pview(self.pages@), self.meta) =~= pview(self.pages@));
        }
        Ok(t)
    }

    /// What a restart finds after a crash: the durable meta record and the
    /// durable pages. Pages staged by a writer that did not commit are dropped.
    pub fn recover(&mut self)
        requires
            old(self).wf(),
        ensures
            final(self).wf(),
            !final(self).writer_active(),
            final(self).meta_view() == old(self).meta_view(),
            final(self).pages_view() == durable(old(self).pages_view(), old(self).meta_view()),
            forall|k: Seq<u8>| #[trigger] final(self).committed(k) == old(self).committed(k),
    {
        let ghost p = pview(self.pages@);
        let ghost d = durable(p, self.meta);
        self.pages.truncate(self.meta.num_pages);
        self.writer = false;
        proof {
            assert(pview(self.pages@) =~= d);
            assert(durable(d, self.meta) =~= d);
            assert(extends(d, p));
            lemma_frame(d, p, self.meta.root as int, self.meta.height as int, None, None);
        }
    }
}

impl ReadTxn {
    /// The snapshot's tree is well formed in the database's pages.
    pub open spec fn valid(&self, db: &Database) -> bool {
        wf_node(db.pages_view(), self.root as int, self.height as int, None, None)
    }

    /// The value of `k` in the snapshot.
    pub open spec fn sees(&self, db: &Database, k: Seq<u8>) -> Option<Seq<u8>> {
        lookup(db.pages_view(), self.root as int, self.height as int, k)
    }

    /// The value of `k` in the snapshot, if any.
    pub fn get(&self, db: &Database, k: &Vec<u8>) -> (r: Option<Vec<u8>>)
        requires
            self.valid(db),
        ensures
            opt_view(r) == self.sees(db, k@),
    {
        tree_get(&db.pages, self.root, self.height, k)
    }

    /// Every entry of the snapshot, in strictly increasing key order.
    pub fn in_order_iter(&self, db: &Database) -> (r: Vec<(Vec<u8>, Vec<u8>)>)
        requires
            self.valid(db),
        ensures
            keys_ok(ekeys(r@), None, None),
            forall|k: Seq<u8>| #[trigger] leaf_get(ekeys(r@), evals(r@), k) == self.sees(db, k),
    {
        collect(&db.pages, self.root, self.height, Ghost(None), Ghost(None))
    }
}

impl WriteTxn {
    /// The transaction is the active writer of `db`, and its tree is well formed there.
    pub open spec fn valid(&self, db: &Database) -> bool {
        &&& db.wf()
        &&& db.writer_active()
        &&& self.base == db.meta_view().num_pages
        &&& self.seq == db.meta_view().seq
        &&& self.height < db.pages_view().len()
        &&& wf_node(db.pages_view(), self.root as int, self.height as int, None, None)
    }

    /// The value of `k` in the transaction's working tree.
    pub open spec fn sees(&self, db: &Database, k: Seq<u8>) -> Option<Seq<u8>> {
        lookup(db.pages_view(), self.root as int, self.height as int, k)
    }

    /// The value of `k` in the working tree, if any.
    pub fn get(&self, db: &Database, k: &Vec<u8>) -> (r: Option<Vec<u8>>)
        requires
            self.valid(db),
        ensures
            opt_view(r) == self.sees(db, k@),
    {
        tree_get(&db.pages, self.root, self.height, k)
    }

    /// Every entry of the working tree, in strictly increasing key order.
    pub fn in_order_iter(&self, db: &Database) -> (r: Vec<(Vec<u8>, Vec<u8>)>)
        requires
            self.valid(db),
        ensures
            keys_ok(ekeys(r@), None, None),
            forall|k: Seq<u8>| #[trigger] leaf_get(ekeys(r@), evals(r@), k) == self.sees(db, k),
    {
        collect(&db.pages, self.root, self.height, Ghost(None), Ghost(None))
    }

    fn set(&mut self, db: &mut Database, k: &Vec<u8>, v: &Vec<u8>, replace: bool) -> (r: Result<(), TxnError>)
        requires
            old(self).valid(old(db)),
        ensures
            final(self).valid(final(db)),
            final(db).meta_view() == old(db).meta_view(),
            extends(old(db).pages_view(), final(db).pages_view()),
            final(self).base == old(self).base,
            final(self).seq == old(self).seq,
            r == set_result(old(self).sees(old(db), k@), k@.len(), v@.len(), replace),
            r is Ok ==> final(self).height == old(self).height || final(self).height == old(self).height + 1,
            r is Ok && final(self).height == old(self).height + 1 ==> (final(db).pages_view()[final(self).root as int] matches NodeView::Internal { keys, children } && keys.len() == 1 && children.len() == 2),
            r is Ok && old(self).height == 0 && !replace ==> (final(self).height == 1 <==> old(db).pages_view()[old(self).root as int]->Leaf_keys.len() == MAX_KEYS),
            r is Err ==> *final(self) == *old(self) && final(db).pages_view() == old(db).pages_view(),
            r is Ok ==> forall|k2: Seq<u8>| #[trigger] final(self).sees(final(db), k2) == if k2 == k@ {
                Some(v@)
            } else {
                old(self).sees(old(db), k2)
            },
    {
        if k.len() > MAX_KEY_SIZE {
            return Err(TxnError::Tree(TreeError::Node(NodeError::KeyTooLarge)));
        }
        if v.len() > MAX_VALUE_SIZE {
            return Err(TxnError::Tree(TreeError::Node(NodeError::ValueTooLarge)));
        }
        let ghost p = db.pages_view();
        let ghost m = db.meta;
        let res = tree_set(&mut db.pages, self.root, self.height, k, v, replace);
        match res {
            None => {
                if replace {
                    Err(TxnError::Tree(TreeError::Node(NodeError::NotFound)))
                } else {
                    Err(TxnError::Tree(TreeError::Node(NodeError::AlreadyExists)))
                }
            },
            Some((nr, nh)) => {
                proof {
                    let q = pview(db.pages@);
                    assert(durable(q, m) =~= durable(p, m));
                    assert forall|k2: Seq<u8>| #[trigger] lookup(q, nr as int, nh as int, k2) == updated(p, self.root as int, self.height as int, k@, v@, k2) by {}
                }
                self.root = nr;
                self.height = nh;
                Ok(())
            },
        }
    }

    /// Adds `k` with `v` to the working tree; fails if `k` is already there,
    /// or if the key or the value is too long, and then changes nothing.
    pub fn insert(&mut self, db: &mut Database, k: &Vec<u8>, v: &Vec<u8>) -> (r: Result<(), TxnError>)
        requires
            old(self).valid(old(db)),
        ensures
            final(self).valid(final(db)),
            final(db).meta_view() == old(db).meta_view(),
            extends(old(db).pages_view(), final(db).pages_view()),
            r == set_result(old(self).sees(old(db), k@), k@.len(), v@.len(), false),
            r is Ok ==> final(self).height == old(self).height || final(self).height == old(self).height + 1,
            r is Ok && final(self).height == old(self).height + 1 ==> (final(db).pages_view()[final(self).root as int] matches NodeView::Internal { keys, children } && keys.len() == 1 && children.len() == 2),
            r is Ok && old(self).height == 0 ==> (final(self).height == 1 <==> old(db).pages_view()[old(self).root as int]->Leaf_keys.len() == MAX_KEYS),
            r is Err ==> *final(self) == *old(self) && final(db).pages_view() == old(db).pages_view(),
            r is Ok ==> forall|k2: Seq<u8>| #[trigger] final(self).sees(final(db), k2) == if k2 == k@ {
                Some(v@)
            } else {
                old(self).sees(old(db), k2)
            },
    {
        self.set(db, k, v, false)
    }

    /// Changes the value of `k` in the working tree to `v`; fails if `k` is
    /// not there, or if the key or the value is too long, and then changes nothing.
    pub fn update(&mut self, db: &mut Database, k: &Vec<u8>, v: &Vec<u8>) -> (r: Result<(), TxnError>)
        requires
            old(self).valid(old(db)),
        ensures
            final(self).valid(final(db)),
            final(db).meta_view() == old(db).meta_view(),
            extends(old(db).pages_view(), final(db).pages_view()),
            r == set_result(old(self).sees(old(db), k@), k@.len(), v@.len(), true),
            r is Err ==> *final(self) == *old(self) && final(db).pages_view() == old(db).pages_view(),
            r is Ok ==> forall|k2: Seq<u8>| #[trigger] final(self).sees(final(db), k2) == if k2 == k@ {
                Some(v@)
            } else {
                old(self).sees(old(db), k2)
            },
    {
        self.set(db, k, v, true)
    }

    /// Makes the working tree the committed one: its pages become durable
    /// first, then the meta record names its root in one step.
    pub fn commit(self, db: &mut Database)
        requires
            self.valid(old(db)),
        ensures
            final(db).wf(),
            !final(db).writer_active(),
            final(db).pages_view() == old(db).pages_view(),
            final(db).meta_view().root == self.root,
            final(db).meta_view().height == self.height,
            final(db).meta_view().num_pages == old(db).pages_view().len(),
            final(db).meta_view().seq == next_seq(old(db).meta_view().seq),
            forall|k: Seq<u8>| #[trigger] final(db).committed(k) == self.sees(old(db), k),
    {
        let n = db.pages.len();
        let seq = if db.meta.seq < u64::MAX { db.meta.seq + 1 } else { db.meta.seq };
        db.meta = Meta { root: self.root, height: self.height, num_pages: n, seq };
        db.writer = false;
        proof {
            assert(durable(pview(db.pages@), db.meta) =~= pview(db.pages@));
        }
    }

    /// Drops the working tree: the staged pages are discarded and the database
    /// is as it was before the transaction began.
    pub fn abort(self, db: &mut Database)
        requires
            self.valid(old(db)),
        ensures
            final(db).wf(),
            !final(db).writer_active(),
            final(db).meta_view() == old(db).meta_view(),
            final(db).pages_view() == durable(old(db).pages_view(), old(db).meta_view()),
            forall|k: Seq<u8>| #[trigger] final(db).committed(k) == old(db).committed(k),
    {
        db.recover();
    }
}

/// The commit number after `s`.
pub open spec fn next_seq(s: u64) -> u64 {
    if s < u64::MAX {
        (s + 1) as u64
    } else {
        s
    }
}

/// What setting a key returns: the size errors first, then presence.
pub open spec fn set_result(cur: Option<Seq<u8>>, klen: nat, vlen: nat, replace: bool) -> Result<(), TxnError> {
    if klen > MAX_KEY_SIZE {
        Err(TxnError::Tree(TreeError::Node(NodeError::KeyTooLarge)))
    } else if vlen > MAX_VALUE_SIZE {
        Err(TxnError::Tree(TreeError::Node(NodeError::ValueTooLarge)))
    } else if replace && cur is None {
        Err(TxnError::Tree(TreeError::Node(NodeError::NotFound)))
    } else if !replace && cur is Some {
        Err(TxnError::Tree(TreeError::Node(NodeError::AlreadyExists)))
    } else {
        Ok(())
    }
}


/// What a reference map holds for `k`.
pub open spec fn model_get(m: Map<Seq<u8>, Seq<u8>>, k: Seq<u8>) -> Option<Seq<u8>> {
    if m.contains_key(k) {
        Some(m[k])
    } else {
        None
    }
}

/// A write transaction that agrees with a reference map still agrees with it
/// after a successful insert or update of `k` with `v`, once the map is given
/// the same entry.
pub proof fn law_write_tracks_model(
    t0: WriteTxn,
    db0: Database,
    t1: WriteTxn,
    db1: Database,
    m: Map<Seq<u8>, Seq<u8>>,
    k: Seq<u8>,
    v: Seq<u8>,
)
    requires
        forall|k2: Seq<u8>| #[trigger] t0.sees(&db0, k2) == model_get(m, k2),
        forall|k2: Seq<u8>| #[trigger] t1.sees(&db1, k2) == if k2 == k {
            Some(v)
        } else {
            t0.sees(&db0, k2)
        },
    ensures
        forall|k2: Seq<u8>| #[trigger] t1.sees(&db1, k2) == model_get(m.insert(k, v), k2),
{
    assert forall|k2: Seq<u8>| #[trigger] t1.sees(&db1, k2) == model_get(m.insert(k, v), k2) by {
        assert(t0.sees(&db0, k2) == model_get(m, k2));
    }
}

/// After a commit, a read transaction opened on the database sees exactly
/// what the committed write transaction saw, so a reference map that agreed
/// with the writer agrees with every fresh reader.
pub proof fn law_commit_visible_to_new_readers(
    t: WriteTxn,
    db0: Database,
    db1: Database,
    r: ReadTxn,
    m: Map<Seq<u8>, Seq<u8>>,
)
    requires
        forall|k: Seq<u8>| #[trigger] t.sees(&db0, k) == model_get(m, k),
        forall|k: Seq<u8>| #[trigger] db1.committed(k) == t.sees(&db0, k),
        forall|k: Seq<u8>| #[trigger] r.sees(&db1, k) == db1.committed(k),
    ensures
        forall|k: Seq<u8>| #[trigger] r.sees(&db1, k) == model_get(m, k),
{
    assert forall|k: Seq<u8>| #[trigger] r.sees(&db1, k) == model_get(m, k) by {
        assert(db1.committed(k) == t.sees(&db0, k));
    }
}

/// A read transaction keeps its snapshot while pages are added after it,
/// as every write and every commit does: it sees the same value for every key.
pub proof fn law_snapshot_isolation(r: ReadTxn, db0: Database, db1: Database)
    requires
        r.valid(&db0),
        extends(db0.pages_view(), db1.pages_view()),
    ensures
        r.valid(&db1),
        forall|k: Seq<u8>| #[trigger] r.sees(&db1, k) == r.sees(&db0, k),
{
    lemma_frame(db0.pages_view(), db1.pages_view(), r.root as int, r.height as int, None, None);
}

/// A transaction that is aborted after any writes leaves the meta record and
/// every page as they were before it began.
pub proof fn law_abort_restores(db0: Database, mid: Seq<NodeView>, db1: Database)
    requires
        db0.wf(),
        !db0.writer_active(),
        extends(db0.pages_view(), mid),
        db1.meta_view() == db0.meta_view(),
        db1.pages_view() == durable(mid, db0.meta_view()),
    ensures
        db1.pages_view() == db0.pages_view(),
{
    assert(db1.pages_view() =~= db0.pages_view());
}

/// A crash after a writer staged pages but before the meta record named its
/// root recovers to the last committed tree: the same meta record, the same
/// durable pages and the same value for every key.
pub proof fn law_crash_recovers_last_commit(db0: Database, crashed: Database, db1: Database)
    requires
        db0.wf(),
        !db0.writer_active(),
        crashed.wf(),
        crashed.meta_view() == db0.meta_view(),
        extends(db0.pages_view(), crashed.pages_view()),
        db1.meta_view() == crashed.meta_view(),
        db1.pages_view() == durable(crashed.pages_view(), crashed.meta_view()),
        forall|k: Seq<u8>| #[trigger] db1.committed(k) == crashed.committed(k),
    ensures
        db1.meta_view() == db0.meta_view(),
        db1.pages_view() == db0.pages_view(),
        forall|k: Seq<u8>| #[trigger] db1.committed(k) == db0.committed(k),
{
    assert(db1.pages_view() =~= db0.pages_view());
}


/// Entries in strictly increasing key order that hold exactly what a
/// reference map holds are that map: one entry per key of the map, with its value.
pub proof fn law_in_order_is_the_model(e: Seq<(Vec<u8>, Vec<u8>)>, m: Map<Seq<u8>, Seq<u8>>)
    requires
        keys_ok(ekeys(e), None, None),
        forall|k: Seq<u8>| #[trigger] leaf_get(ekeys(e), evals(e), k) == model_get(m, k),
    ensures
        e.len() == m.dom().len(),
        ekeys(e).to_set() == m.dom(),
        forall|i: int| 0 <= i < e.len() ==> #[trigger] m.contains_key(ekeys(e)[i]) && m[ekeys(e)[i]] == evals(e)[i],
{
    let ks = ekeys(e);
    assert forall|i: int| 0 <= i < e.len() implies #[trigger] m.contains_key(ks[i]) && m[ks[i]] == evals(e)[i] by {
        lemma_leaf_get_at(ks, evals(e), i);
        assert(leaf_get(ks, evals(e), ks[i]) == model_get(m, ks[i]));
    }
    assert(ks.to_set() =~= m.dom()) by {
        assert forall|k: Seq<u8>| ks.to_set().contains(k) <==> m.dom().contains(k) by {
            assert(leaf_get(ks, evals(e), k) == model_get(m, k));
            if ks.to_set().contains(k) {
                let i = choose|i: int| 0 <= i < ks.len() && ks[i] == k;
                assert(m.contains_key(ks[i]));
            }
        }
    }
    assert(ks.no_duplicates()) by {
        lemma_lex_order();
        assert forall|i: int, j: int| 0 <= i < ks.len() && 0 <= j < ks.len() && i != j implies ks[i] != ks[j] by {
            if i < j {
                assert(lex_lt(ks[i], ks[j]));
            } else {
                assert(lex_lt(ks[j], ks[i]));
            }
        }
    }
    ks.unique_seq_to_set();
}

} // verus!
