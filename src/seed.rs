//! Loading a batch of entries in one write transaction.
use vstd::prelude::*;
use crate::db::{Database, WriteTxn, set_result};
use crate::error::{NodeError, TreeError, TxnError};
use crate::node::{MAX_KEY_SIZE, MAX_VALUE_SIZE};
use crate::tree::extends;

verus! {

/// The entries as byte strings.
pub open spec fn items_view(items: Seq<(Vec<u8>, Vec<u8>)>) -> Seq<(Seq<u8>, Seq<u8>)> {
    items.map_values(|x: (Vec<u8>, Vec<u8>)| (x.0@, x.1@))
}

/// Key and value are within the size limits.
pub open spec fn fits(e: (Seq<u8>, Seq<u8>)) -> bool {
    e.0.len() <= MAX_KEY_SIZE && e.1.len() <= MAX_VALUE_SIZE
}

/// The error that an entry over the size limits brings.
pub open spec fn size_error(e: (Seq<u8>, Seq<u8>)) -> TxnError {
    if e.0.len() > MAX_KEY_SIZE {
        TxnError::Tree(TreeError::Node(NodeError::KeyTooLarge))
    } else {
        TxnError::Tree(TreeError::Node(NodeError::ValueTooLarge))
    }
}

/// The value of `k` after adding the first `n` entries in order to a tree in
/// which `k` had the value `before`, an entry whose key is present being skipped.
pub open spec fn seeded(items: Seq<(Seq<u8>, Seq<u8>)>, n: int, before: Option<Seq<u8>>, k: Seq<u8>) -> Option<Seq<u8>>
    decreases n,
{
    if n <= 0 {
        before
    } else {
        let cur = seeded(items, n - 1, before, k);
        if cur is None && items[n - 1].0 == k {
            Some(items[n - 1].1)
        } else {
            cur
        }
    }
}

/// Adds the entries in order in one write transaction and commits it; an
/// entry whose key is already present is skipped. If an entry is over the
/// size limits, the transaction is aborted and that entry's error returned.
/// Fails without writing while another writer is active.
pub fn seed_db(db: &mut Database, items: &Vec<(Vec<u8>, Vec<u8>)>) -> (r: Result<(), TxnError>)
    requires
        old(db).wf(),
    ensures
        final(db).wf(),
        old(db).writer_active() ==> r == Err::<(), TxnError>(TxnError::WriterActive) && final(db).pages_view() == old(db).pages_view() && final(db).meta_view() == old(db).meta_view(),
        !old(db).writer_active() ==> {
            &&& !final(db).writer_active()
            &&& r is Ok <==> forall|i: int| 0 <= i < items@.len() ==> fits(#[trigger] items_view(items@)[i])
            &&& r is Ok ==> forall|k: Seq<u8>| #[trigger] final(db).committed(k) == seeded(items_view(items@), items@.len() as int, old(db).committed(k), k)
            &&& r is Err ==> {
                &&& final(db).meta_view() == old(db).meta_view()
                &&& final(db).pages_view() == old(db).pages_view()
                &&& exists|i: int| 0 <= i < items@.len() && !fits(#[trigger] items_view(items@)[i]) && r == Err::<(), TxnError>(size_error(items_view(items@)[i]))
            }
        },
{
    let ghost db0 = *db;
    let mut t = match db.rw_txn() {
        Ok(t) => t,
        Err(e) => return Err(e),
    };
    let ghost iv = items_view(items@);
    proof {
        assert forall|k: Seq<u8>| #[trigger] t.sees(db, k) == db0.committed(k) by {}
    }
    let mut i: usize = 0;
    while i < items.len()
        invariant
            i <= items@.len(),
            t.valid(db),
            iv == items_view(items@),
            db0 == *old(db),
            db.meta_view() == db0.meta_view(),
            !db0.writer_active(),
            db0.wf(),
            extends(db0.pages_view(), db.pages_view()),
            forall|j: int| 0 <= j < i ==> fits(#[trigger] iv[j]),
            forall|k: Seq<u8>| #[trigger] t.sees(db, k) == seeded(iv, i as int, db0.committed(k), k),
        decreases items.len() - i,
    {
        let ghost t0 = t;
        let ghost d0 = *db;
        assert(iv[i as int] == (items@[i as int].0@, items@[i as int].1@));
        let res = t.insert(db, &items[i].0, &items[i].1);
        match res {
            Ok(()) => {
                proof {
                    assert forall|k: Seq<u8>| #[trigger] t.sees(db, k) == seeded(iv, i + 1, db0.committed(k), k) by {
                        assert(t0.sees(&d0, k) == seeded(iv, i as int, db0.committed(k), k));
                    }
                }
            },
            Err(TxnError::Tree(TreeError::Node(NodeError::AlreadyExists))) => {
                proof {
                    assert forall|k: Seq<u8>| #[trigger] t.sees(db, k) == seeded(iv, i + 1, db0.committed(k), k) by {
                        assert(t0.sees(&d0, k) == seeded(iv, i as int, db0.committed(k), k));
                    }
                }
            },
            Err(e) => {
                t.abort(db);
                proof {
                    assert(!fits(iv[i as int]));
                    assert(res == Err::<(), TxnError>(size_error(iv[i as int])));
                    assert(db.pages_view() =~= db0.pages_view());
                }
                return Err(e);
            },
        }
        i = i + 1;
    }
    t.commit(db);
    proof {
        assert(db.pages_view().len() > 0);
    }
    Ok(())
}

} // verus!
