use vstd::prelude::*;

use crate::block_id::{BlockId, BlockKey};
use crate::block_map::{lookup, BlockMap};
use crate::lock_table::{
    can_slock, can_xlock, slocked, unlocked, Lock, LockAbortError, LockTable,
};

verus! {

/// The strongest lock that one transaction holds on a block.
#[derive(Debug, PartialEq, Eq, Structural, Clone, Copy)]
pub enum HeldLock {
    Shared,
    Exclusive,
}

/// The lock table after each block in `held` has had one lock released.
pub open spec fn released(t: Map<BlockKey, Lock>, held: Set<BlockKey>) -> Map<BlockKey, Lock> {
    Map::new(
        |k: BlockKey|
            if held.contains(k) {
                unlocked(lookup(t, k)) is Some
            } else {
                t.contains_key(k)
            },
        |k: BlockKey|
            if held.contains(k) {
                unlocked(lookup(t, k))->0
            } else {
                t[k]
            },
    )
}

/// The outcome of a shared-lock request by a transaction holding `m` on
/// block `k` of table `t`: `m2` and `t2` afterwards, `ok` whether granted.
pub open spec fn slock_post(
    m: Map<BlockKey, HeldLock>,
    t: Map<BlockKey, Lock>,
    k: BlockKey,
    m2: Map<BlockKey, HeldLock>,
    t2: Map<BlockKey, Lock>,
    ok: bool,
) -> bool {
    if m.contains_key(k) {
        ok && m2 == m && t2 == t
    } else if can_slock(lookup(t, k)) {
        ok && m2 == m.insert(k, HeldLock::Shared) && t2 == t.insert(k, slocked(lookup(t, k)))
    } else {
        !ok && m2 == m && t2 == t
    }
}

/// The outcome of an exclusive-lock request, as for `slock_post`. A
/// transaction without a lock on the block takes a shared one first, and
/// keeps it where the exclusive lock is refused.
pub open spec fn xlock_post(
    m: Map<BlockKey, HeldLock>,
    t: Map<BlockKey, Lock>,
    k: BlockKey,
    m2: Map<BlockKey, HeldLock>,
    t2: Map<BlockKey, Lock>,
    ok: bool,
) -> bool {
    let tk = lookup(t, k);
    if lookup(m, k) == Some(HeldLock::Exclusive) {
        ok && m2 == m && t2 == t
    } else if m.contains_key(k) {
        if can_xlock(tk) {
            ok && m2 == m.insert(k, HeldLock::Exclusive) && t2 == t.insert(k, Lock::Exclusive)
        } else {
            !ok && m2 == m && t2 == t
        }
    } else if !can_slock(tk) {
        !ok && m2 == m && t2 == t
    } else if can_xlock(Some(slocked(tk))) {
        ok && m2 == m.insert(k, HeldLock::Exclusive) && t2 == t.insert(k, Lock::Exclusive)
    } else {
        !ok && m2 == m.insert(k, HeldLock::Shared) && t2 == t.insert(k, slocked(tk))
    }
}

/// How many of the transactions whose locks are `held` hold a lock on `k`.
pub open spec fn holders(held: Seq<Map<BlockKey, HeldLock>>, k: BlockKey) -> nat
    decreases held.len(),
{
    if held.len() == 0 {
        0
    } else {
        holders(held.drop_last(), k) + (if held.last().contains_key(k) {
            1nat
        } else {
            0nat
        })
    }
}

/// The table's entry for every block agrees with the transactions' own
/// locks: absent when none holds a lock on it, `Shared(n)` when n do, and
/// `Exclusive` when one does.
pub open spec fn table_agrees(t: Map<BlockKey, Lock>, held: Seq<Map<BlockKey, HeldLock>>) -> bool {
    forall|k: BlockKey|
        match #[trigger] lookup(t, k) {
            None => holders(held, k) == 0,
            Some(Lock::Shared(n)) => n == holders(held, k),
            Some(Lock::Exclusive) => holders(held, k) == 1,
        }
}

proof fn lemma_holders_update(
    held: Seq<Map<BlockKey, HeldLock>>,
    i: int,
    m2: Map<BlockKey, HeldLock>,
    k: BlockKey,
)
    requires
        0 <= i < held.len(),
    ensures
        holders(held.update(i, m2), k) + (if held[i].contains_key(k) {
            1nat
        } else {
            0nat
        }) == holders(held, k) + (if m2.contains_key(k) {
            1nat
        } else {
            0nat
        }),
    decreases held.len(),
{
    let u = held.update(i, m2);
    if i == held.len() - 1 {
        assert(u.drop_last() =~= held.drop_last());
    } else {
        assert(u.drop_last() =~= held.drop_last().update(i, m2));
        lemma_holders_update(held.drop_last(), i, m2, k);
    }
}

proof fn lemma_holder_counted(held: Seq<Map<BlockKey, HeldLock>>, i: int, k: BlockKey)
    requires
        0 <= i < held.len(),
        held[i].contains_key(k),
    ensures
        holders(held, k) >= 1,
    decreases held.len(),
{
    if i < held.len() - 1 {
        lemma_holder_counted(held.drop_last(), i, k);
    }
}

/// A granted or refused shared-lock request keeps the lock table in
/// agreement with the transactions' locks: a shared count is the number of
/// transactions that share the block.
pub proof fn lemma_slock_keeps_counts(
    held: Seq<Map<BlockKey, HeldLock>>,
    t: Map<BlockKey, Lock>,
    i: int,
    k: BlockKey,
    m2: Map<BlockKey, HeldLock>,
    t2: Map<BlockKey, Lock>,
    ok: bool,
)
    requires
        0 <= i < held.len(),
        table_agrees(t, held),
        lookup(t, k) != Some(Lock::Shared(usize::MAX)),
        slock_post(held[i], t, k, m2, t2, ok),
    ensures
        table_agrees(t2, held.update(i, m2)),
{
    let h2 = held.update(i, m2);
    assert forall|x: BlockKey|
        match #[trigger] lookup(t2, x) {
            None => holders(h2, x) == 0,
            Some(Lock::Shared(n)) => n == holders(h2, x),
            Some(Lock::Exclusive) => holders(h2, x) == 1,
        } by {
        lemma_holders_update(held, i, m2, x);
        assert(match lookup(t, x) {
            None => holders(held, x) == 0,
            Some(Lock::Shared(n)) => n == holders(held, x),
            Some(Lock::Exclusive) => holders(held, x) == 1,
        });
    }
}

/// A granted or refused exclusive-lock request keeps the lock table in
/// agreement with the transactions' locks.
pub proof fn lemma_xlock_keeps_counts(
    held: Seq<Map<BlockKey, HeldLock>>,
    t: Map<BlockKey, Lock>,
    i: int,
    k: BlockKey,
    m2: Map<BlockKey, HeldLock>,
    t2: Map<BlockKey, Lock>,
    ok: bool,
)
    requires
        0 <= i < held.len(),
        table_agrees(t, held),
        lookup(t, k) != Some(Lock::Shared(usize::MAX)),
        xlock_post(held[i], t, k, m2, t2, ok),
    ensures
        table_agrees(t2, held.update(i, m2)),
{
    let h2 = held.update(i, m2);
    if held[i].contains_key(k) {
        lemma_holder_counted(held, i, k);
    }
    assert forall|x: BlockKey|
        match #[trigger] lookup(t2, x) {
            None => holders(h2, x) == 0,
            Some(Lock::Shared(n)) => n == holders(h2, x),
            Some(Lock::Exclusive) => holders(h2, x) == 1,
        } by {
        lemma_holders_update(held, i, m2, x);
        assert(match lookup(t, x) {
            None => holders(held, x) == 0,
            Some(Lock::Shared(n)) => n == holders(held, x),
            Some(Lock::Exclusive) => holders(held, x) == 1,
        });
    }
}

/// Releasing all of one transaction's locks keeps the lock table in
/// agreement with the transactions' locks.
pub proof fn lemma_release_keeps_counts(
    held: Seq<Map<BlockKey, HeldLock>>,
    t: Map<BlockKey, Lock>,
    i: int,
)
    requires
        0 <= i < held.len(),
        table_agrees(t, held),
    ensures
        table_agrees(
            released(t, held[i].dom()),
            held.update(i, Map::<BlockKey, HeldLock>::empty()),
        ),
{
    let m2 = Map::<BlockKey, HeldLock>::empty();
    let h2 = held.update(i, m2);
    let t2 = released(t, held[i].dom());
    assert forall|x: BlockKey|
        match #[trigger] lookup(t2, x) {
            None => holders(h2, x) == 0,
            Some(Lock::Shared(n)) => n == holders(h2, x),
            Some(Lock::Exclusive) => holders(h2, x) == 1,
        } by {
        lemma_holders_update(held, i, m2, x);
        assert(match lookup(t, x) {
            None => holders(held, x) == 0,
            Some(Lock::Shared(n)) => n == holders(held, x),
            Some(Lock::Exclusive) => holders(held, x) == 1,
        });
        if held[i].contains_key(x) {
            lemma_holder_counted(held, i, x);
        }
    }
}

/// The locks of one transaction. It asks the shared lock table for a lock
/// only when it holds none strong enough, and gives them all back at once.
#[derive(Debug)]
pub struct ConcurrencyManager {
    locks: BlockMap<HeldLock>,
}

impl View for ConcurrencyManager {
    type V = Map<BlockKey, HeldLock>;

    closed spec fn view(&self) -> Map<BlockKey, HeldLock> {
        self.locks@
    }
}

impl ConcurrencyManager {
    pub closed spec fn wf(&self) -> bool {
        self.locks.wf()
    }

    /// The lock this transaction holds on a block.
    pub open spec fn held_of(&self, k: BlockKey) -> Option<HeldLock> {
        lookup(self@, k)
    }

    /// A transaction that holds no lock.
    pub fn new() -> (r: ConcurrencyManager)
        ensures
            r.wf(),
            r@ == Map::<BlockKey, HeldLock>::empty(),
    {
        ConcurrencyManager { locks: BlockMap::new() }
    }

    /// The lock this transaction holds on `block`, if any.
    pub fn held(&self, block: &BlockId) -> (r: Option<HeldLock>)
        requires
            self.wf(),
        ensures
            r == self.held_of(block@),
    {
        self.locks.get(block)
    }

    /// Makes sure that this transaction holds at least a shared lock on `block`.
    pub fn slock(&mut self, table: &mut LockTable, block: &BlockId) -> (r: Result<
        (),
        LockAbortError,
    >)
        requires
            old(self).wf(),
            old(table).wf(),
            old(table).lock_of(block@) != Some(Lock::Shared(usize::MAX)),
        ensures
            final(self).wf(),
            final(table).wf(),
            slock_post(old(self)@, old(table)@, block@, final(self)@, final(table)@, r is Ok),
    {
        match self.locks.get(block) {
            Some(_) => Ok(()),
            None => {
                table.slock(block)?;
                self.locks.insert(block, HeldLock::Shared);
                Ok(())
            },
        }
    }

    /// Makes sure that this transaction holds an exclusive lock on `block`,
    /// taking a shared lock first where it holds none. Where the exclusive
    /// lock is refused, a shared lock taken on the way is kept.
    pub fn xlock(&mut self, table: &mut LockTable, block: &BlockId) -> (r: Result<
        (),
        LockAbortError,
    >)
        requires
            old(self).wf(),
            old(table).wf(),
            old(table).lock_of(block@) != Some(Lock::Shared(usize::MAX)),
        ensures
            final(self).wf(),
            final(table).wf(),
            xlock_post(old(self)@, old(table)@, block@, final(self)@, final(table)@, r is Ok),
    {
        match self.locks.get(block) {
            Some(HeldLock::Exclusive) => Ok(()),
            _ => {
                self.slock(table, block)?;
                table.xlock(block)?;
                self.locks.insert(block, HeldLock::Exclusive);
                proof {
                    assert(table@ =~= old(table)@.insert(block@, Lock::Exclusive));
                    assert(self@ =~= old(self)@.insert(block@, HeldLock::Exclusive));
                }
                Ok(())
            },
        }
    }

    /// Releases every lock this transaction holds, once each, and forgets them.
    pub fn release(&mut self, table: &mut LockTable) -> (r: Result<(), LockAbortError>)
        requires
            old(self).wf(),
            old(table).wf(),
        ensures
            final(self).wf(),
            final(table).wf(),
            r is Ok,
            final(self)@ == Map::<BlockKey, HeldLock>::empty(),
            final(table)@ == released(old(table)@, old(self)@.dom()),
    {
        proof {
            self.locks.lemma_keys();
        }
        let n = self.locks.len();
        let mut i: usize = 0;
        while i < n
            invariant
                self.wf(),
                self@ == old(self)@,
                table.wf(),
                n == self.locks.keys().len(),
                self.locks.keys().no_duplicates(),
                forall|k: BlockKey| self@.contains_key(k) <==> self.locks.keys().contains(k),
                i <= n,
                table@ == released(
                    old(table)@,
                    self.locks.keys().subrange(0, i as int).to_set(),
                ),
            decreases n - i,
        {
            let ghost before = table@;
            let ghost done = self.locks.keys().subrange(0, i as int).to_set();
            let block = self.locks.key_at(i);
            let _ = table.unlock(block);
            proof {
                let k = self.locks.keys()[i as int];
                let now = self.locks.keys().subrange(0, i + 1).to_set();
                assert(!done.contains(k)) by {
                    let s0 = self.locks.keys().subrange(0, i as int);
                    if done.contains(k) {
                        let j = choose|j: int| 0 <= j < s0.len() && s0[j] == k;
                        assert(self.locks.keys()[j] == k);
                    }
                }
                let s0 = self.locks.keys().subrange(0, i as int);
                assert(self.locks.keys().subrange(0, i + 1) =~= s0.push(k));
                s0.lemma_push_to_set_commute(k);
                assert(now =~= done.insert(k));
                assert(lookup(before, k) == lookup(old(table)@, k));
                assert(table@ =~= released(old(table)@, now));
            }
            i = i + 1;
        }
        proof {
            assert(self.locks.keys().subrange(0, n as int) =~= self.locks.keys());
            assert(self.locks.keys().to_set() =~= old(self)@.dom());
        }
        self.locks.clear();
        Ok(())
    }
}

} // verus!
