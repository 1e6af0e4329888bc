use vstd::prelude::*;

use crate::block_id::{BlockId, BlockKey};
use crate::block_map::{lookup, BlockMap};

verus! {

/// The lock held on a block: exclusive, or shared by a number of holders.
#[derive(Debug, PartialEq, Eq, Structural, Clone, Copy)]
pub enum Lock {
    Exclusive,
    Shared(usize),
}

/// A lock request that cannot be granted now.
#[derive(Debug, PartialEq, Eq, Structural, Clone, Copy)]
pub struct LockAbortError;

impl LockAbortError {
    /// A short description of the error.
    pub fn message(&self) -> (r: &'static str) {
        "lock abort"
    }
}

/// Whether a shared lock can be granted on a block in state `l`.
pub open spec fn can_slock(l: Option<Lock>) -> bool {
    l != Some(Lock::Exclusive)
}

/// The state of a block after a shared lock is granted on it.
pub open spec fn slocked(l: Option<Lock>) -> Lock {
    match l {
        Some(Lock::Shared(n)) => Lock::Shared((n + 1) as usize),
        _ => Lock::Shared(1),
    }
}

/// Whether an exclusive lock can be granted on a block in state `l`: no
/// holder besides the caller's own shared lock.
pub open spec fn can_xlock(l: Option<Lock>) -> bool {
    !(l matches Some(Lock::Shared(n)) && n > 1)
}

/// The state of a block after one of its locks is released.
pub open spec fn unlocked(l: Option<Lock>) -> Option<Lock> {
    match l {
        Some(Lock::Shared(n)) if n > 1 => Some(Lock::Shared((n - 1) as usize)),
        _ => None,
    }
}

/// `m` with the state of `k` set to `l` (absent when `l` is `None`).
pub open spec fn with_lock(m: Map<BlockKey, Lock>, k: BlockKey, l: Option<Lock>) -> Map<
    BlockKey,
    Lock,
> {
    match l {
        Some(x) => m.insert(k, x),
        None => m.remove(k),
    }
}

/// The table of block locks shared by all transactions. A block that is
/// absent is unlocked.
#[derive(Debug)]
pub struct LockTable {
    locks: BlockMap<Lock>,
}

impl View for LockTable {
    type V = Map<BlockKey, Lock>;

    closed spec fn view(&self) -> Map<BlockKey, Lock> {
        self.locks@
    }
}

impl LockTable {
    pub closed spec fn wf(&self) -> bool {
        self.locks.wf()
    }

    /// The state of a block in this table.
    pub open spec fn lock_of(&self, k: BlockKey) -> Option<Lock> {
        lookup(self@, k)
    }

    /// An empty table: every block unlocked.
    pub fn new() -> (r: LockTable)
        ensures
            r.wf(),
            r@ == Map::<BlockKey, Lock>::empty(),
    {
        LockTable { locks: BlockMap::new() }
    }

    /// The state of `block`; `None` when it is unlocked.
    pub fn get(&self, block: &BlockId) -> (r: Option<Lock>)
        requires
            self.wf(),
        ensures
            r == self.lock_of(block@),
    {
        self.locks.get(block)
    }

    /// Grants a shared lock on `block` unless it is locked exclusively.
    pub fn slock(&mut self, block: &BlockId) -> (r: Result<(), LockAbortError>)
        requires
            old(self).wf(),
            old(self).lock_of(block@) != Some(Lock::Shared(usize::MAX)),
        ensures
            final(self).wf(),
            can_slock(old(self).lock_of(block@)) ==> r is Ok && final(self)@ == old(self)@.insert(
                block@,
                slocked(old(self).lock_of(block@)),
            ),
            !can_slock(old(self).lock_of(block@)) ==> r == Err::<(), LockAbortError>(
                LockAbortError,
            ) && final(self)@ == old(self)@,
    {
        match self.locks.get(block) {
            Some(Lock::Exclusive) => Err(LockAbortError),
            Some(Lock::Shared(n)) => {
                self.locks.insert(block, Lock::Shared(n + 1));
                Ok(())
            },
            None => {
                self.locks.insert(block, Lock::Shared(1));
                Ok(())
            },
        }
    }

    /// Grants an exclusive lock on `block` unless another holder shares it.
    /// The caller is expected to hold a shared lock on it already.
    pub fn xlock(&mut self, block: &BlockId) -> (r: Result<(), LockAbortError>)
        requires
            old(self).wf(),
        ensures
            final(self).wf(),
            can_xlock(old(self).lock_of(block@)) ==> r is Ok && final(self)@ == old(self)@.insert(
                block@,
                Lock::Exclusive,
            ),
            !can_xlock(old(self).lock_of(block@)) ==> r == Err::<(), LockAbortError>(
                LockAbortError,
            ) && final(self)@ == old(self)@,
    {
        match self.locks.get(block) {
            Some(Lock::Shared(n)) if n > 1 => Err(LockAbortError),
            _ => {
                self.locks.insert(block, Lock::Exclusive);
                Ok(())
            },
        }
    }

    /// Releases one lock on `block`: a shared count above one goes down by
    /// one, any other state becomes unlocked.
    pub fn unlock(&mut self, block: &BlockId) -> (r: Result<(), LockAbortError>)
        requires
            old(self).wf(),
        ensures
            final(self).wf(),
            r is Ok,
            final(self)@ == with_lock(old(self)@, block@, unlocked(old(self).lock_of(block@))),
    {
        match self.locks.get(block) {
            Some(Lock::Shared(n)) if n > 1 => {
                self.locks.insert(block, Lock::Shared(n - 1));
            },
            _ => {
                self.locks.remove(block);
            },
        }
        Ok(())
    }
}

} // verus!
