use vstd::prelude::*;

verus! {

/// Identifies one fixed-size block of a file: the file's name and the
/// zero-based index of the block within it.
#[derive(Debug, Hash)]
pub struct BlockId {
    filename: String,
    block_number: usize,
}

/// The abstract value of a block identifier.
pub type BlockKey = (Seq<char>, usize);

impl View for BlockId {
    type V = BlockKey;

    closed spec fn view(&self) -> BlockKey {
        (self.filename@, self.block_number)
    }
}

impl BlockId {
    pub fn new(filename: &str, block_number: usize) -> (r: BlockId)
        ensures
            r@ == (filename@, block_number),
    {
        BlockId { filename: filename.to_string(), block_number }
    }

    pub fn filename(&self) -> (r: &str)
        ensures
            r@ == self@.0,
    {
        self.filename.as_str()
    }

    pub fn block_number(&self) -> (r: usize)
        ensures
            r == self@.1,
    {
        self.block_number
    }

    /// A copy of this identifier.
    pub fn copy(&self) -> (r: BlockId)
        ensures
            r@ == self@,
    {
        BlockId { filename: self.filename.clone(), block_number: self.block_number }
    }

    /// Structural equality of two identifiers.
    pub fn same(&self, other: &BlockId) -> (r: bool)
        ensures
            r == (self@ == other@),
    {
        self.block_number == other.block_number && self.filename == other.filename
    }
}

impl Clone for BlockId {
    fn clone(&self) -> (r: BlockId)
        ensures
            r@ == self@,
    {
        self.copy()
    }
}

impl PartialEq for BlockId {
    fn eq(&self, other: &BlockId) -> (r: bool) {
        self.same(other)
    }
}

impl vstd::std_specs::cmp::PartialEqSpecImpl for BlockId {
    open spec fn obeys_eq_spec() -> bool {
        true
    }

    open spec fn eq_spec(&self, other: &BlockId) -> bool {
        self@ == other@
    }
}

impl Eq for BlockId {}

} // verus!
