//! The table of block definitions: which type identifier goes with which
//! name, and what each type is flagged as.

use vstd::prelude::*;
use crate::error::ModelError;

verus! {

/// All block definitions, in the order of their source.
#[derive(Debug, Clone, PartialEq, Eq)]
pub struct BlockDefinitionsFile {
    pub blocks: Vec<BlockDefinition>,
}

/// One block type: its identifier, its name, and the names of what it is
/// flagged as and of what its metadata holds.
#[derive(Debug, Clone, PartialEq, Eq)]
pub struct BlockDefinition {
    pub id: u8,
    pub name: String,
    pub flags: Vec<String>,
    pub ticks: Vec<String>,
    pub values: Vec<String>,
    pub fields: Vec<String>,
    pub colors: Vec<String>,
    pub gradients: Vec<String>,
    pub vectors: Vec<String>,
}

/// The index of the first definition with the given name among the first
/// `n`, if there is one.
pub open spec fn first_named(blocks: Seq<BlockDefinition>, name: Seq<char>, n: int) -> Option<int>
    decreases n,
{
    if n <= 0 {
        None
    } else {
        match first_named(blocks, name, n - 1) {
            Some(i) => Some(i),
            None => if blocks[n - 1].name@ == name {
                Some(n - 1)
            } else {
                None
            },
        }
    }
}

/// A name that was found among the first `k` definitions is found at the
/// same place among more of them.
pub proof fn lemma_first_named_stable(
    blocks: Seq<BlockDefinition>,
    name: Seq<char>,
    k: int,
    n: int,
)
    requires
        k <= n,
        first_named(blocks, name, k) is Some,
    ensures
        first_named(blocks, name, n) == first_named(blocks, name, k),
    decreases n - k,
{
    if k < n {
        lemma_first_named_stable(blocks, name, k, n - 1);
    }
}

impl BlockDefinitionsFile {
    /// The identifier of the first definition that carries the name.
    pub open spec fn id_of(&self, name: Seq<char>) -> Option<u8> {
        match first_named(self.blocks@, name, self.blocks@.len() as int) {
            Some(i) => Some(self.blocks@[i].id),
            None => None,
        }
    }

    /// Looks a block type up by its name.
    pub fn lookup_id(&self, name: &str) -> (r: Result<u8, ModelError>)
        ensures
            match r {
                Ok(id) => self.id_of(name@) == Some(id),
                Err(e) => e == ModelError::NotFound && self.id_of(name@) is None,
            },
    {
        let wanted: String = name.to_owned();
        let mut i: usize = 0;
        while i < self.blocks.len()
            invariant
                i <= self.blocks.len(),
                wanted@ == name@,
                first_named(self.blocks@, name@, i as int) is None,
            decreases self.blocks.len() - i,
        {
            if self.blocks[i].name == wanted {
                proof {
                    lemma_first_named_stable(
                        self.blocks@,
                        name@,
                        i + 1,
                        self.blocks@.len() as int,
                    );
                }
                return Ok(self.blocks[i].id);
            }
            i += 1;
        }
        Err(ModelError::NotFound)
    }
}

/// The index of the first definition with the given identifier among the
/// first `n`, if there is one.
pub open spec fn first_with_id(blocks: Seq<BlockDefinition>, id: u8, n: int) -> Option<int>
    decreases n,
{
    if n <= 0 {
        None
    } else {
        match first_with_id(blocks, id, n - 1) {
            Some(i) => Some(i),
            None => if blocks[n - 1].id == id {
                Some(n - 1)
            } else {
                None
            },
        }
    }
}

/// A definition that was found among the first `k` is found at the same
/// place among more of them.
pub proof fn lemma_first_with_id_stable(blocks: Seq<BlockDefinition>, id: u8, k: int, n: int)
    requires
        k <= n,
        first_with_id(blocks, id, k) is Some,
    ensures
        first_with_id(blocks, id, n) == first_with_id(blocks, id, k),
    decreases n - k,
{
    if k < n {
        lemma_first_with_id_stable(blocks, id, k, n - 1);
    }
}

impl BlockDefinitionsFile {
    /// The first definition of the block type with the given identifier.
    pub open spec fn definition_of(&self, id: u8) -> Option<BlockDefinition> {
        match first_with_id(self.blocks@, id, self.blocks@.len() as int) {
            Some(i) => Some(self.blocks@[i]),
            None => None,
        }
    }

    /// What a block type is flagged as, if the type is defined.
    pub fn flags(&self, id: u8) -> (r: Option<&Vec<String>>)
        ensures
            match r {
                Some(flags) => self.definition_of(id) matches Some(d) && d.flags == *flags,
                None => self.definition_of(id) is None,
            },
    {
        let mut i: usize = 0;
        while i < self.blocks.len()
            invariant
                i <= self.blocks.len(),
                first_with_id(self.blocks@, id, i as int) is None,
            decreases self.blocks.len() - i,
        {
            if self.blocks[i].id == id {
                proof {
                    lemma_first_with_id_stable(
                        self.blocks@,
                        id,
                        i + 1,
                        self.blocks@.len() as int,
                    );
                }
                return Some(&self.blocks[i].flags);
            }
            i += 1;
        }
        None
    }
}

} // verus!
