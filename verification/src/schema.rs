//! What keys and values of a table look like.

use vstd::prelude::*;
use vstd::string::StringExecFns;
use crate::btree_types::{BtreeError, IoErrorKind};

verus! {

/// The length of keys.
#[derive(Debug, Clone, Copy, PartialEq, Eq, Structural)]
pub enum KeyType {
    /// All keys have this many bytes.
    Fixed(usize),
    /// Keys have up to this many bytes.
    Variable(usize),
}

/// Whether keys share prefixes.
#[derive(Debug, Clone, Copy, PartialEq, Eq, Structural)]
pub enum PrefixType {
    /// They do not.
    Plain,
    /// They do, of the given length if it is known.
    Prefixable(Option<usize>),
}

/// What keys look like.
#[derive(Debug, Clone, Copy, PartialEq, Eq, Structural)]
pub struct KeySpec {
    pub key_type: KeyType,
    pub prefix_type: PrefixType,
}

/// What values look like.
#[derive(Debug, Clone, Copy, PartialEq, Eq, Structural)]
pub enum ValueSpec {
    /// All values have this many bytes.
    Fixed(usize),
    /// Values have up to this many bytes.
    Variable(usize),
}

/// What a table looks like.
#[derive(Debug, Clone, Copy, PartialEq, Eq, Structural)]
pub struct TableSpec {
    pub key_spec: KeySpec,
    pub value_spec: ValueSpec,
    /// Bytes of a node.
    pub node_size: u32,
    /// Leading bytes of a key that tell partitions apart; without any, there are none.
    pub partition_key_size: usize,
}

/// What can go wrong in a table.
#[derive(Debug)]
pub enum HomeDbError {
    /// A request to the tree failed, in words.
    BtreeError(String),
    /// The specification cannot be met.
    Config(String),
    /// The request does not fit the table.
    InvalidConfig(String),
    /// The request does not fit the state of the object.
    InvalidOperation(String),
    /// The key is longer than allowed.
    KeyTooLarge { size: usize, max: usize },
    /// The key does not have the length that all keys have.
    InvalidKeySize { size: usize, expected: usize },
    /// The value is longer than allowed.
    ValueTooLarge { size: usize, max: usize },
    /// The value does not have the length that all values have.
    InvalidValueSize { size: usize, expected: usize },
}

/// An error of a tree in words.
pub open spec fn error_text(e: BtreeError) -> Seq<char> {
    match e {
        BtreeError::Io(IoErrorKind::InvalidInput) => "Io(InvalidInput)"@,
        BtreeError::Io(IoErrorKind::OutOfMemory) => "Io(OutOfMemory)"@,
        BtreeError::Io(IoErrorKind::Other) => "Io(Other)"@,
        BtreeError::NodeNotFound => "NodeNotFound"@,
    }
}

/// The failure of a table whose tree has failed.
pub open spec fn tree_failure(e: HomeDbError, cause: BtreeError) -> bool {
    e matches HomeDbError::BtreeError(s) && s@ == error_text(cause)
}

/// The failure of a table of which some tree has failed.
pub open spec fn of_tree(e: HomeDbError) -> bool {
    exists|cause: BtreeError| #[trigger] tree_failure(e, cause)
}

/// What a table reports where its tree has failed.
pub fn failed_tree(e: BtreeError) -> (r: HomeDbError)
    ensures
        tree_failure(r, e),
{
    let text: &str = match e {
        BtreeError::Io(IoErrorKind::InvalidInput) => "Io(InvalidInput)",
        BtreeError::Io(IoErrorKind::OutOfMemory) => "Io(OutOfMemory)",
        BtreeError::Io(IoErrorKind::Other) => "Io(Other)",
        BtreeError::NodeNotFound => "NodeNotFound",
    };
    HomeDbError::BtreeError(String::from_str(text))
}

impl KeySpec {
    /// Whether a key has an allowed length.
    pub open spec fn allows(self, len: int) -> bool {
        match self.key_type {
            KeyType::Fixed(n) => len == n,
            KeyType::Variable(n) => len <= n,
        }
    }

    /// What is wrong with the length of a key.
    pub open spec fn complaint(self, len: usize) -> HomeDbError {
        match self.key_type {
            KeyType::Fixed(n) => HomeDbError::InvalidKeySize { size: len, expected: n },
            KeyType::Variable(n) => HomeDbError::KeyTooLarge { size: len, max: n },
        }
    }

    /// Refuses keys of a length that is not allowed.
    pub fn validate_key(&self, key: &Vec<u8>) -> (r: Result<(), HomeDbError>)
        ensures
            r is Ok == self.allows(key@.len() as int),
            r matches Err(e) ==> e == self.complaint(key.len()),
    {
        let size: usize = key.len();
        match self.key_type {
            KeyType::Fixed(n) => if size == n {
                Ok(())
            } else {
                Err(HomeDbError::InvalidKeySize { size, expected: n })
            },
            KeyType::Variable(n) => if size <= n {
                Ok(())
            } else {
                Err(HomeDbError::KeyTooLarge { size, max: n })
            },
        }
    }
}

impl ValueSpec {
    /// Whether a value has an allowed length.
    pub open spec fn allows(self, len: int) -> bool {
        match self {
            ValueSpec::Fixed(n) => len == n,
            ValueSpec::Variable(n) => len <= n,
        }
    }

    /// What is wrong with the length of a value.
    pub open spec fn complaint(self, len: usize) -> HomeDbError {
        match self {
            ValueSpec::Fixed(n) => HomeDbError::InvalidValueSize { size: len, expected: n },
            ValueSpec::Variable(n) => HomeDbError::ValueTooLarge { size: len, max: n },
        }
    }

    /// Refuses values of a length that is not allowed.
    pub fn validate_value(&self, value: &Vec<u8>) -> (r: Result<(), HomeDbError>)
        ensures
            r is Ok == self.allows(value@.len() as int),
            r matches Err(e) ==> e == self.complaint(value.len()),
    {
        let size: usize = value.len();
        match self {
            ValueSpec::Fixed(n) => if size == *n {
                Ok(())
            } else {
                Err(HomeDbError::InvalidValueSize { size, expected: *n })
            },
            ValueSpec::Variable(n) => if size <= *n {
                Ok(())
            } else {
                Err(HomeDbError::ValueTooLarge { size, max: *n })
            },
        }
    }
}

impl TableSpec {
    /// Refuses keys and values of lengths that are not allowed; the key is looked at first.
    pub fn validate(&self, key: &Vec<u8>, value: &Vec<u8>) -> (r: Result<(), HomeDbError>)
        ensures
            r is Ok == (self.key_spec.allows(key@.len() as int) && self.value_spec.allows(
                value@.len() as int,
            )),
            r matches Err(e) ==> e == if !self.key_spec.allows(key@.len() as int) {
                self.key_spec.complaint(key.len())
            } else {
                self.value_spec.complaint(value.len())
            },
    {
        match self.key_spec.validate_key(key) {
            Err(e) => Err(e),
            Ok(()) => self.value_spec.validate_value(value),
        }
    }
}

} // verus!
