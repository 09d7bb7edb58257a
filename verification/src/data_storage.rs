//! A content item in storage: its bytes and what is known of it.

use crate::types::{Address, Content, Metadata, PublicKey};
use vstd::prelude::*;

verus! {

/// Why an operation on a stored content item failed.
#[derive(Clone, Copy, Debug, PartialEq, Eq, Structural, Hash)]
pub enum StorageError {
    /// The caller is not the owner of the contract.
    NotContractOwner,
    /// The content has been stored before.
    AlreadyInitialized,
    /// Nothing has been stored yet.
    NotInitialized,
    /// The content has no description.
    NoDescription,
}

/// A stored content item.
#[derive(Clone, Debug, PartialEq, Eq)]
pub struct Contract {
    pub metadata: Metadata,
    pub content: Content,
}

impl Contract {
    /// Stores `content` under `name`. The caller, who must be the owner of
    /// the contract, becomes the owner of the content, and the content is
    /// not versioned. Content can be stored only once.
    pub fn new(
        caller: Address,
        contract_owner: Address,
        initialized: bool,
        name: String,
        description: Option<String>,
        pub_key: PublicKey,
        content: Content,
    ) -> (r: Result<Contract, StorageError>)
        ensures
            match r {
                Ok(c) => {
                    &&& caller == contract_owner
                    &&& !initialized
                    &&& c.metadata == (Metadata {
                        name,
                        description,
                        pub_key,
                        owner: caller,
                        versioned: false,
                    })
                    &&& c.content == content
                },
                Err(e) => if caller != contract_owner {
                    e == StorageError::NotContractOwner
                } else {
                    initialized && e == StorageError::AlreadyInitialized
                },
            },
    {
        if caller != contract_owner {
            return Err(StorageError::NotContractOwner);
        }
        if initialized {
            return Err(StorageError::AlreadyInitialized);
        }
        Ok(
            Contract {
                metadata: Metadata { name, description, pub_key, owner: caller, versioned: false },
                content,
            },
        )
    }

    /// The stored item, if there is one: without one nothing has been stored
    /// yet.
    pub fn load(stored: Option<Contract>) -> (r: Result<Contract, StorageError>)
        ensures
            match r {
                Ok(c) => stored == Some(c),
                Err(e) => stored is None && e == StorageError::NotInitialized,
            },
    {
        match stored {
            Some(c) => Ok(c),
            None => Err(StorageError::NotInitialized),
        }
    }

    /// The bytes of the content.
    pub fn content(&self) -> (r: Content)
        ensures
            r.0@ == self.content.0@,
    {
        self.content.duplicate()
    }

    /// The name of the content.
    pub fn name(&self) -> (r: String)
        ensures
            r == self.metadata.name,
    {
        self.metadata.name.clone()
    }

    /// The public key of the content.
    pub fn public_key(&self) -> (r: PublicKey)
        ensures
            r@ == self.metadata.pub_key@,
    {
        self.metadata.pub_key.duplicate()
    }

    /// What is known of the content.
    pub fn metadata(&self) -> (r: Metadata)
        ensures
            r.name == self.metadata.name,
            r.description == self.metadata.description,
            r.pub_key@ == self.metadata.pub_key@,
            r.owner == self.metadata.owner,
            r.versioned == self.metadata.versioned,
    {
        self.metadata.duplicate()
    }

    /// The description of the content. Fails with `NoDescription` where it
    /// has none.
    pub fn description(&self) -> (r: Result<String, StorageError>)
        ensures
            match r {
                Ok(text) => self.metadata.description == Some(text),
                Err(e) => self.metadata.description is None && e == StorageError::NoDescription,
            },
    {
        match &self.metadata.description {
            Some(text) => Ok(text.clone()),
            None => Err(StorageError::NoDescription),
        }
    }

    /// Whether the content is encrypted: whether it has a public key that is
    /// not empty.
    pub fn encrypted(&self) -> (r: bool)
        ensures
            r == (self.metadata.pub_key@.len() > 0),
    {
        !self.metadata.pub_key.is_empty()
    }

    /// The owner of the content.
    pub fn owner(&self) -> (r: Address)
        ensures
            r == self.metadata.owner,
    {
        self.metadata.owner
    }
}

} // verus!
