//! A key into the history and data stores: a path and a 20-byte node hash.
use vstd::prelude::*;

verus! {

/// A 20-byte node hash.
#[derive(Clone, Copy, Debug)]
pub struct Node {
    pub bytes: [u8; 20],
}

#[derive(Debug)]
pub struct Key {
    pub name: Vec<u8>,
    pub node: Node,
}

impl Key {
    pub fn new(name: Vec<u8>, node: Node) -> (r: Key)
        ensures
            r.name@ == name@,
            r.node == node,
    {
        Key { name, node }
    }

    pub fn name(&self) -> (r: &[u8])
        ensures
            r@ == self.name@,
    {
        self.name.as_slice()
    }

    pub fn node(&self) -> (r: &Node)
        ensures
            *r == self.node,
    {
        &self.node
    }
}

} // verus!
