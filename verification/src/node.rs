//! Nodes and their links.

use vstd::prelude::*;
use vstd::std_specs::cmp::PartialEqSpec;
use crate::id::NodeId;

verus! {

/// The five links of a node.
#[derive(Clone, Copy, Debug, PartialEq, Eq, Structural, Hash)]
pub struct Links {
    pub parent: Option<NodeId>,
    pub previous_sibling: Option<NodeId>,
    pub next_sibling: Option<NodeId>,
    pub first_child: Option<NodeId>,
    pub last_child: Option<NodeId>,
}

impl Links {
    /// The links of a node that stands alone.
    pub open spec fn detached() -> Links {
        Links {
            parent: None,
            previous_sibling: None,
            next_sibling: None,
            first_child: None,
            last_child: None,
        }
    }
}

/// A node of the tree: a payload and the links to its neighbours.
#[derive(Debug)]
pub struct Node<T> {
    pub(crate) links: Links,
    pub(crate) data: T,
}

impl<T> Node<T> {
    /// The links of this node.
    pub closed spec fn links(&self) -> Links {
        self.links
    }

    /// The payload of this node.
    pub closed spec fn data(&self) -> T {
        self.data
    }

    /// A node is its links and its payload, nothing more.
    pub proof fn lemma_extensional(a: Node<T>, b: Node<T>)
        requires
            a.links() == b.links(),
            a.data() == b.data(),
        ensures
            a == b,
    {
    }

    /// A node without neighbours that holds `data`.
    pub(crate) fn new(data: T) -> (node: Node<T>)
        ensures
            node.links() == Links::detached(),
            node.data() == data,
    {
        Node {
            links: Links {
                parent: None,
                previous_sibling: None,
                next_sibling: None,
                first_child: None,
                last_child: None,
            },
            data,
        }
    }

    /// A copy of the node's links.
    pub fn get_links(&self) -> (links: Links)
        ensures
            links == self.links(),
    {
        self.links
    }

    /// Replaces the node's links and leaves the payload alone.
    pub(crate) fn set_links(&mut self, links: Links)
        ensures
            final(self).links() == links,
            final(self).data() == old(self).data(),
    {
        self.links = links;
    }

    /// Takes the node apart.
    pub(crate) fn into_data(self) -> (data: T)
        ensures
            data == self.data(),
    {
        self.data
    }

    /// A reference to the payload.
    pub fn get(&self) -> (data: &T)
        ensures
            *data == self.data(),
    {
        &self.data
    }

    /// A mutable reference to the payload. The links cannot be changed
    /// through it.
    pub fn get_mut(&mut self) -> (data: &mut T)
        ensures
            *data == old(self).data(),
            final(self).data() == *final(data),
            final(self).links() == old(self).links(),
    {
        &mut self.data
    }

    /// The two nodes have the same links, and their payloads are equal as
    /// `T` understands it.
    pub open spec fn same_as(&self, other: &Node<T>) -> bool where T: PartialEq {
        self.links() == other.links() && self.data().eq_spec(&other.data())
    }

    /// The parent of this node, if it has one.
    pub fn parent(&self) -> (id: Option<NodeId>)
        ensures
            id == self.links().parent,
    {
        self.links.parent
    }

    /// The first child of this node, if it has children.
    pub fn first_child(&self) -> (id: Option<NodeId>)
        ensures
            id == self.links().first_child,
    {
        self.links.first_child
    }

    /// The last child of this node, if it has children.
    pub fn last_child(&self) -> (id: Option<NodeId>)
        ensures
            id == self.links().last_child,
    {
        self.links.last_child
    }

    /// The sibling just before this node, if there is one.
    pub fn previous_sibling(&self) -> (id: Option<NodeId>)
        ensures
            id == self.links().previous_sibling,
    {
        self.links.previous_sibling
    }

    /// The sibling just after this node, if there is one.
    pub fn next_sibling(&self) -> (id: Option<NodeId>)
        ensures
            id == self.links().next_sibling,
    {
        self.links.next_sibling
    }
}

impl<T: Clone> Clone for Node<T> {
    /// A node with the same links and a clone of the payload.
    fn clone(&self) -> (copy: Node<T>)
        ensures
            copy.links() == self.links(),
            cloned(self.data(), copy.data()),
    {
        Node { links: self.links, data: self.data.clone() }
    }
}

impl<T: PartialEq> PartialEq for Node<T> {
    fn eq(&self, other: &Node<T>) -> (equal: bool) {
        self.links == other.links && self.data == other.data
    }
}

impl<T: PartialEq> vstd::std_specs::cmp::PartialEqSpecImpl for Node<T> {
    open spec fn obeys_eq_spec() -> bool {
        T::obeys_eq_spec()
    }

    open spec fn eq_spec(&self, other: &Node<T>) -> bool {
        self.same_as(other)
    }
}

} // verus!
