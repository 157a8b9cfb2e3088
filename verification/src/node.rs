//! The node model: values, inner nodes, their wire form and their digests.

use crate::hasher::Hasher;
use crate::{DBValue, TreeError};
use vstd::prelude::*;
use vstd::slice::{slice_subrange, slice_to_vec};
use vstd::std_specs::convert::FromSpecImpl;

verus! {

/// A reference to a child: its digest, and whether the child is staged in
/// a writer's overlay or believed to be in the store.
#[derive(Debug)]
pub enum NodeHash {
    InMemory(Vec<u8>),
    Hash(Vec<u8>),
}

/// The mathematical value of a [`NodeHash`].
pub enum NodeHashView {
    InMemory(Seq<u8>),
    Hash(Seq<u8>),
}

impl NodeHashView {
    /// The digest, whatever its provenance.
    pub open spec fn digest(self) -> Seq<u8> {
        match self {
            NodeHashView::InMemory(h) => h,
            NodeHashView::Hash(h) => h,
        }
    }

    /// The same digest, marked as stored.
    pub open spec fn stored(self) -> NodeHashView {
        NodeHashView::Hash(self.digest())
    }
}

impl View for NodeHash {
    type V = NodeHashView;

    open spec fn view(&self) -> NodeHashView {
        match self {
            NodeHash::InMemory(h) => NodeHashView::InMemory(h@),
            NodeHash::Hash(h) => NodeHashView::Hash(h@),
        }
    }
}

impl NodeHash {
    /// The digest, whatever its provenance.
    pub fn get_hash(&self) -> (hash: &Vec<u8>)
        ensures
            hash@ == self@.digest(),
    {
        match self {
            NodeHash::Hash(hash) => hash,
            NodeHash::InMemory(hash) => hash,
        }
    }
}

impl Clone for NodeHash {
    fn clone(&self) -> (res: Self)
        ensures
            res@ == self@,
    {
        match self {
            NodeHash::Hash(hash) => NodeHash::Hash(hash.clone()),
            NodeHash::InMemory(hash) => NodeHash::InMemory(hash.clone()),
        }
    }
}

/// The bytes of a leaf, and whether they were loaded from the store or
/// written in this session.
#[derive(Debug)]
pub enum Value {
    Cached(DBValue),
    New(DBValue),
}

/// The mathematical value of a [`Value`].
pub enum ValueView {
    Cached(Seq<u8>),
    New(Seq<u8>),
}

impl ValueView {
    /// The bytes, whatever their provenance.
    pub open spec fn bytes(self) -> Seq<u8> {
        match self {
            ValueView::Cached(v) => v,
            ValueView::New(v) => v,
        }
    }

    /// The same bytes, marked as loaded from the store.
    pub open spec fn stored(self) -> ValueView {
        ValueView::Cached(self.bytes())
    }
}

impl View for Value {
    type V = ValueView;

    open spec fn view(&self) -> ValueView {
        match self {
            Value::Cached(v) => ValueView::Cached(v@),
            Value::New(v) => ValueView::New(v@),
        }
    }
}

impl Value {
    /// The bytes, whatever their provenance.
    pub fn get(&self) -> (value: &DBValue)
        ensures
            value@ == self@.bytes(),
    {
        match self {
            Value::Cached(value) => value,
            Value::New(value) => value,
        }
    }
}

impl Clone for Value {
    fn clone(&self) -> (res: Self)
        ensures
            res@ == self@,
    {
        match self {
            Value::Cached(value) => Value::Cached(value.clone()),
            Value::New(value) => Value::New(value.clone()),
        }
    }
}

/// A node of the tree: a leaf value, or an inner node with two children.
#[derive(Debug)]
pub enum Node {
    Value(Value),
    Inner(NodeHash, NodeHash),
}

/// The mathematical value of a [`Node`].
pub enum NodeView {
    Value(ValueView),
    Inner(NodeHashView, NodeHashView),
}

impl NodeView {
    /// The bytes whose digest addresses the node: the value bytes of a
    /// leaf, the two child digests of an inner node. The tag of the wire
    /// form is not part of them.
    pub open spec fn preimage(self) -> Seq<u8> {
        match self {
            NodeView::Value(v) => v.bytes(),
            NodeView::Inner(l, r) => l.digest() + r.digest(),
        }
    }

    /// The digest under which the node is stored.
    pub open spec fn digest<H: Hasher>(self) -> Seq<u8> {
        H::spec_hash(self.preimage())
    }

    /// The wire form: tag 0 and the value bytes, or tag 1 and the two
    /// child digests.
    pub open spec fn encoding(self) -> Seq<u8> {
        match self {
            NodeView::Value(v) => seq![0u8] + v.bytes(),
            NodeView::Inner(l, r) => seq![1u8] + l.digest() + r.digest(),
        }
    }

    /// The node that a reader gets back from the store: the same content,
    /// with every provenance mark set to stored.
    pub open spec fn stored(self) -> NodeView {
        match self {
            NodeView::Value(v) => NodeView::Value(v.stored()),
            NodeView::Inner(l, r) => NodeView::Inner(l.stored(), r.stored()),
        }
    }

    /// Whether both child digests of an inner node have `len` bytes.
    pub open spec fn well_formed(self, len: nat) -> bool {
        match self {
            NodeView::Value(_) => true,
            NodeView::Inner(l, r) => l.digest().len() == len && r.digest().len() == len,
        }
    }

    /// The child on the side that `bit` names.
    pub open spec fn child(self, bit: u8) -> Result<NodeHashView, TreeError> {
        if bit == 0 {
            self.left_child()
        } else if bit == 1 {
            self.right_child()
        } else {
            Err(TreeError::NodeIndexOutOfBounds)
        }
    }

    /// The left child of an inner node.
    pub open spec fn left_child(self) -> Result<NodeHashView, TreeError> {
        match self {
            NodeView::Value(_) => Err(TreeError::UnexpectedNodeType),
            NodeView::Inner(l, _) => Ok(l),
        }
    }

    /// The right child of an inner node.
    pub open spec fn right_child(self) -> Result<NodeHashView, TreeError> {
        match self {
            NodeView::Value(_) => Err(TreeError::UnexpectedNodeType),
            NodeView::Inner(_, r) => Ok(r),
        }
    }

    /// The value of a leaf.
    pub open spec fn value(self) -> Result<ValueView, TreeError> {
        match self {
            NodeView::Value(v) => Ok(v),
            NodeView::Inner(_, _) => Err(TreeError::UnexpectedNodeType),
        }
    }

    /// The node with the child on the side of `bit` replaced.
    pub open spec fn with_child(self, bit: u8, hash: NodeHashView) -> NodeView {
        match self {
            NodeView::Value(_) => self,
            NodeView::Inner(l, r) => if bit == 0 {
                NodeView::Inner(hash, r)
            } else if bit == 1 {
                NodeView::Inner(l, hash)
            } else {
                self
            },
        }
    }

    /// What the wire form `bytes` decodes to, where digests have `len`
    /// bytes.
    pub open spec fn decode(bytes: Seq<u8>, len: nat) -> Result<NodeView, TreeError> {
        if bytes.len() == 0 {
            Err(TreeError::NodeDeserializationFailed)
        } else if bytes[0] == 0 {
            Ok(NodeView::Value(ValueView::Cached(bytes.subrange(1, bytes.len() as int))))
        } else if bytes[0] == 1 {
            if bytes.len() - 1 == 2 * len {
                Ok(
                    NodeView::Inner(
                        NodeHashView::Hash(bytes.subrange(1, 1 + len as int)),
                        NodeHashView::Hash(bytes.subrange(1 + len as int, 1 + 2 * len as int)),
                    ),
                )
            } else {
                Err(TreeError::DecodeHashFailed)
            }
        } else {
            Err(TreeError::NodeDeserializationFailed)
        }
    }
}

impl View for Node {
    type V = NodeView;

    open spec fn view(&self) -> NodeView {
        match self {
            Node::Value(v) => NodeView::Value(v@),
            Node::Inner(l, r) => NodeView::Inner(l@, r@),
        }
    }
}

impl Clone for Node {
    fn clone(&self) -> (res: Self)
        ensures
            res@ == self@,
    {
        match self {
            Node::Value(value) => Node::Value(value.clone()),
            Node::Inner(left, right) => Node::Inner(left.clone(), right.clone()),
        }
    }
}

/// The view of a decoding result.
pub open spec fn node_result_view(r: Result<Node, TreeError>) -> Result<NodeView, TreeError> {
    match r {
        Ok(node) => Ok(node@),
        Err(e) => Err(e),
    }
}

/// The view of a child lookup.
pub open spec fn hash_result_view(r: Result<&NodeHash, TreeError>) -> Result<
    NodeHashView,
    TreeError,
> {
    match r {
        Ok(hash) => Ok(hash@),
        Err(e) => Err(e),
    }
}

impl FromSpecImpl<Node> for Vec<u8> {
    /// The conversion is specified through the view of its result, in the
    /// contract of `from` itself.
    open spec fn obeys_from_spec() -> bool {
        false
    }

    open spec fn from_spec(node: Node) -> Vec<u8> {
        choose|bytes: Vec<u8>| bytes@ == node@.encoding()
    }
}

impl From<Node> for Vec<u8> {
    /// The wire form of the node.
    fn from(node: Node) -> (bytes: Vec<u8>)
        ensures
            bytes@ == node@.encoding(),
    {
        node.encode()
    }
}

impl Node {
    /// The wire form of the node.
    pub fn encode(&self) -> (bytes: Vec<u8>)
        ensures
            bytes@ == self@.encoding(),
    {
        match self {
            Node::Value(value) => {
                let value = value.get();
                let mut combined: Vec<u8> = Vec::new();
                combined.push(0);
                combined.extend_from_slice(value.as_slice());
                assert(combined@ =~= seq![0u8] + value@);
                combined
            },
            Node::Inner(left, right) => {
                let mut combined: Vec<u8> = Vec::new();
                combined.push(1);
                combined.extend_from_slice(left.get_hash().as_slice());
                combined.extend_from_slice(right.get_hash().as_slice());
                assert(combined@ =~= seq![1u8] + left@.digest() + right@.digest());
                combined
            },
        }
    }

    /// Decode a wire form. Fails on an empty buffer, on a tag other than 0
    /// and 1, and on an inner node whose body is not exactly two digests.
    pub fn decode<H: Hasher>(value: Vec<u8>) -> (r: Result<Node, TreeError>)
        ensures
            node_result_view(r) == NodeView::decode(value@, H::spec_length()),
    {
        let len = value.len();
        if len == 0 {
            return Err(TreeError::NodeDeserializationFailed);
        }
        let tag = value[0];
        if tag == 0 {
            let body = slice_to_vec(slice_subrange(value.as_slice(), 1, len));
            Ok(Node::Value(Value::Cached(body)))
        } else if tag == 1 {
            let digest_len = H::length();
            let body_len = len - 1;
            if body_len < digest_len || body_len - digest_len != digest_len {
                return Err(TreeError::DecodeHashFailed);
            }
            let left = decode_hash::<H>(slice_subrange(value.as_slice(), 1, digest_len + 1));
            let right = decode_hash::<H>(slice_subrange(value.as_slice(), digest_len + 1, len));
            match (left, right) {
                (Ok(left_hash), Ok(right_hash)) => Ok(
                    Node::Inner(NodeHash::Hash(left_hash), NodeHash::Hash(right_hash)),
                ),
                (Err(e), _) => Err(e),
                (_, Err(e)) => Err(e),
            }
        } else {
            Err(TreeError::NodeDeserializationFailed)
        }
    }

    /// The digest under which the node is stored.
    pub fn hash<H: Hasher>(&self) -> (out: Vec<u8>)
        ensures
            out@ == self@.digest::<H>(),
    {
        match self {
            Node::Value(value) => H::hash(value.get().as_slice()),
            Node::Inner(left, right) => {
                let mut combined: Vec<u8> = Vec::new();
                combined.extend_from_slice(left.get_hash().as_slice());
                combined.extend_from_slice(right.get_hash().as_slice());
                assert(combined@ =~= left@.digest() + right@.digest());
                H::hash(combined.as_slice())
            },
        }
    }

    /// The child on the side that `bit` names: the left one for 0, the
    /// right one for 1.
    pub fn get_child(&self, bit: u8) -> (r: Result<&NodeHash, TreeError>)
        ensures
            hash_result_view(r) == self@.child(bit),
    {
        if bit == 0 {
            self.get_left_child()
        } else if bit == 1 {
            self.get_right_child()
        } else {
            Err(TreeError::NodeIndexOutOfBounds)
        }
    }

    /// The left child of an inner node.
    pub fn get_left_child(&self) -> (r: Result<&NodeHash, TreeError>)
        ensures
            hash_result_view(r) == self@.left_child(),
    {
        match self {
            Node::Value(_) => Err(TreeError::UnexpectedNodeType),
            Node::Inner(left, _) => Ok(left),
        }
    }

    /// The right child of an inner node.
    pub fn get_right_child(&self) -> (r: Result<&NodeHash, TreeError>)
        ensures
            hash_result_view(r) == self@.right_child(),
    {
        match self {
            Node::Value(_) => Err(TreeError::UnexpectedNodeType),
            Node::Inner(_, right) => Ok(right),
        }
    }

    /// The value of a leaf.
    pub fn get_value(&self) -> (r: Result<&Value, TreeError>)
        ensures
            match r {
                Ok(value) => self@.value() == Ok::<ValueView, TreeError>(value@),
                Err(e) => self@.value() == Err::<ValueView, TreeError>(e),
            },
    {
        match self {
            Node::Value(value) => Ok(value),
            Node::Inner(_, _) => Err(TreeError::UnexpectedNodeType),
        }
    }

    /// Replace the child on the side of `bit`; returns the digest that was
    /// there. A node that has no such child is left as it was.
    pub fn set_child_hash(&mut self, bit: u8, hash: NodeHash) -> (r: Result<Vec<u8>, TreeError>)
        ensures
            match r {
                Ok(previous) => {
                    &&& old(self)@.child(bit) matches Ok(c) && previous@ == c.digest()
                    &&& final(self)@ == old(self)@.with_child(bit, hash@)
                },
                Err(e) => {
                    &&& old(self)@.child(bit) == Err::<NodeHashView, TreeError>(e)
                    &&& final(self)@ == old(self)@
                },
            },
    {
        if bit == 0 {
            self.set_left_child_hash(hash)
        } else if bit == 1 {
            self.set_rigth_child_hash(hash)
        } else {
            Err(TreeError::NodeIndexOutOfBounds)
        }
    }

    /// Replace the left child; returns the digest that was there.
    pub fn set_left_child_hash(&mut self, hash: NodeHash) -> (r: Result<Vec<u8>, TreeError>)
        ensures
            match r {
                Ok(previous) => {
                    &&& old(self)@.left_child() matches Ok(c) && previous@ == c.digest()
                    &&& final(self)@ == old(self)@.with_child(0, hash@)
                },
                Err(e) => {
                    &&& old(self)@.left_child() == Err::<NodeHashView, TreeError>(e)
                    &&& final(self)@ == old(self)@
                },
            },
    {
        match self {
            Node::Value(_) => Err(TreeError::UnexpectedNodeType),
            Node::Inner(left, _) => {
                let previous = left.get_hash().clone();
                *left = hash;
                Ok(previous)
            },
        }
    }

    /// Replace the right child; returns the digest that was there.
    pub fn set_rigth_child_hash(&mut self, hash: NodeHash) -> (r: Result<Vec<u8>, TreeError>)
        ensures
            match r {
                Ok(previous) => {
                    &&& old(self)@.right_child() matches Ok(c) && previous@ == c.digest()
                    &&& final(self)@ == old(self)@.with_child(1, hash@)
                },
                Err(e) => {
                    &&& old(self)@.right_child() == Err::<NodeHashView, TreeError>(e)
                    &&& final(self)@ == old(self)@
                },
            },
    {
        match self {
            Node::Value(_) => Err(TreeError::UnexpectedNodeType),
            Node::Inner(_, right) => {
                let previous = right.get_hash().clone();
                *right = hash;
                Ok(previous)
            },
        }
    }

    /// Replace the value of a leaf; returns the digest of the value that
    /// was there. An inner node is left as it was.
    pub fn set_value<H: Hasher>(&mut self, new_value: Value) -> (r: Result<Vec<u8>, TreeError>)
        ensures
            match r {
                Ok(previous) => {
                    &&& old(self)@ is Value
                    &&& previous@ == old(self)@.digest::<H>()
                    &&& final(self)@ == NodeView::Value(new_value@)
                },
                Err(e) => {
                    &&& old(self)@ is Inner
                    &&& e == TreeError::UnexpectedNodeType
                    &&& final(self)@ == old(self)@
                },
            },
    {
        match self {
            Node::Value(value) => {
                let old_hash = H::hash(value.get().as_slice());
                *value = new_value;
                Ok(old_hash)
            },
            Node::Inner(_, _) => Err(TreeError::UnexpectedNodeType),
        }
    }
}

/// Read a digest from exactly as many bytes as a digest has.
pub fn decode_hash<H: Hasher>(data: &[u8]) -> (r: Result<Vec<u8>, TreeError>)
    ensures
        match r {
            Ok(hash) => data@.len() == H::spec_length() && hash@ == data@,
            Err(e) => data@.len() != H::spec_length() && e == TreeError::DecodeHashFailed,
        },
{
    if data.len() != H::length() {
        return Err(TreeError::DecodeHashFailed);
    }
    Ok(slice_to_vec(data))
}

} // verus!
