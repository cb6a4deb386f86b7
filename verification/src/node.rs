//! The tree that the parser produces and the formatter and sorts consume.

use vstd::prelude::*;

verus! {

/// An ordered tree of JSON-ish text. A `Value` holds a scalar token exactly
/// as it was spelled in the source, quotes and escapes included; an `Object`
/// holds its members in order, each key stored with its surrounding quote
/// characters; duplicate keys are kept. No payload is ever interpreted:
/// numbers, booleans and null are opaque text.
#[derive(Debug, PartialEq)]
pub enum Node {
    Object(Vec<(String, Node)>),
    Array(Vec<Node>),
    Value(String),
}

/// The mathematical shape of a [`Node`] tree: the same three variants over
/// sequences of characters. All contracts in this crate speak of this model.
#[verifier::ext_equal]
pub enum NodeModel {
    Object(Seq<(Seq<char>, NodeModel)>),
    Array(Seq<NodeModel>),
    Value(Seq<char>),
}

impl View for Node {
    type V = NodeModel;

    open spec fn view(&self) -> NodeModel {
        node_model(*self)
    }
}

/// The model of one node.
pub open spec fn node_model(n: Node) -> NodeModel
    decreases n,
{
    match n {
        Node::Value(s) => NodeModel::Value(s@),
        Node::Array(xs) => NodeModel::Array(elems_model(xs@)),
        Node::Object(xs) => NodeModel::Object(members_model(xs@)),
    }
}

/// The models of a sequence of array elements, in order.
pub open spec fn elems_model(es: Seq<Node>) -> Seq<NodeModel>
    decreases es,
{
    if es.len() == 0 {
        Seq::empty()
    } else {
        elems_model(es.drop_last()).push(node_model(es.last()))
    }
}

/// The models of a sequence of object members, in order.
pub open spec fn members_model(ps: Seq<(String, Node)>) -> Seq<(Seq<char>, NodeModel)>
    decreases ps,
{
    if ps.len() == 0 {
        Seq::empty()
    } else {
        members_model(ps.drop_last()).push((ps.last().0@, node_model(ps.last().1)))
    }
}

pub proof fn lemma_elems_model(es: Seq<Node>)
    ensures
        elems_model(es).len() == es.len(),
        forall|i: int| 0 <= i < es.len() ==> elems_model(es)[i] == node_model(#[trigger] es[i]),
    decreases es.len(),
{
    if es.len() > 0 {
        lemma_elems_model(es.drop_last());
        assert forall|i: int| 0 <= i < es.len() implies elems_model(es)[i] == node_model(
            #[trigger] es[i],
        ) by {
            if i < es.len() - 1 {
                assert(es.drop_last()[i] == es[i]);
                assert(elems_model(es)[i] == elems_model(es.drop_last())[i]);
            } else {
                assert(elems_model(es)[i] == node_model(es.last()));
            }
        }
    }
}

pub proof fn lemma_members_model(ps: Seq<(String, Node)>)
    ensures
        members_model(ps).len() == ps.len(),
        forall|i: int|
            0 <= i < ps.len() ==> members_model(ps)[i] == ((#[trigger] ps[i]).0@, node_model(
                ps[i].1,
            )),
    decreases ps.len(),
{
    if ps.len() > 0 {
        lemma_members_model(ps.drop_last());
        assert forall|i: int| 0 <= i < ps.len() implies members_model(ps)[i] == (
            (#[trigger] ps[i]).0@,
            node_model(ps[i].1),
        ) by {
            if i < ps.len() - 1 {
                assert(ps.drop_last()[i] == ps[i]);
                assert(members_model(ps)[i] == members_model(ps.drop_last())[i]);
            } else {
                assert(members_model(ps)[i] == (ps.last().0@, node_model(ps.last().1)));
            }
        }
    }
}

} // verus!
