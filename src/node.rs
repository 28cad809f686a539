//! The node tree exchanged between the decoder and the encoder, and its
//! mathematical model.
use vstd::prelude::*;

verus! {

/// One TLV element (or the synthetic root that holds the top-level ones).
///
/// `byte_offset`, `byte_length` and `length` record where the element was
/// found when it was decoded; the encoder ignores them. `value` is the text
/// of a primitive element, `children` the elements inside a constructed one.
#[derive(Debug)]
pub struct Asn1Node {
    pub label: String,
    pub tag_class: String,
    pub tag_number: u32,
    pub is_constructed: bool,
    pub byte_offset: usize,
    pub byte_length: usize,
    pub length: usize,
    pub value: Option<String>,
    pub children: Option<Vec<Asn1Node>>,
}

/// The model of an [`Asn1Node`]: its strings as character sequences and its
/// children as a sequence of models.
pub struct NodeModel {
    pub label: Seq<char>,
    pub tag_class: Seq<char>,
    pub tag_number: u32,
    pub is_constructed: bool,
    pub byte_offset: int,
    pub byte_length: int,
    pub length: int,
    pub value: Option<Seq<char>>,
    pub children: Option<Seq<NodeModel>>,
}

pub open spec fn node_model(n: Asn1Node) -> NodeModel
    decreases n,
{
    NodeModel {
        label: n.label@,
        tag_class: n.tag_class@,
        tag_number: n.tag_number,
        is_constructed: n.is_constructed,
        byte_offset: n.byte_offset as int,
        byte_length: n.byte_length as int,
        length: n.length as int,
        value: match n.value {
            Some(v) => Some(v@),
            None => None,
        },
        children: match n.children {
            Some(c) => Some(models(c@)),
            None => None,
        },
    }
}

pub open spec fn models(s: Seq<Asn1Node>) -> Seq<NodeModel>
    decreases s,
{
    if s.len() == 0 {
        Seq::empty()
    } else {
        models(s.drop_last()).push(node_model(s.last()))
    }
}

pub proof fn lemma_models_push(s: Seq<Asn1Node>, n: Asn1Node)
    ensures
        models(s.push(n)) == models(s).push(node_model(n)),
{
    assert(s.push(n).drop_last() =~= s);
}

} // verus!
