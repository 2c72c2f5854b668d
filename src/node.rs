//! The tree value type, its attributes, and their mathematical models.
use vstd::prelude::*;

verus! {

/// One `name: value` entry of a style attribute.
#[derive(Debug, Clone, PartialEq)]
pub struct Style {
    pub name: String,
    pub value: String,
}

/// The value carried by an attribute.
#[derive(Debug, Clone)]
pub enum AttributeValue {
    /// A scalar compared by equality.
    Plain(String),
    /// A list of style declarations.
    Styles(Vec<Style>),
    /// A value whose application has a side effect; it is re-applied
    /// on every patch of its node and never compares equal.
    FunctionCall(String),
    /// No attribute at all; dropped before emission.
    Empty,
}

/// An attribute: a name (with an optional namespace) and its values.
#[derive(Debug, Clone, PartialEq)]
pub struct Attribute {
    pub namespace: Option<String>,
    pub name: String,
    pub values: Vec<AttributeValue>,
}

/// A node of a UI tree.
#[derive(Debug, PartialEq)]
pub enum Node {
    Element {
        tag: String,
        namespace: Option<String>,
        key: Option<String>,
        attrs: Vec<Attribute>,
        children: Vec<Node>,
    },
    Text(String),
    Comment(String),
}

/// Model of an attribute value.
pub enum ValueM {
    Plain(Seq<char>),
    Styles(Seq<(Seq<char>, Seq<char>)>),
    FunctionCall(Seq<char>),
    Empty,
}

/// Model of an attribute.
pub struct AttrM {
    pub namespace: Option<Seq<char>>,
    pub name: Seq<char>,
    pub values: Seq<ValueM>,
}

/// Model of a node.
pub enum NodeM {
    Element {
        tag: Seq<char>,
        namespace: Option<Seq<char>>,
        key: Option<Seq<char>>,
        attrs: Seq<AttrM>,
        children: Seq<NodeM>,
    },
    Text(Seq<char>),
    Comment(Seq<char>),
}

/// The model of an optional string.
pub open spec fn opt_str_view(o: Option<String>) -> Option<Seq<char>> {
    match o {
        Some(s) => Some(s@),
        None => None,
    }
}

impl View for Style {
    type V = (Seq<char>, Seq<char>);

    open spec fn view(&self) -> (Seq<char>, Seq<char>) {
        (self.name@, self.value@)
    }
}

impl View for AttributeValue {
    type V = ValueM;

    open spec fn view(&self) -> ValueM {
        match self {
            AttributeValue::Plain(s) => ValueM::Plain(s@),
            AttributeValue::Styles(v) => ValueM::Styles(v@.map_values(|s: Style| s@)),
            AttributeValue::FunctionCall(s) => ValueM::FunctionCall(s@),
            AttributeValue::Empty => ValueM::Empty,
        }
    }
}

impl View for Attribute {
    type V = AttrM;

    open spec fn view(&self) -> AttrM {
        AttrM {
            namespace: opt_str_view(self.namespace),
            name: self.name@,
            values: self.values@.map_values(|v: AttributeValue| v@),
        }
    }
}

/// The models of a list of attributes.
pub open spec fn attrs_view(s: Seq<Attribute>) -> Seq<AttrM> {
    s.map_values(|a: Attribute| a@)
}

/// The models of a sequence of nodes, element by element.
pub open spec fn nodes_view(s: Seq<Node>) -> Seq<NodeM>
    decreases s,
{
    if s.len() == 0 {
        Seq::empty()
    } else {
        nodes_view(s.subrange(0, s.len() - 1)).push(node_view(s[s.len() - 1]))
    }
}

/// The model of a node and its subtree.
pub open spec fn node_view(n: Node) -> NodeM
    decreases n,
{
    match n {
        Node::Element { tag, namespace, key, attrs, children } => NodeM::Element {
            tag: tag@,
            namespace: opt_str_view(namespace),
            key: opt_str_view(key),
            attrs: attrs_view(attrs@),
            children: nodes_view(children@),
        },
        Node::Text(s) => NodeM::Text(s@),
        Node::Comment(s) => NodeM::Comment(s@),
    }
}

impl View for Node {
    type V = NodeM;

    open spec fn view(&self) -> NodeM {
        node_view(*self)
    }
}

} // verus!

verus! {

/// `nodes_view` keeps the length and maps each node to its model.
pub proof fn lemma_nodes_view(s: Seq<Node>)
    ensures
        nodes_view(s).len() == s.len(),
        forall|i: int| 0 <= i < s.len() ==> #[trigger] nodes_view(s)[i] == s[i]@,
    decreases s.len(),
{
    if s.len() > 0 {
        lemma_nodes_view(s.subrange(0, s.len() - 1));
    }
}

} // verus!

verus! {

/// A copy of an optional string.
pub fn copy_opt_string(o: &Option<String>) -> (r: Option<String>)
    ensures
        opt_str_view(r) == opt_str_view(*o),
{
    match o {
        Some(s) => Some(s.clone()),
        None => None,
    }
}

/// A copy of an attribute value.
pub fn copy_value(v: &AttributeValue) -> (r: AttributeValue)
    ensures
        r@ == v@,
{
    match v {
        AttributeValue::Plain(s) => AttributeValue::Plain(s.clone()),
        AttributeValue::FunctionCall(s) => AttributeValue::FunctionCall(s.clone()),
        AttributeValue::Empty => AttributeValue::Empty,
        AttributeValue::Styles(decls) => {
            let mut out: Vec<Style> = Vec::new();
            let mut i: usize = 0;
            while i < decls.len()
                invariant
                    i <= decls@.len(),
                    out@.len() == i,
                    forall|k: int| 0 <= k < i ==> #[trigger] out@[k]@ == decls@[k]@,
                decreases decls@.len() - i,
            {
                out.push(Style { name: decls[i].name.clone(), value: decls[i].value.clone() });
                i = i + 1;
            }
            assert(out@.map_values(|s: Style| s@) =~= decls@.map_values(|s: Style| s@));
            AttributeValue::Styles(out)
        },
    }
}

/// A copy of an attribute.
pub fn copy_attr(a: &Attribute) -> (r: Attribute)
    ensures
        r@ == a@,
{
    let mut values: Vec<AttributeValue> = Vec::new();
    let mut i: usize = 0;
    while i < a.values.len()
        invariant
            i <= a.values@.len(),
            values@.len() == i,
            forall|k: int| 0 <= k < i ==> #[trigger] values@[k]@ == a.values@[k]@,
        decreases a.values@.len() - i,
    {
        values.push(copy_value(&a.values[i]));
        i = i + 1;
    }
    let r = Attribute { namespace: copy_opt_string(&a.namespace), name: a.name.clone(), values };
    assert(r@.values =~= a@.values);
    r
}

/// A copy of a list of attributes.
pub fn copy_attrs(attrs: &Vec<Attribute>) -> (r: Vec<Attribute>)
    ensures
        attrs_view(r@) == attrs_view(attrs@),
{
    let mut out: Vec<Attribute> = Vec::new();
    let mut i: usize = 0;
    while i < attrs.len()
        invariant
            i <= attrs@.len(),
            out@.len() == i,
            forall|k: int| 0 <= k < i ==> #[trigger] out@[k]@ == attrs@[k]@,
        decreases attrs@.len() - i,
    {
        out.push(copy_attr(&attrs[i]));
        i = i + 1;
    }
    assert(attrs_view(out@) =~= attrs_view(attrs@));
    out
}

/// A copy of a tree, equal to it in every node.
pub fn copy_node(n: &Node) -> (r: Node)
    ensures
        r@ == n@,
    decreases crate::index::size(n@),
{
    match n {
        Node::Element { tag, namespace, key, attrs, children } => {
            let ghost cs = n@->children;
            proof {
                lemma_nodes_view(children@);
            }
            let mut out: Vec<Node> = Vec::new();
            let mut i: usize = 0;
            while i < children.len()
                invariant
                    i <= children@.len(),
                    cs == nodes_view(children@),
                    cs.len() == children@.len(),
                    forall|k: int| 0 <= k < cs.len() ==> #[trigger] cs[k] == children@[k]@,
                    crate::index::size(n@) == 1 + crate::index::forest_size(cs),
                    out@.len() == i,
                    forall|k: int| 0 <= k < i ==> #[trigger] out@[k]@ == children@[k]@,
                decreases children@.len() - i,
            {
                proof {
                    crate::index::lemma_child_range(0, cs, i as int);
                }
                out.push(copy_node(&children[i]));
                i = i + 1;
            }
            proof {
                lemma_nodes_view(out@);
                assert(nodes_view(out@) =~= cs);
            }
            Node::Element {
                tag: tag.clone(),
                namespace: copy_opt_string(namespace),
                key: copy_opt_string(key),
                attrs: copy_attrs(attrs),
                children: out,
            }
        },
        Node::Text(s) => Node::Text(s.clone()),
        Node::Comment(s) => Node::Comment(s.clone()),
    }
}

} // verus!
