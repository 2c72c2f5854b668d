//! Helpers that build attributes: plain values, classes, styles, flags.
use vstd::prelude::*;
use crate::node::{AttrM, Attribute, AttributeValue, Style, ValueM};

verus! {

/// Model of a plain attribute `name = value`.
pub open spec fn plain_attr(name: Seq<char>, value: Seq<char>) -> AttrM {
    AttrM { namespace: None, name, values: seq![ValueM::Plain(value)] }
}

/// Model of the empty attribute, which stands for "no attribute".
pub open spec fn empty_attr_model() -> AttrM {
    AttrM { namespace: None, name: Seq::empty(), values: seq![ValueM::Empty] }
}

/// The style declarations that a list of (name, value) pairs gives.
pub open spec fn style_pairs(pairs: Seq<(&str, &str)>) -> Seq<(Seq<char>, Seq<char>)> {
    pairs.map_values(|p: (&str, &str)| (p.0@, p.1@))
}

/// The style declarations of a list of (name, value, flag) triples whose flag is set.
pub open spec fn flagged_style_pairs(trio: Seq<(&str, &str, bool)>) -> Seq<(Seq<char>, Seq<char>)>
    decreases trio.len(),
{
    if trio.len() == 0 {
        Seq::empty()
    } else {
        let rest = flagged_style_pairs(trio.drop_last());
        let t = trio.last();
        if t.2 { rest.push((t.0@, t.1@)) } else { rest }
    }
}

/// The class names of a list of (class, flag) pairs whose flag is set.
pub open spec fn flagged_classes(pairs: Seq<(&str, bool)>) -> Seq<Seq<char>>
    decreases pairs.len(),
{
    if pairs.len() == 0 {
        Seq::empty()
    } else {
        let rest = flagged_classes(pairs.drop_last());
        let p = pairs.last();
        if p.1 { rest.push(p.0@) } else { rest }
    }
}

/// The plain attributes of a list of (name, value, flag) triples whose flag is set.
pub open spec fn flagged_attrs(trio: Seq<(&str, &str, bool)>) -> Seq<AttrM>
    decreases trio.len(),
{
    if trio.len() == 0 {
        Seq::empty()
    } else {
        let rest = flagged_attrs(trio.drop_last());
        let t = trio.last();
        if t.2 { rest.push(plain_attr(t.0@, t.1@)) } else { rest }
    }
}

/// A `style` attribute holding the given declarations.
pub open spec fn style_attr(decls: Seq<(Seq<char>, Seq<char>)>) -> AttrM {
    AttrM { namespace: None, name: "style"@, values: seq![ValueM::Styles(decls)] }
}

fn style_attribute(decls: Vec<Style>) -> (r: Attribute)
    ensures
        r@ == style_attr(decls@.map_values(|s: Style| s@)),
{
    let values: Vec<AttributeValue> = vec![AttributeValue::Styles(decls)];
    let r = Attribute { namespace: None, name: "style".to_owned(), values };
    assert(r@.values =~= seq![ValueM::Styles(decls@.map_values(|s: Style| s@))]);
    r
}

/// Builds a plain attribute `att = v`.
pub fn attr(att: &str, v: &str) -> (r: Attribute)
    ensures
        r@ == plain_attr(att@, v@),
{
    let values: Vec<AttributeValue> = vec![AttributeValue::Plain(v.to_owned())];
    let r = Attribute { namespace: None, name: att.to_owned(), values };
    assert(r@.values =~= seq![ValueM::Plain(v@)]);
    r
}

/// Builds the empty attribute, for a branch that has no attribute to give.
pub fn empty_attr() -> (r: Attribute)
    ensures
        r@ == empty_attr_model(),
{
    let values: Vec<AttributeValue> = vec![AttributeValue::Empty];
    let r = Attribute { namespace: None, name: String::new(), values };
    assert(r@.values =~= seq![ValueM::Empty]);
    r
}

/// Builds a `style` attribute with one declaration.
pub fn style(style_name: &str, value: &str) -> (r: Attribute)
    ensures
        r@ == style_attr(seq![(style_name@, value@)]),
{
    let decls: Vec<Style> = vec![Style { name: style_name.to_owned(), value: value.to_owned() }];
    let r = style_attribute(decls);
    assert(decls@.map_values(|s: Style| s@) =~= seq![(style_name@, value@)]);
    r
}

/// Builds a `style` attribute with one declaration per (name, value) pair, in order.
pub fn styles(pairs: &[(&str, &str)]) -> (r: Attribute)
    ensures
        r@ == style_attr(style_pairs(pairs@)),
{
    styles_values(pairs)
}

/// Builds a `style` attribute from (name, value) pairs, in order.
pub fn styles_values(pairs: &[(&str, &str)]) -> (r: Attribute)
    ensures
        r@ == style_attr(style_pairs(pairs@)),
{
    let mut decls: Vec<Style> = Vec::new();
    let mut i: usize = 0;
    while i < pairs.len()
        invariant
            i <= pairs@.len(),
            decls@.len() == i,
            forall|j: int| 0 <= j < i ==> #[trigger] decls@[j]@ == (pairs@[j].0@, pairs@[j].1@),
        decreases pairs@.len() - i,
    {
        let (k, v) = pairs[i];
        decls.push(Style { name: k.to_owned(), value: v.to_owned() });
        i = i + 1;
    }
    assert(decls@.map_values(|s: Style| s@) =~= style_pairs(pairs@));
    style_attribute(decls)
}

/// Builds a `style` attribute from the (name, value, flag) triples whose flag is set, in order.
pub fn styles_flag(trio: &[(&str, &str, bool)]) -> (r: Attribute)
    ensures
        r@ == style_attr(flagged_style_pairs(trio@)),
{
    let mut decls: Vec<Style> = Vec::new();
    let mut i: usize = 0;
    while i < trio.len()
        invariant
            i <= trio@.len(),
            decls@.map_values(|s: Style| s@) =~= flagged_style_pairs(trio@.subrange(0, i as int)),
        decreases trio@.len() - i,
    {
        let (k, v, flag) = trio[i];
        if flag {
            decls.push(Style { name: k.to_owned(), value: v.to_owned() });
        }
        i = i + 1;
        assert(trio@.subrange(0, i as int).drop_last() =~= trio@.subrange(0, i - 1));
    }
    assert(trio@.subrange(0, trio@.len() as int) =~= trio@);
    style_attribute(decls)
}

/// Builds a `class` attribute with one value per class name, in order.
pub fn classes(class_list: &[&str]) -> (r: Attribute)
    ensures
        r@ == (AttrM {
            namespace: None,
            name: "class"@,
            values: class_list@.map_values(|c: &str| ValueM::Plain(c@)),
        }),
{
    let mut values: Vec<AttributeValue> = Vec::new();
    let mut i: usize = 0;
    while i < class_list.len()
        invariant
            i <= class_list@.len(),
            values@.len() == i,
            forall|j: int| 0 <= j < i ==> #[trigger] values@[j]@ == ValueM::Plain(class_list@[j]@),
        decreases class_list@.len() - i,
    {
        values.push(AttributeValue::Plain(class_list[i].to_owned()));
        i = i + 1;
    }
    let r = Attribute { namespace: None, name: "class".to_owned(), values };
    assert(r@.values =~= class_list@.map_values(|c: &str| ValueM::Plain(c@)));
    r
}

/// Builds a `class` attribute from the (class, flag) pairs whose flag is set, in order.
pub fn classes_flag(pair: &[(&str, bool)]) -> (r: Attribute)
    ensures
        r@ == (AttrM {
            namespace: None,
            name: "class"@,
            values: flagged_classes(pair@).map_values(|c: Seq<char>| ValueM::Plain(c)),
        }),
{
    let mut class_list: Vec<&str> = Vec::with_capacity(pair.len());
    let mut i: usize = 0;
    while i < pair.len()
        invariant
            i <= pair@.len(),
            class_list@.map_values(|c: &str| c@) =~= flagged_classes(pair@.subrange(0, i as int)),
        decreases pair@.len() - i,
    {
        let (class, flag) = pair[i];
        if flag {
            class_list.push(class);
        }
        i = i + 1;
        assert(pair@.subrange(0, i as int).drop_last() =~= pair@.subrange(0, i - 1));
    }
    assert(pair@.subrange(0, pair@.len() as int) =~= pair@);
    let r = classes(class_list.as_slice());
    assert(r@.values =~= flagged_classes(pair@).map_values(|c: Seq<char>| ValueM::Plain(c)));
    r
}

/// Builds one plain attribute for each (name, value, flag) triple whose flag is set, in order.
pub fn attrs_flag(trio: &[(&str, &str, bool)]) -> (r: Vec<Attribute>)
    ensures
        r@.map_values(|a: Attribute| a@) == flagged_attrs(trio@),
{
    let mut attributes: Vec<Attribute> = Vec::with_capacity(trio.len());
    let mut i: usize = 0;
    while i < trio.len()
        invariant
            i <= trio@.len(),
            attributes@.map_values(|a: Attribute| a@) =~= flagged_attrs(trio@.subrange(0, i as int)),
        decreases trio@.len() - i,
    {
        let (k, v, flag) = trio[i];
        if flag {
            attributes.push(attr(k, v));
        }
        i = i + 1;
        assert(trio@.subrange(0, i as int).drop_last() =~= trio@.subrange(0, i - 1));
    }
    assert(trio@.subrange(0, trio@.len() as int) =~= trio@);
    attributes
}

/// `checked = "checked"` when set, else the empty attribute.
pub fn checked(is_checked: bool) -> (r: Attribute)
    ensures
        is_checked ==> r@ == plain_attr("checked"@, "checked"@),
        !is_checked ==> r@ == empty_attr_model(),
{
    if is_checked {
        attr("checked", "checked")
    } else {
        empty_attr()
    }
}

/// `disabled = "true"` when set, else the empty attribute.
pub fn disabled(is_disabled: bool) -> (r: Attribute)
    ensures
        is_disabled ==> r@ == plain_attr("disabled"@, "true"@),
        !is_disabled ==> r@ == empty_attr_model(),
{
    if is_disabled {
        attr("disabled", "true")
    } else {
        empty_attr()
    }
}

/// An `inner_html` attribute: its value is set on every patch of its node.
pub fn inner_html(html: &str) -> (r: Attribute)
    ensures
        r@ == (AttrM {
            namespace: None,
            name: "inner_html"@,
            values: seq![ValueM::FunctionCall(html@)],
        }),
{
    let values: Vec<AttributeValue> = vec![AttributeValue::FunctionCall(html.to_owned())];
    let r = Attribute { namespace: None, name: "inner_html".to_owned(), values };
    assert(r@.values =~= seq![ValueM::FunctionCall(html@)]);
    r
}

} // verus!
