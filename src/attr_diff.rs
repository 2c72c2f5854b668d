//! Diffing the attribute sets of two elements.
//!
//! All attributes of one element that share a name are merged into one
//! list of values (empty markers dropped), and two elements are compared
//! name by name over those merged lists.
use vstd::prelude::*;
use vstd::string::StringExecFns;
use crate::node::{attrs_view, copy_opt_string, copy_value, AttrM, Attribute, AttributeValue, Style, ValueM};

verus! {

/// The models of a list of values.
pub open spec fn values_view(s: Seq<AttributeValue>) -> Seq<ValueM> {
    s.map_values(|v: AttributeValue| v@)
}

/// The models of a list of strings.
pub open spec fn strings_view(s: Seq<String>) -> Seq<Seq<char>> {
    s.map_values(|x: String| x@)
}

/// The values of a list, without the empty markers.
pub open spec fn live(vs: Seq<ValueM>) -> Seq<ValueM>
    decreases vs.len(),
{
    if vs.len() == 0 {
        Seq::empty()
    } else {
        let r = live(vs.drop_last());
        if vs.last() is Empty { r } else { r.push(vs.last()) }
    }
}

/// The values of all attributes named `name`, in order, without the
/// empty markers.
pub open spec fn merged_list(attrs: Seq<AttrM>, name: Seq<char>) -> Seq<ValueM>
    decreases attrs.len(),
{
    if attrs.len() == 0 {
        Seq::empty()
    } else {
        let r = merged_list(attrs.drop_last(), name);
        if attrs.last().name == name { r + live(attrs.last().values) } else { r }
    }
}

/// The texts of the plain values of a list, in order.
pub open spec fn plains(vs: Seq<ValueM>) -> Seq<Seq<char>>
    decreases vs.len(),
{
    if vs.len() == 0 {
        Seq::empty()
    } else {
        let r = plains(vs.drop_last());
        match vs.last() {
            ValueM::Plain(x) => r.push(x),
            _ => r,
        }
    }
}

/// The side-effecting values of a list, in order.
pub open spec fn calls(vs: Seq<ValueM>) -> Seq<ValueM>
    decreases vs.len(),
{
    if vs.len() == 0 {
        Seq::empty()
    } else {
        let r = calls(vs.drop_last());
        if vs.last() is FunctionCall { r.push(vs.last()) } else { r }
    }
}

/// The texts joined by single spaces.
pub open spec fn join(parts: Seq<Seq<char>>) -> Seq<char>
    decreases parts.len(),
{
    if parts.len() == 0 {
        Seq::empty()
    } else if parts.len() == 1 {
        parts[0]
    } else {
        join(parts.drop_last()) + seq![' '] + parts.last()
    }
}

/// The style declarations of all style lists of a list, in order.
pub open spec fn decls(vs: Seq<ValueM>) -> Seq<(Seq<char>, Seq<char>)>
    decreases vs.len(),
{
    if vs.len() == 0 {
        Seq::empty()
    } else {
        let r = decls(vs.drop_last());
        match vs.last() {
            ValueM::Styles(d) => r + d,
            _ => r,
        }
    }
}

/// One value per attribute name: the plain texts joined by spaces (as a
/// class list is), the side-effecting values, then all style declarations
/// joined into one style list (rendered `a:b;c:d;`).
pub open spec fn normalize(vs: Seq<ValueM>) -> Seq<ValueM> {
    (if plains(vs).len() > 0 { seq![ValueM::Plain(join(plains(vs)))] } else { Seq::empty() }) + calls(vs)
        + if decls(vs).len() > 0 { seq![ValueM::Styles(decls(vs))] } else { Seq::empty() }
}

/// The merged value of all attributes named `name`: their values in order,
/// with the style declarations of several style attributes joined.
pub open spec fn merged(attrs: Seq<AttrM>, name: Seq<char>) -> Seq<ValueM> {
    normalize(merged_list(attrs, name))
}

/// An attribute named `name` is set: it has at least one value that is not empty.
pub open spec fn present(attrs: Seq<AttrM>, name: Seq<char>) -> bool {
    merged(attrs, name).len() > 0
}

/// Some value has a side effect when applied.
pub open spec fn has_call(vs: Seq<ValueM>) -> bool {
    exists|i: int| 0 <= i < vs.len() && #[trigger] vs[i] is FunctionCall
}

/// The attribute `name` must be (re)applied: it is set in `new`, and it was
/// not set to the same values in `old`, or it has a side effect.
pub open spec fn to_add(old: Seq<AttrM>, new: Seq<AttrM>, name: Seq<char>) -> bool {
    present(new, name) && (merged(old, name) != merged(new, name) || has_call(merged(new, name)))
}

/// The attribute `name` must be removed: set in `old`, not in `new`.
pub open spec fn to_remove(old: Seq<AttrM>, new: Seq<AttrM>, name: Seq<char>) -> bool {
    present(old, name) && !present(new, name)
}

/// `attrs` declares an attribute with the name and namespace of `a`.
pub open spec fn declared_in(attrs: Seq<AttrM>, a: AttrM) -> bool {
    exists|i: int| 0 <= i < attrs.len() && #[trigger] attrs[i].name == a.name && attrs[i].namespace == a.namespace
}

/// What `diff_attributes` returns for the attributes to apply.
pub open spec fn is_add_list(old: Seq<AttrM>, new: Seq<AttrM>, add: Seq<AttrM>) -> bool {
    &&& forall|j: int| 0 <= j < add.len() ==> to_add(old, new, #[trigger] add[j].name)
    &&& forall|j: int| 0 <= j < add.len() ==> #[trigger] add[j].values == merged(new, add[j].name)
    &&& forall|j: int| 0 <= j < add.len() ==> declared_in(new, #[trigger] add[j])
    &&& forall|k: Seq<char>| to_add(old, new, k) ==> exists|j: int| 0 <= j < add.len() && #[trigger] add[j].name == k
    &&& forall|j1: int, j2: int| 0 <= j1 < j2 < add.len() ==> add[j1].name != add[j2].name
}

/// What `diff_attributes` returns for the names to remove.
pub open spec fn is_remove_list(old: Seq<AttrM>, new: Seq<AttrM>, rem: Seq<Seq<char>>) -> bool {
    &&& forall|j: int| 0 <= j < rem.len() ==> to_remove(old, new, #[trigger] rem[j])
    &&& forall|k: Seq<char>| to_remove(old, new, k) ==> exists|j: int| 0 <= j < rem.len() && #[trigger] rem[j] == k
    &&& forall|j1: int, j2: int| 0 <= j1 < j2 < rem.len() ==> rem[j1] != rem[j2]
}

/// An attribute that is set has a declaration of its name.
pub proof fn lemma_present_declared(attrs: Seq<AttrM>, name: Seq<char>)
    requires
        present(attrs, name),
    ensures
        exists|i: int| 0 <= i < attrs.len() && #[trigger] attrs[i].name == name,
    decreases attrs.len(),
{
    if attrs.last().name != name {
        lemma_present_declared(attrs.drop_last(), name);
        let i = choose|i: int| 0 <= i < attrs.drop_last().len() && #[trigger] attrs.drop_last()[i].name == name;
        assert(attrs[i].name == name);
    } else {
        assert(attrs[attrs.len() - 1].name == name);
    }
}

fn style_eq(a: &Vec<Style>, b: &Vec<Style>) -> (r: bool)
    ensures
        r == (a@.map_values(|s: Style| s@) == b@.map_values(|s: Style| s@)),
{
    if a.len() != b.len() {
        assert(a@.map_values(|s: Style| s@).len() != b@.map_values(|s: Style| s@).len());
        return false;
    }
    let mut i: usize = 0;
    while i < a.len()
        invariant
            i <= a@.len(),
            a@.len() == b@.len(),
            forall|k: int| 0 <= k < i ==> #[trigger] a@[k]@ == b@[k]@,
        decreases a@.len() - i,
    {
        if !(a[i].name == b[i].name && a[i].value == b[i].value) {
            assert(a@.map_values(|s: Style| s@)[i as int] != b@.map_values(|s: Style| s@)[i as int]);
            return false;
        }
        i = i + 1;
    }
    assert(a@.map_values(|s: Style| s@) =~= b@.map_values(|s: Style| s@));
    true
}

fn value_eq(a: &AttributeValue, b: &AttributeValue) -> (r: bool)
    ensures
        r == (a@ == b@),
{
    match a {
        AttributeValue::Plain(x) => match b {
            AttributeValue::Plain(y) => *x == *y,
            _ => false,
        },
        AttributeValue::FunctionCall(x) => match b {
            AttributeValue::FunctionCall(y) => *x == *y,
            _ => false,
        },
        AttributeValue::Empty => match b {
            AttributeValue::Empty => true,
            _ => false,
        },
        AttributeValue::Styles(x) => match b {
            AttributeValue::Styles(y) => style_eq(x, y),
            _ => false,
        },
    }
}

/// Two values are equal when they are the same, except that a
/// side-effecting value is equal to none, itself included.
impl PartialEq for AttributeValue {
    fn eq(&self, other: &AttributeValue) -> (r: bool) {
        match self {
            AttributeValue::FunctionCall(_) => false,
            _ => value_eq(self, other),
        }
    }
}

impl vstd::std_specs::cmp::PartialEqSpecImpl for AttributeValue {
    open spec fn obeys_eq_spec() -> bool {
        true
    }

    open spec fn eq_spec(&self, other: &AttributeValue) -> bool {
        self@ == other@ && !(self@ is FunctionCall)
    }
}

fn values_eq(a: &Vec<AttributeValue>, b: &Vec<AttributeValue>) -> (r: bool)
    ensures
        r == (values_view(a@) == values_view(b@)),
{
    if a.len() != b.len() {
        assert(values_view(a@).len() != values_view(b@).len());
        return false;
    }
    let mut i: usize = 0;
    while i < a.len()
        invariant
            i <= a@.len(),
            a@.len() == b@.len(),
            forall|k: int| 0 <= k < i ==> #[trigger] a@[k]@ == b@[k]@,
        decreases a@.len() - i,
    {
        if !value_eq(&a[i], &b[i]) {
            assert(values_view(a@)[i as int] != values_view(b@)[i as int]);
            return false;
        }
        i = i + 1;
    }
    assert(values_view(a@) =~= values_view(b@));
    true
}

fn any_call(vs: &Vec<AttributeValue>) -> (r: bool)
    ensures
        r == has_call(values_view(vs@)),
{
    let mut i: usize = 0;
    while i < vs.len()
        invariant
            i <= vs@.len(),
            forall|k: int| 0 <= k < i ==> !(#[trigger] values_view(vs@)[k] is FunctionCall),
        decreases vs@.len() - i,
    {
        if let AttributeValue::FunctionCall(_) = &vs[i] {
            assert(values_view(vs@)[i as int] is FunctionCall);
            return true;
        }
        i = i + 1;
    }
    false
}

fn collect_values(attrs: &Vec<Attribute>, name: &String) -> (r: Vec<AttributeValue>)
    ensures
        values_view(r@) == merged_list(attrs_view(attrs@), name@),
{
    let ghost av = attrs_view(attrs@);
    let mut out: Vec<AttributeValue> = Vec::new();
    let mut i: usize = 0;
    while i < attrs.len()
        invariant
            i <= attrs@.len(),
            av == attrs_view(attrs@),
            values_view(out@) == merged_list(av.subrange(0, i as int), name@),
        decreases attrs@.len() - i,
    {
        let a = &attrs[i];
        let ghost before = values_view(out@);
        assert(av.subrange(0, i + 1).drop_last() =~= av.subrange(0, i as int));
        if a.name == *name {
            let mut j: usize = 0;
            while j < a.values.len()
                invariant
                    j <= a.values@.len(),
                    values_view(out@) == before + live(values_view(a.values@).subrange(0, j as int)),
                decreases a.values@.len() - j,
            {
                let ghost pre = values_view(out@);
                assert(values_view(a.values@).subrange(0, j + 1).drop_last() =~= values_view(a.values@).subrange(0, j as int));
                if let AttributeValue::Empty = &a.values[j] {
                } else {
                    out.push(copy_value(&a.values[j]));
                    assert(values_view(out@) =~= pre.push(a.values@[j as int]@));
                }
                j = j + 1;
            }
            assert(values_view(a.values@).subrange(0, a.values@.len() as int) =~= a@.values);
        }
        i = i + 1;
    }
    assert(av.subrange(0, attrs@.len() as int) =~= av);
    out
}

/// No attribute before position `i` has the name of attribute `i`.
pub open spec fn first_at(attrs: Seq<AttrM>, i: int) -> bool {
    forall|k: int| 0 <= k < i ==> #[trigger] attrs[k].name != attrs[i].name
}

fn is_first(attrs: &Vec<Attribute>, i: usize) -> (r: bool)
    requires
        i < attrs@.len(),
    ensures
        r == first_at(attrs_view(attrs@), i as int),
{
    let ghost av = attrs_view(attrs@);
    let mut j: usize = 0;
    while j < i
        invariant
            j <= i < attrs@.len(),
            av == attrs_view(attrs@),
            forall|k: int| 0 <= k < j ==> #[trigger] av[k].name != av[i as int].name,
        decreases i - j,
    {
        if attrs[j].name == attrs[i].name {
            assert(av[j as int].name == av[i as int].name);
            return false;
        }
        j = j + 1;
    }
    true
}

fn add_entry(old: &Vec<Attribute>, new: &Vec<Attribute>, i: usize) -> (r: Option<Attribute>)
    requires
        i < new@.len(),
    ensures
        ({
            let ov = attrs_view(old@);
            let nv = attrs_view(new@);
            let k = nv[i as int].name;
            match r {
                Some(a) => first_at(nv, i as int) && to_add(ov, nv, k) && a@.name == k
                    && a@.namespace == nv[i as int].namespace && a@.values == merged(nv, k),
                None => !(first_at(nv, i as int) && to_add(ov, nv, k)),
            }
        }),
{
    if !is_first(new, i) {
        return None;
    }
    let name = &new[i].name;
    let nvals = merge_values(new, name);
    if nvals.len() == 0 {
        return None;
    }
    let ovals = merge_values(old, name);
    if !values_eq(&ovals, &nvals) || any_call(&nvals) {
        let a = Attribute { namespace: copy_opt_string(&new[i].namespace), name: name.clone(), values: nvals };
        assert(a@.values =~= values_view(nvals@));
        Some(a)
    } else {
        None
    }
}

fn normalize_values(vs: Vec<AttributeValue>) -> (r: Vec<AttributeValue>)
    ensures
        values_view(r@) == normalize(values_view(vs@)),
{
    let ghost vv = values_view(vs@);
    let mut text = String::new();
    let mut count: usize = 0;
    let mut cs: Vec<AttributeValue> = Vec::new();
    let mut ds: Vec<Style> = Vec::new();
    let mut i: usize = 0;
    while i < vs.len()
        invariant
            i <= vs@.len(),
            vv == values_view(vs@),
            count == plains(vv.subrange(0, i as int)).len(),
            count <= i,
            text@ == join(plains(vv.subrange(0, i as int))),
            values_view(cs@) == calls(vv.subrange(0, i as int)),
            ds@.map_values(|x: Style| x@) == decls(vv.subrange(0, i as int)),
        decreases vs@.len() - i,
    {
        let ghost pre_cs = values_view(cs@);
        let ghost pre_ds = ds@.map_values(|x: Style| x@);
        assert(vv.subrange(0, i + 1).drop_last() =~= vv.subrange(0, i as int));
        match &vs[i] {
            AttributeValue::Styles(d) => {
                let mut k: usize = 0;
                while k < d.len()
                    invariant
                        k <= d@.len(),
                        ds@.len() == pre_ds.len() + k,
                        forall|t: int| 0 <= t < pre_ds.len() ==> #[trigger] ds@[t]@ == pre_ds[t],
                        forall|t: int| 0 <= t < k ==> #[trigger] ds@[pre_ds.len() + t]@ == d@[t]@,
                    decreases d@.len() - k,
                {
                    ds.push(Style { name: d[k].name.clone(), value: d[k].value.clone() });
                    k = k + 1;
                }
                assert forall|x: int| pre_ds.len() <= x < ds@.len() implies #[trigger] ds@[x]@ == d@[x - pre_ds.len()]@ by {
                    let t = x - pre_ds.len();
                    assert(ds@[pre_ds.len() + t]@ == d@[t]@);
                }
                assert(ds@.map_values(|x: Style| x@) =~= pre_ds + d@.map_values(|x: Style| x@));
            },
            AttributeValue::Plain(x) => {
                let ghost pre_text = text@;
                let ghost ps = plains(vv.subrange(0, i as int));
                if count > 0 {
                    text.append(" ");
                }
                text.append(x.as_str());
                count = count + 1;
                proof {
                    reveal_strlit(" ");
                    let ps2 = plains(vv.subrange(0, i + 1));
                    assert(ps2 == ps.push(x@));
                    assert(ps2.drop_last() =~= ps);
                    if ps.len() == 0 {
                        assert(text@ =~= join(ps2));
                    } else {
                        assert(text@ =~= join(ps2));
                    }
                }
            },
            AttributeValue::FunctionCall(_) => {
                cs.push(copy_value(&vs[i]));
                assert(values_view(cs@) =~= pre_cs.push(vv[i as int]));
            },
            AttributeValue::Empty => {},
        }
        i = i + 1;
    }
    assert(vv.subrange(0, vs@.len() as int) =~= vv);
    let mut out: Vec<AttributeValue> = Vec::new();
    if count > 0 {
        out.push(AttributeValue::Plain(text));
    }
    let ghost head = values_view(out@);
    let ghost cv = values_view(cs@);
    out.append(&mut cs);
    assert(values_view(out@) =~= head + cv);
    if ds.len() > 0 {
        let ghost dv = ds@.map_values(|x: Style| x@);
        let ghost pre = values_view(out@);
        out.push(AttributeValue::Styles(ds));
        assert(values_view(out@) =~= pre.push(ValueM::Styles(dv)));
    }
    assert(values_view(out@) =~= normalize(vv));
    out
}

/// The merged value of the attributes named `name`.
pub fn merge_values(attrs: &Vec<Attribute>, name: &String) -> (r: Vec<AttributeValue>)
    ensures
        values_view(r@) == merged(attrs_view(attrs@), name@),
{
    let vs = collect_values(attrs, name);
    normalize_values(vs)
}

/// Compares the attribute sets of two elements. Returns the attributes to
/// apply (one per name, with its merged values) and the names to remove.
pub fn diff_attributes(old: &Vec<Attribute>, new: &Vec<Attribute>) -> (r: (Vec<Attribute>, Vec<String>))
    ensures
        is_add_list(attrs_view(old@), attrs_view(new@), attrs_view(r.0@)),
        is_remove_list(attrs_view(old@), attrs_view(new@), strings_view(r.1@)),
{
    let ghost ov = attrs_view(old@);
    let ghost nv = attrs_view(new@);
    let mut add: Vec<Attribute> = Vec::new();
    let ghost mut src: Seq<int> = Seq::empty();
    let mut i: usize = 0;
    while i < new.len()
        invariant
            i <= new@.len(),
            ov == attrs_view(old@),
            nv == attrs_view(new@),
            src.len() == add@.len(),
            forall|j: int| 0 <= j < add@.len() ==> 0 <= #[trigger] src[j] < i,
            forall|j: int| 0 <= j < add@.len() ==> #[trigger] attrs_view(add@)[j].name == nv[src[j]].name
                && attrs_view(add@)[j].namespace == nv[src[j]].namespace,
            forall|j: int| 0 <= j < add@.len() ==> to_add(ov, nv, #[trigger] attrs_view(add@)[j].name),
            forall|j: int| 0 <= j < add@.len() ==> #[trigger] attrs_view(add@)[j].values == merged(nv, attrs_view(add@)[j].name),
            forall|i2: int| 0 <= i2 < i && to_add(ov, nv, #[trigger] nv[i2].name)
                ==> exists|j: int| 0 <= j < add@.len() && #[trigger] attrs_view(add@)[j].name == nv[i2].name,
            forall|j1: int, j2: int| 0 <= j1 < j2 < add@.len() ==> attrs_view(add@)[j1].name != attrs_view(add@)[j2].name,
        decreases new@.len() - i,
    {
        let ghost prev = attrs_view(add@);
        let e = add_entry(old, new, i);
        match e {
            Some(a) => {
                add.push(a);
                proof {
                    src = src.push(i as int);
                    assert(attrs_view(add@) =~= prev.push(a@));
                }
            },
            None => {
                assert(attrs_view(add@) =~= prev);
            },
        }
        proof {
            let cur = attrs_view(add@);
            assert forall|i2: int| 0 <= i2 < i + 1 && to_add(ov, nv, #[trigger] nv[i2].name)
                implies exists|j: int| 0 <= j < cur.len() && #[trigger] cur[j].name == nv[i2].name by {
                if i2 < i {
                    let j0 = choose|j: int| 0 <= j < prev.len() && #[trigger] prev[j].name == nv[i2].name;
                    assert(cur[j0].name == nv[i2].name);
                } else if !first_at(nv, i as int) {
                    let k = choose|k: int| 0 <= k < i && #[trigger] nv[k].name == nv[i as int].name;
                    let j0 = choose|j: int| 0 <= j < prev.len() && #[trigger] prev[j].name == nv[k].name;
                    assert(cur[j0].name == nv[i2].name);
                } else {
                    assert(cur[cur.len() - 1].name == nv[i2].name);
                }
            }
        }
        i = i + 1;
    }
    proof {
        let cur = attrs_view(add@);
        assert forall|k: Seq<char>| to_add(ov, nv, k)
            implies exists|j: int| 0 <= j < cur.len() && #[trigger] cur[j].name == k by {
            lemma_present_declared(nv, k);
            let i2 = choose|i2: int| 0 <= i2 < nv.len() && #[trigger] nv[i2].name == k;
            assert(to_add(ov, nv, nv[i2].name));
        }
        assert forall|j: int| 0 <= j < cur.len() implies declared_in(nv, #[trigger] cur[j]) by {
            assert(nv[src[j]].name == cur[j].name);
        }
    }
    let rem = removed_names(old, new);
    (add, rem)
}

fn remove_entry(old: &Vec<Attribute>, new: &Vec<Attribute>, i: usize) -> (r: Option<String>)
    requires
        i < old@.len(),
    ensures
        ({
            let ov = attrs_view(old@);
            let nv = attrs_view(new@);
            let k = ov[i as int].name;
            match r {
                Some(s) => first_at(ov, i as int) && to_remove(ov, nv, k) && s@ == k,
                None => !(first_at(ov, i as int) && to_remove(ov, nv, k)),
            }
        }),
{
    if !is_first(old, i) {
        return None;
    }
    let name = &old[i].name;
    let ovals = merge_values(old, name);
    if ovals.len() == 0 {
        return None;
    }
    let nvals = merge_values(new, name);
    if nvals.len() == 0 {
        Some(name.clone())
    } else {
        None
    }
}

fn removed_names(old: &Vec<Attribute>, new: &Vec<Attribute>) -> (rem: Vec<String>)
    ensures
        is_remove_list(attrs_view(old@), attrs_view(new@), strings_view(rem@)),
{
    let ghost ov = attrs_view(old@);
    let ghost nv = attrs_view(new@);
    let mut rem: Vec<String> = Vec::new();
    let ghost mut src: Seq<int> = Seq::empty();
    let mut i: usize = 0;
    while i < old.len()
        invariant
            i <= old@.len(),
            ov == attrs_view(old@),
            nv == attrs_view(new@),
            src.len() == rem@.len(),
            forall|j: int| 0 <= j < rem@.len() ==> 0 <= #[trigger] src[j] < i,
            forall|j: int| 0 <= j < rem@.len() ==> #[trigger] strings_view(rem@)[j] == ov[src[j]].name,
            forall|j: int| 0 <= j < rem@.len() ==> to_remove(ov, nv, #[trigger] strings_view(rem@)[j]),
            forall|i2: int| 0 <= i2 < i && to_remove(ov, nv, #[trigger] ov[i2].name)
                ==> exists|j: int| 0 <= j < rem@.len() && #[trigger] strings_view(rem@)[j] == ov[i2].name,
            forall|j1: int, j2: int| 0 <= j1 < j2 < rem@.len() ==> strings_view(rem@)[j1] != strings_view(rem@)[j2],
        decreases old@.len() - i,
    {
        let ghost prev = strings_view(rem@);
        let e = remove_entry(old, new, i);
        match e {
            Some(s) => {
                let ghost sv = s@;
                rem.push(s);
                proof {
                    src = src.push(i as int);
                    assert(strings_view(rem@) =~= prev.push(sv));
                }
            },
            None => {
                assert(strings_view(rem@) =~= prev);
            },
        }
        proof {
            let cur = strings_view(rem@);
            assert forall|i2: int| 0 <= i2 < i + 1 && to_remove(ov, nv, #[trigger] ov[i2].name)
                implies exists|j: int| 0 <= j < cur.len() && #[trigger] cur[j] == ov[i2].name by {
                if i2 < i {
                    let j0 = choose|j: int| 0 <= j < prev.len() && #[trigger] prev[j] == ov[i2].name;
                    assert(cur[j0] == ov[i2].name);
                } else if !first_at(ov, i as int) {
                    let k = choose|k: int| 0 <= k < i && #[trigger] ov[k].name == ov[i as int].name;
                    let j0 = choose|j: int| 0 <= j < prev.len() && #[trigger] prev[j] == ov[k].name;
                    assert(cur[j0] == ov[i2].name);
                } else {
                    assert(cur[cur.len() - 1] == ov[i2].name);
                }
            }
        }
        i = i + 1;
    }
    proof {
        let cur = strings_view(rem@);
        assert forall|k: Seq<char>| to_remove(ov, nv, k)
            implies exists|j: int| 0 <= j < cur.len() && #[trigger] cur[j] == k by {
            lemma_present_declared(ov, k);
            let i2 = choose|i2: int| 0 <= i2 < ov.len() && #[trigger] ov[i2].name == k;
            assert(to_remove(ov, nv, ov[i2].name));
        }
    }
    rem
}

/// No value of the attributes has a side effect.
pub open spec fn no_calls(attrs: Seq<AttrM>) -> bool {
    forall|a: int, v: int| 0 <= a < attrs.len() && 0 <= v < attrs[a].values.len()
        ==> !(#[trigger] attrs[a].values[v] is FunctionCall)
}

proof fn lemma_live_no_call(vs: Seq<ValueM>)
    requires
        forall|v: int| 0 <= v < vs.len() ==> !(#[trigger] vs[v] is FunctionCall),
    ensures
        forall|v: int| 0 <= v < live(vs).len() ==> !(#[trigger] live(vs)[v] is FunctionCall),
    decreases vs.len(),
{
    if vs.len() > 0 {
        let d = vs.drop_last();
        assert forall|v: int| 0 <= v < d.len() implies !(#[trigger] d[v] is FunctionCall) by {
            assert(d[v] == vs[v]);
        }
        lemma_live_no_call(d);
    }
}

/// Without side-effecting values, no merged list has one.
proof fn lemma_list_no_call(attrs: Seq<AttrM>, name: Seq<char>)
    requires
        no_calls(attrs),
    ensures
        !has_call(merged_list(attrs, name)),
    decreases attrs.len(),
{
    if attrs.len() > 0 {
        let d = attrs.drop_last();
        assert forall|a: int, v: int| 0 <= a < d.len() && 0 <= v < d[a].values.len()
            implies !(#[trigger] d[a].values[v] is FunctionCall) by {
            assert(d[a] == attrs[a]);
        }
        lemma_list_no_call(d, name);
        let last = attrs.last();
        assert forall|v: int| 0 <= v < last.values.len() implies !(#[trigger] last.values[v] is FunctionCall) by {
            assert(attrs[attrs.len() - 1].values[v] == last.values[v]);
        }
        lemma_live_no_call(last.values);
        let mm = merged_list(attrs, name);
        let md = merged_list(d, name);
        assert forall|i: int| 0 <= i < mm.len() implies !(#[trigger] mm[i] is FunctionCall) by {
            if last.name == name {
                if i < md.len() {
                    assert(mm[i] == md[i]);
                } else {
                    assert(mm[i] == live(last.values)[i - md.len()]);
                }
            } else {
                assert(mm[i] == md[i]);
            }
        }
    }
}

proof fn lemma_calls_empty(vs: Seq<ValueM>)
    requires
        !has_call(vs),
    ensures
        calls(vs).len() == 0,
    decreases vs.len(),
{
    if vs.len() > 0 {
        let d = vs.drop_last();
        assert(!has_call(d)) by {
            if has_call(d) {
                let i = choose|i: int| 0 <= i < d.len() && #[trigger] d[i] is FunctionCall;
                assert(vs[i] is FunctionCall);
            }
        }
        lemma_calls_empty(d);
        assert(!(vs[vs.len() - 1] is FunctionCall));
    }
}

/// Without side-effecting values, no merged value has one.
pub proof fn lemma_merged_no_call(attrs: Seq<AttrM>, name: Seq<char>)
    requires
        no_calls(attrs),
    ensures
        !has_call(merged(attrs, name)),
{
    lemma_list_no_call(attrs, name);
    let vs = merged_list(attrs, name);
    lemma_calls_empty(vs);
    let n = merged(attrs, name);
    let head: Seq<ValueM> = if plains(vs).len() > 0 { seq![ValueM::Plain(join(plains(vs)))] } else { Seq::empty() };
    if has_call(n) {
        let i = choose|i: int| 0 <= i < n.len() && #[trigger] n[i] is FunctionCall;
        if i < head.len() {
            assert(n[i] == head[i]);
        }
    }
}

/// Diffing an attribute set without side-effecting values against itself
/// applies and removes nothing.
pub proof fn lemma_attrs_unchanged(attrs: Seq<AttrM>, add: Seq<AttrM>, rem: Seq<Seq<char>>)
    requires
        no_calls(attrs),
        is_add_list(attrs, attrs, add),
        is_remove_list(attrs, attrs, rem),
    ensures
        add.len() == 0,
        rem.len() == 0,
{
    if add.len() > 0 {
        assert(to_add(attrs, attrs, add[0].name));
        lemma_merged_no_call(attrs, add[0].name);
    }
    if rem.len() > 0 {
        assert(to_remove(attrs, attrs, rem[0]));
    }
}

/// What a live element holds of its attributes: each name that is set,
/// with its merged values.
pub open spec fn attr_state(attrs: Seq<AttrM>) -> Map<Seq<char>, Seq<ValueM>> {
    Map::new(|k: Seq<char>| present(attrs, k), |k: Seq<char>| merged(attrs, k))
}

/// An entry of `add` is named `k`.
pub open spec fn adds_name(add: Seq<AttrM>, k: Seq<char>) -> bool {
    exists|j: int| 0 <= j < add.len() && #[trigger] add[j].name == k
}

/// The attribute state after applying the attributes `add` and removing
/// the names `rem`.
pub open spec fn apply_attr_patches(state: Map<Seq<char>, Seq<ValueM>>, add: Seq<AttrM>, rem: Seq<Seq<char>>) -> Map<
    Seq<char>,
    Seq<ValueM>,
> {
    Map::new(
        |k: Seq<char>| adds_name(add, k) || (state.contains_key(k) && !rem.contains(k)),
        |k: Seq<char>|
            if adds_name(add, k) {
                add[choose|j: int| 0 <= j < add.len() && #[trigger] add[j].name == k].values
            } else {
                state[k]
            },
    )
}

/// Applying the attribute patches of two attribute sets to the state of
/// the old one gives the state of the new one.
pub proof fn lemma_attr_patches_round_trip(old: Seq<AttrM>, new: Seq<AttrM>, add: Seq<AttrM>, rem: Seq<Seq<char>>)
    requires
        is_add_list(old, new, add),
        is_remove_list(old, new, rem),
    ensures
        apply_attr_patches(attr_state(old), add, rem) == attr_state(new),
{
    let got = apply_attr_patches(attr_state(old), add, rem);
    let want = attr_state(new);
    assert forall|k: Seq<char>| got.contains_key(k) <==> want.contains_key(k) by {
        if adds_name(add, k) {
            let j = choose|j: int| 0 <= j < add.len() && #[trigger] add[j].name == k;
            assert(to_add(old, new, add[j].name));
        }
        if to_add(old, new, k) {
            assert(adds_name(add, k));
        }
        if to_remove(old, new, k) {
            let j = choose|j: int| 0 <= j < rem.len() && #[trigger] rem[j] == k;
            assert(rem.contains(k));
        }
        if rem.contains(k) {
            let j = choose|j: int| 0 <= j < rem.len() && rem[j] == k;
            assert(to_remove(old, new, rem[j]));
        }
    }
    assert forall|k: Seq<char>| #[trigger] got.contains_key(k) implies got[k] == want[k] by {
        if adds_name(add, k) {
            let j = choose|j: int| 0 <= j < add.len() && #[trigger] add[j].name == k;
            assert(add[j].values == merged(new, add[j].name));
        } else {
            assert(!to_add(old, new, k));
        }
    }
    assert(got =~= want);
}

} // verus!
