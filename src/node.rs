//! The virtual tree: elements with attributes and children, leaves, and
//! fragments, with attribute merging by name.
use vstd::prelude::*;
use crate::component::chars_of;

verus! {

broadcast use vstd::std_specs::vec::group_vec_axioms, vstd::seq::group_seq_axioms;

/// One entry of a style map.
pub struct StyleEntry {
    pub name: String,
    pub value: String,
}

/// The content of style entries, as (name, value) pairs.
pub open spec fn style_view(v: Seq<StyleEntry>) -> Seq<(Seq<char>, Seq<char>)> {
    v.map_values(|e: StyleEntry| (e.name@, e.value@))
}

/// A value of an attribute.
pub enum AttributeValue {
    /// A plain value, as text.
    Simple(String),
    /// Style entries.
    Style(Vec<StyleEntry>),
    /// An event callback, by the handle of the callback in the context that
    /// owns it.
    EventListener(u64),
    /// A function-call-like value, as its descriptor.
    FunctionCall(String),
    /// No value.
    Empty,
}

/// The mathematical content of an attribute value.
pub enum ValueView {
    Simple(Seq<char>),
    Style(Seq<(Seq<char>, Seq<char>)>),
    EventListener(u64),
    FunctionCall(Seq<char>),
    Empty,
}

impl View for AttributeValue {
    type V = ValueView;

    open spec fn view(&self) -> ValueView {
        match self {
            AttributeValue::Simple(s) => ValueView::Simple(s@),
            AttributeValue::Style(v) => ValueView::Style(style_view(v@)),
            AttributeValue::EventListener(h) => ValueView::EventListener(*h),
            AttributeValue::FunctionCall(s) => ValueView::FunctionCall(s@),
            AttributeValue::Empty => ValueView::Empty,
        }
    }
}

/// The views of a list of values.
pub open spec fn values_view(v: Seq<AttributeValue>) -> Seq<ValueView> {
    v.map_values(|a: AttributeValue| a@)
}

/// An attribute: an optional namespace, a name and its values.
pub struct Attribute {
    pub namespace: Option<String>,
    pub name: String,
    pub value: Vec<AttributeValue>,
}

/// The mathematical content of an attribute: its name and its values.
pub open spec fn attr_view(a: Attribute) -> (Seq<char>, Seq<ValueView>) {
    (a.name@, values_view(a.value@))
}

/// The views of a list of attributes.
pub open spec fn attrs_view(v: Seq<Attribute>) -> Seq<(Seq<char>, Seq<ValueView>)> {
    v.map_values(|a: Attribute| attr_view(a))
}

/// A node of the virtual tree.
pub enum Node {
    /// An element: a tag, an optional namespace, attributes and children.
    Element { tag: String, namespace: Option<String>, attrs: Vec<Attribute>, children: Vec<Node> },
    /// Content with no children (text, a comment).
    Leaf(String),
    /// Siblings with no wrapping tag.
    Fragment(Vec<Node>),
}

/// Whether two trees are equal in tags, namespaces, attributes, leaf
/// content and child order.
pub open spec fn same_node(a: Node, b: Node) -> bool
    decreases a, 0int,
{
    match (a, b) {
        (
            Node::Element { tag: t1, namespace: n1, attrs: a1, children: c1 },
            Node::Element { tag: t2, namespace: n2, attrs: a2, children: c2 },
        ) => t1@ == t2@ && opt_view(n1) == opt_view(n2) && attrs_view(a1@) == attrs_view(a2@) && c1@.len() == c2@.len()
            && same_list(c1@, c2@, c1@.len() as int),
        (Node::Leaf(s1), Node::Leaf(s2)) => s1@ == s2@,
        (Node::Fragment(c1), Node::Fragment(c2)) => c1@.len() == c2@.len() && same_list(
            c1@,
            c2@,
            c1@.len() as int,
        ),
        _ => false,
    }
}

/// Whether the first `n` nodes of two lists are pairwise `same_node`.
pub open spec fn same_list(l1: Seq<Node>, l2: Seq<Node>, n: int) -> bool
    decreases l1, n,
{
    if n <= 0 || n > l1.len() || n > l2.len() {
        true
    } else {
        same_list(l1, l2, n - 1) && same_node(l1[n - 1], l2[n - 1])
    }
}

/// `same_node` holds of every tree and itself.
pub proof fn lemma_same_node_refl(a: Node)
    ensures
        same_node(a, a),
    decreases a, 0int,
{
    match a {
        Node::Element { children, .. } => lemma_same_list_refl(children@, children@.len() as int),
        Node::Leaf(_) => {},
        Node::Fragment(children) => lemma_same_list_refl(children@, children@.len() as int),
    }
}

/// `same_list` holds of every list and itself.
pub proof fn lemma_same_list_refl(l: Seq<Node>, n: int)
    ensures
        same_list(l, l, n),
    decreases l, n,
{
    if n > 0 && n <= l.len() {
        lemma_same_list_refl(l, n - 1);
        lemma_same_node_refl(l[n - 1]);
    }
}

/// Merging keeps every value of a name, in order: which of several simple
/// values wins is decided where the attribute is applied to the live tree,
/// where the last one set stays.
/// The attributes merged by name, folding the first `n` of `s` from the
/// left: a name seen before gets the new values appended to its entry, a
/// new name is added at the end.
pub open spec fn merge_upto(s: Seq<(Seq<char>, Seq<ValueView>)>, n: int) -> Seq<
    (Seq<char>, Seq<ValueView>),
>
    decreases n,
{
    if n <= 0 || n > s.len() {
        Seq::empty()
    } else {
        let m = merge_upto(s, n - 1);
        let a = s[n - 1];
        let k = index_of_name(m, a.0);
        if k < m.len() {
            m.update(k, (m[k].0, m[k].1 + a.1))
        } else {
            m.push(a)
        }
    }
}

/// All the attributes of `s` merged by name, in order of first occurrence.
pub open spec fn merged(s: Seq<(Seq<char>, Seq<ValueView>)>) -> Seq<(Seq<char>, Seq<ValueView>)> {
    merge_upto(s, s.len() as int)
}

/// The index of the first entry named `name`, or the length.
pub open spec fn index_of_name(m: Seq<(Seq<char>, Seq<ValueView>)>, name: Seq<char>) -> int {
    index_of_name_from(m, name, 0)
}

/// The index of the first entry at or after `i` named `name`, or the length.
pub open spec fn index_of_name_from(
    m: Seq<(Seq<char>, Seq<ValueView>)>,
    name: Seq<char>,
    i: int,
) -> int
    decreases m.len() - i,
{
    if i >= m.len() {
        m.len() as int
    } else if m[i].0 == name {
        i
    } else {
        index_of_name_from(m, name, i + 1)
    }
}

pub proof fn lemma_index_of_name_from_bounds(
    m: Seq<(Seq<char>, Seq<ValueView>)>,
    name: Seq<char>,
    i: int,
)
    requires
        0 <= i <= m.len(),
    ensures
        i <= index_of_name_from(m, name, i) <= m.len(),
        index_of_name_from(m, name, i) < m.len() ==> m[index_of_name_from(m, name, i)].0
            == name,
    decreases m.len() - i,
{
    if i < m.len() && m[i].0 != name {
        lemma_index_of_name_from_bounds(m, name, i + 1);
    }
}

/// Whether the names of the entries of `m` are pairwise distinct.
pub open spec fn names_unique(m: Seq<(Seq<char>, Seq<ValueView>)>) -> bool {
    forall|i: int, j: int| 0 <= i < j < m.len() ==> m[i].0 != m[j].0
}

pub proof fn lemma_index_not_found(m: Seq<(Seq<char>, Seq<ValueView>)>, name: Seq<char>, i: int, j: int)
    requires
        0 <= i <= j < m.len(),
        index_of_name_from(m, name, i) == m.len(),
    ensures
        m[j].0 != name,
    decreases j - i,
{
    if i < j {
        lemma_index_not_found(m, name, i + 1, j);
    }
}

/// In a list with distinct names, an entry is found at its own index.
pub proof fn lemma_index_of_unique(m: Seq<(Seq<char>, Seq<ValueView>)>, i: int, j: int)
    requires
        names_unique(m),
        0 <= i <= j < m.len(),
    ensures
        index_of_name_from(m, m[j].0, i) == j,
    decreases j - i,
{
    if i < j {
        lemma_index_of_unique(m, i + 1, j);
    }
}

/// Merging by name leaves each name once.
pub proof fn lemma_merge_unique(s: Seq<(Seq<char>, Seq<ValueView>)>, n: int)
    ensures
        names_unique(merge_upto(s, n)),
    decreases n,
{
    if n > 0 && n <= s.len() {
        lemma_merge_unique(s, n - 1);
        let m = merge_upto(s, n - 1);
        let a = s[n - 1];
        lemma_index_of_name_from_bounds(m, a.0, 0);
        let k = index_of_name(m, a.0);
        if k >= m.len() {
            assert forall|j: int| 0 <= j < m.len() implies m[j].0 != a.0 by {
                lemma_index_not_found(m, a.0, 0, j);
            }
        }
    }
}

/// The names whose attributes are re-applied whenever they are present,
/// because the live tree's state may have drifted from the last rendered
/// value.
pub open spec fn reserved(name: Seq<char>) -> bool {
    name == "value"@ || name == "checked"@ || name == "disabled"@ || name == "open"@
}

/// Whether `a` is a `replace` attribute that is set: its first value is
/// the simple value `true`.
pub open spec fn replace_set(a: Attribute) -> bool {
    a.name@ == "replace"@ && a.value@.len() > 0 && a.value@[0]@ == ValueView::Simple("true"@)
}

/// Whether no attribute in `a` has a reserved name or is a set `replace`.
pub open spec fn attrs_plain(a: Seq<Attribute>) -> bool {
    forall|i: int| 0 <= i < a.len() ==> !reserved(#[trigger] a[i].name@) && !replace_set(a[i])
}

/// Whether no element in the tree has an attribute with a reserved name or
/// a set `replace`.
pub open spec fn no_reserved(n: Node) -> bool
    decreases n, 0int,
{
    match n {
        Node::Element { attrs, children, .. } => attrs_plain(attrs@) && no_reserved_list(
            children@,
            children@.len() as int,
        ),
        Node::Leaf(_) => true,
        Node::Fragment(children) => no_reserved_list(children@, children@.len() as int),
    }
}

/// Whether `no_reserved` holds of the first `n` nodes of `l`.
pub open spec fn no_reserved_list(l: Seq<Node>, n: int) -> bool
    decreases l, n,
{
    if n <= 0 || n > l.len() {
        true
    } else {
        no_reserved_list(l, n - 1) && no_reserved(l[n - 1])
    }
}

proof fn lemma_no_reserved_list_at(l: Seq<Node>, n: int, k: int)
    requires
        no_reserved_list(l, n),
        0 <= k < n <= l.len(),
    ensures
        no_reserved(l[k]),
    decreases n,
{
    if k < n - 1 {
        lemma_no_reserved_list_at(l, n - 1, k);
    }
}

/// `no_reserved_list` gives `no_reserved` of each of the nodes it covers.
pub proof fn lemma_no_reserved_each(l: Seq<Node>, n: int)
    requires
        no_reserved_list(l, n),
        n <= l.len(),
    ensures
        forall|k: int| 0 <= k < n ==> no_reserved(#[trigger] l[k]),
{
    assert forall|k: int| 0 <= k < n implies no_reserved(#[trigger] l[k]) by {
        lemma_no_reserved_list_at(l, n, k);
    }
}

proof fn lemma_same_list_at(l1: Seq<Node>, l2: Seq<Node>, n: int, k: int)
    requires
        same_list(l1, l2, n),
        0 <= k < n <= l1.len(),
        n <= l2.len(),
    ensures
        same_node(l1[k], l2[k]),
    decreases n,
{
    if k < n - 1 {
        lemma_same_list_at(l1, l2, n - 1, k);
    }
}

/// `same_list` is `same_node` of each pair it covers.
pub proof fn lemma_same_list_each(l1: Seq<Node>, l2: Seq<Node>, n: int)
    requires
        0 <= n <= l1.len(),
        n <= l2.len(),
    ensures
        same_list(l1, l2, n) <==> forall|k: int| 0 <= k < n ==> same_node(#[trigger] l1[k], l2[k]),
    decreases n,
{
    if n > 0 {
        lemma_same_list_each(l1, l2, n - 1);
        if same_list(l1, l2, n) {
            assert forall|k: int| 0 <= k < n implies same_node(#[trigger] l1[k], l2[k]) by {
                lemma_same_list_at(l1, l2, n, k);
            }
        }
    }
}

/// Whether `name` is a reserved attribute name.
pub fn is_reserved(name: &String) -> (r: bool)
    ensures
        r == reserved(name@),
{
    let n = chars_of(name.as_str());
    chars_are(&n, "value") || chars_are(&n, "checked") || chars_are(&n, "disabled") || chars_are(
        &n,
        "open",
    )
}

/// Whether `name` is the text `lit`.
pub fn name_is(name: &String, lit: &str) -> (r: bool)
    ensures
        r == (name@ == lit@),
{
    let n = chars_of(name.as_str());
    chars_are(&n, lit)
}

fn chars_are(v: &Vec<char>, lit: &str) -> (r: bool)
    ensures
        r == (v@ == lit@),
{
    let w = chars_of(lit);
    if v.len() != w.len() {
        return false;
    }
    let mut i: usize = 0;
    while i < v.len()
        invariant
            i <= v@.len(),
            v@.len() == w@.len(),
            w@ == lit@,
            forall|k: int| 0 <= k < i ==> v@[k] == w@[k],
        decreases v@.len() - i,
    {
        if v[i] != w[i] {
            assert(v@[i as int] != lit@[i as int]);
            return false;
        }
        i = i + 1;
    }
    assert(v@ =~= w@);
    true
}

pub fn same_values(a: &Vec<AttributeValue>, b: &Vec<AttributeValue>) -> (r: bool)
    ensures
        r == (values_view(a@) == values_view(b@)),
{
    if a.len() != b.len() {
        assert(values_view(a@).len() != values_view(b@).len());
        return false;
    }
    let mut i: usize = 0;
    while i < a.len()
        invariant
            i <= a@.len(),
            a@.len() == b@.len(),
            forall|k: int| 0 <= k < i ==> (#[trigger] a@[k])@ == b@[k]@,
        decreases a@.len() - i,
    {
        if !a[i].same_value(&b[i]) {
            assert(values_view(a@)[i as int] != values_view(b@)[i as int]);
            return false;
        }
        i = i + 1;
    }
    assert(values_view(a@) =~= values_view(b@));
    true
}

fn dup_values(v: &Vec<AttributeValue>) -> (r: Vec<AttributeValue>)
    ensures
        values_view(r@) == values_view(v@),
{
    let mut out: Vec<AttributeValue> = Vec::new();
    let mut i: usize = 0;
    while i < v.len()
        invariant
            i <= v@.len(),
            out@.len() == i,
            forall|k: int| 0 <= k < i ==> (#[trigger] out@[k])@ == v@[k]@,
        decreases v@.len() - i,
    {
        out.push(v[i].duplicate());
        i = i + 1;
    }
    assert(values_view(out@) =~= values_view(v@));
    out
}

/// The index of the first attribute of `m` named `name`, or the length.
pub fn find_name(m: &Vec<Attribute>, name: &String) -> (k: usize)
    ensures
        k == index_of_name(attrs_view(m@), name@),
{
    let ghost mv = attrs_view(m@);
    let mut i: usize = 0;
    while i < m.len() && !(m[i].name == *name)
        invariant
            i <= m@.len(),
            mv == attrs_view(m@),
            index_of_name_from(mv, name@, 0) == index_of_name_from(mv, name@, i as int),
        decreases m@.len() - i,
    {
        i = i + 1;
    }
    i
}

impl Attribute {
    /// A copy of this attribute.
    pub fn duplicate(&self) -> (r: Attribute)
        ensures
            attr_view(r) == attr_view(*self),
            opt_view(r.namespace) == opt_view(self.namespace),
    {
        Attribute {
            namespace: copy_opt(&self.namespace),
            name: copy_string(&self.name),
            value: dup_values(&self.value),
        }
    }

    /// The attributes merged by name: one entry per name, in order of first
    /// occurrence, holding the values of all the entries with that name in
    /// order.
    pub fn merge_attributes_of_same_name(attrs: &Vec<Attribute>) -> (r: Vec<Attribute>)
        ensures
            attrs_view(r@) == merged(attrs_view(attrs@)),
            names_unique(attrs_view(r@)),
    {
        let ghost s = attrs_view(attrs@);
        let mut out: Vec<Attribute> = Vec::new();
        let mut i: usize = 0;
        while i < attrs.len()
            invariant
                i <= attrs@.len(),
                s == attrs_view(attrs@),
                attrs_view(out@) == merge_upto(s, i as int),
            decreases attrs@.len() - i,
        {
            let ghost m = attrs_view(out@);
            let k = find_name(&out, &attrs[i].name);
            proof {
                lemma_index_of_name_from_bounds(m, s[i as int].0, 0);
            }
            if k < out.len() {
                let mut entry = out.remove(k);
                let mut extra = dup_values(&attrs[i].value);
                let ghost ev = values_view(entry.value@);
                entry.value.append(&mut extra);
                assert(values_view(entry.value@) =~= ev + s[i as int].1);
                out.insert(k, entry);
                assert(attrs_view(out@) =~= m.update(k as int, (m[k as int].0, m[k as int].1 + s[i as int].1)));
            } else {
                out.push(attrs[i].duplicate());
                assert(attrs_view(out@) =~= m.push(s[i as int]));
            }
            i = i + 1;
        }
        proof {
            lemma_merge_unique(s, s.len() as int);
        }
        out
    }
}

impl Node {
    /// A copy of this tree.
    pub fn duplicate(&self) -> (r: Node)
        ensures
            same_node(*self, r),
        decreases *self, 1int,
    {
        match self {
            Node::Element { tag, namespace, attrs, children } => {
                let mut a: Vec<Attribute> = Vec::new();
                let mut i: usize = 0;
                while i < attrs.len()
                    invariant
                        i <= attrs@.len(),
                        a@.len() == i,
                        forall|k: int| 0 <= k < i ==> attr_view(#[trigger] a@[k]) == attr_view(attrs@[k]),
                    decreases attrs@.len() - i,
                {
                    a.push(attrs[i].duplicate());
                    i = i + 1;
                }
                assert(attrs_view(a@) =~= attrs_view(attrs@));
                let c = Node::duplicate_list(children);
                Node::Element { tag: copy_string(tag), namespace: copy_opt(namespace), attrs: a, children: c }
            },
            Node::Leaf(s) => Node::Leaf(copy_string(s)),
            Node::Fragment(children) => Node::Fragment(Node::duplicate_list(children)),
        }
    }

    /// A copy of each tree of the list.
    pub fn duplicate_list(l: &Vec<Node>) -> (r: Vec<Node>)
        ensures
            r@.len() == l@.len(),
            same_list(l@, r@, l@.len() as int),
        decreases l@, 0int,
    {
        let mut out: Vec<Node> = Vec::new();
        let mut i: usize = 0;
        while i < l.len()
            invariant
                i <= l@.len(),
                out@.len() == i,
                forall|k: int| 0 <= k < i ==> same_node(l@[k], #[trigger] out@[k]),
            decreases l@.len() - i,
        {
            out.push(l[i].duplicate());
            i = i + 1;
        }
        proof {
            lemma_same_list_each(l@, out@, l@.len() as int);
        }
        out
    }
}

/// The content of an optional string.
pub open spec fn opt_view(t: Option<String>) -> Option<Seq<char>> {
    match t {
        Some(s) => Some(s@),
        None => None,
    }
}

/// A copy of an optional string.
pub fn copy_opt(t: &Option<String>) -> (r: Option<String>)
    ensures
        opt_view(r) == opt_view(*t),
{
    match t {
        Some(s) => Some(copy_string(s)),
        None => None,
    }
}

/// Whether two optional strings have the same content.
pub fn same_opt(a: &Option<String>, b: &Option<String>) -> (r: bool)
    ensures
        r == (opt_view(*a) == opt_view(*b)),
{
    match (a, b) {
        (Some(x), Some(y)) => *x == *y,
        (None, None) => true,
        _ => false,
    }
}

/// A copy of a string, with the same characters.
pub fn copy_string(s: &String) -> (r: String)
    ensures
        r@ == s@,
{
    s.clone()
}

impl AttributeValue {
    /// A copy of this value.
    pub fn duplicate(&self) -> (r: AttributeValue)
        ensures
            r@ == self@,
    {
        match self {
            AttributeValue::Simple(s) => AttributeValue::Simple(copy_string(s)),
            AttributeValue::Style(v) => {
                let mut out: Vec<StyleEntry> = Vec::new();
                let mut i: usize = 0;
                while i < v.len()
                    invariant
                        i <= v@.len(),
                        out@.len() == i,
                        forall|k: int|
                            0 <= k < i ==> (#[trigger] out@[k]).name@ == v@[k].name@ && out@[k].value@
                                == v@[k].value@,
                    decreases v@.len() - i,
                {
                    out.push(
                        StyleEntry { name: copy_string(&v[i].name), value: copy_string(&v[i].value) },
                    );
                    i = i + 1;
                }
                assert(style_view(out@) =~= style_view(v@));
                AttributeValue::Style(out)
            },
            AttributeValue::EventListener(h) => AttributeValue::EventListener(*h),
            AttributeValue::FunctionCall(s) => AttributeValue::FunctionCall(copy_string(s)),
            AttributeValue::Empty => AttributeValue::Empty,
        }
    }

    /// Whether two values have the same content.
    pub fn same_value(&self, other: &AttributeValue) -> (r: bool)
        ensures
            r == (self@ == other@),
    {
        match (self, other) {
            (AttributeValue::Simple(a), AttributeValue::Simple(b)) => {
                let r = *a == *b;
                assert(r == (self@ == other@));
                r
            },
            (AttributeValue::Style(a), AttributeValue::Style(b)) => {
                if a.len() != b.len() {
                    proof {
                        assert(style_view(a@).len() != style_view(b@).len());
                    }
                    return false;
                }
                let mut i: usize = 0;
                while i < a.len()
                    invariant
                        i <= a@.len(),
                        a@.len() == b@.len(),
                        self@ == ValueView::Style(style_view(a@)),
                        other@ == ValueView::Style(style_view(b@)),
                        forall|k: int|
                            0 <= k < i ==> (#[trigger] a@[k]).name@ == b@[k].name@ && a@[k].value@
                                == b@[k].value@,
                    decreases a@.len() - i,
                {
                    if !(a[i].name == b[i].name && a[i].value == b[i].value) {
                        proof {
                            assert(style_view(a@)[i as int] != style_view(b@)[i as int]);
                        }
                        return false;
                    }
                    i = i + 1;
                }
                assert(style_view(a@) =~= style_view(b@));
                assert(self@ == other@);
                true
            },
            (AttributeValue::EventListener(a), AttributeValue::EventListener(b)) => *a == *b,
            (AttributeValue::FunctionCall(a), AttributeValue::FunctionCall(b)) => {
                let r = *a == *b;
                assert(r == (self@ == other@));
                r
            },
            (AttributeValue::Empty, AttributeValue::Empty) => true,
            _ => false,
        }
    }
}

fn same_attrs(a: &Vec<Attribute>, b: &Vec<Attribute>) -> (r: bool)
    ensures
        r == (attrs_view(a@) == attrs_view(b@)),
{
    if a.len() != b.len() {
        assert(attrs_view(a@).len() != attrs_view(b@).len());
        return false;
    }
    let mut i: usize = 0;
    while i < a.len()
        invariant
            i <= a@.len(),
            a@.len() == b@.len(),
            forall|k: int| 0 <= k < i ==> attr_view(#[trigger] a@[k]) == attr_view(b@[k]),
        decreases a@.len() - i,
    {
        if !(a[i].name == b[i].name) || !same_values(&a[i].value, &b[i].value) {
            assert(attrs_view(a@)[i as int] != attrs_view(b@)[i as int]);
            return false;
        }
        i = i + 1;
    }
    assert(attrs_view(a@) =~= attrs_view(b@));
    true
}

/// Whether two trees are equal in tags, attributes, leaf content and child
/// order.
pub fn same_tree(a: &Node, b: &Node) -> (r: bool)
    ensures
        r == same_node(*a, *b),
    decreases *a, 1int,
{
    match (a, b) {
        (
            Node::Element { tag: t1, namespace: n1, attrs: a1, children: c1 },
            Node::Element { tag: t2, namespace: n2, attrs: a2, children: c2 },
        ) => *t1 == *t2 && same_opt(n1, n2) && same_attrs(a1, a2) && c1.len() == c2.len() && same_trees(c1, c2),
        (Node::Leaf(s1), Node::Leaf(s2)) => *s1 == *s2,
        (Node::Fragment(c1), Node::Fragment(c2)) => c1.len() == c2.len() && same_trees(c1, c2),
        _ => false,
    }
}

fn same_trees(l1: &Vec<Node>, l2: &Vec<Node>) -> (r: bool)
    requires
        l1@.len() == l2@.len(),
    ensures
        r == same_list(l1@, l2@, l1@.len() as int),
    decreases l1@, 0int,
{
    let mut i: usize = 0;
    while i < l1.len()
        invariant
            i <= l1@.len(),
            l1@.len() == l2@.len(),
            forall|k: int| 0 <= k < i ==> same_node(#[trigger] l1@[k], l2@[k]),
        decreases l1@.len() - i,
    {
        if !same_tree(&l1[i], &l2[i]) {
            proof {
                lemma_same_list_each(l1@, l2@, l1@.len() as int);
            }
            return false;
        }
        i = i + 1;
    }
    proof {
        lemma_same_list_each(l1@, l2@, l1@.len() as int);
    }
    true
}

} // verus!
