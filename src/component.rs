//! Component names and the class names and selectors derived from them.
use vstd::prelude::*;
use vstd::std_specs::iter::IteratorSpec;
use crate::effects::Effects;
use crate::node::{attr_view, values_view, Attribute, AttributeValue, Node, ValueView};

verus! {

/// Whether `c` opens or closes a list of generic arguments.
pub open spec fn is_angle(c: char) -> bool {
    c == '<' || c == '>'
}

/// The index of the first angle bracket at or after `i`, or the length.
pub open spec fn first_angle_from(s: Seq<char>, i: int) -> int
    decreases s.len() - i,
{
    if i >= s.len() {
        s.len() as int
    } else if is_angle(s[i]) {
        i
    } else {
        first_angle_from(s, i + 1)
    }
}

/// The end of the last `::` that ends at or before `j`, or 0 when none does.
pub open spec fn last_sep_end_before(s: Seq<char>, j: int) -> int
    decreases j,
{
    if j < 2 || j > s.len() {
        0
    } else if s[j - 2] == ':' && s[j - 1] == ':' {
        j
    } else {
        last_sep_end_before(s, j - 1)
    }
}

/// The simple name in a full type name: the part before the first angle
/// bracket, and of that the part after the last `::`.
pub open spec fn simple_name_of(s: Seq<char>) -> Seq<char> {
    let base = s.subrange(0, first_angle_from(s, 0));
    base.subrange(last_sep_end_before(base, base.len() as int), base.len() as int)
}

/// A class name under a component's name: the component name alone for an
/// empty class, else the two joined by `__`.
pub open spec fn prefixed_class(component: Seq<char>, class: Seq<char>) -> Seq<char> {
    if class.len() == 0 {
        component
    } else {
        component + seq!['_', '_'] + class
    }
}

/// The CSS selector of a class under a component's name.
pub open spec fn selector_of(component: Seq<char>, class: Seq<char>) -> Seq<char> {
    seq!['.'] + prefixed_class(component, class)
}

/// The selectors of the first `n` classes, separated by single spaces.
pub open spec fn selectors_of(component: Seq<char>, classes: Seq<Seq<char>>, n: int) -> Seq<char>
    decreases n,
{
    if n <= 0 || n > classes.len() {
        Seq::empty()
    } else if n == 1 {
        selector_of(component, classes[0])
    } else {
        selectors_of(component, classes, n - 1) + seq![' '] + selector_of(
            component,
            classes[n - 1],
        )
    }
}

/// The selectors of all the classes `names`, separated by single spaces.
pub open spec fn selectors_of_strings(component: Seq<char>, names: Seq<String>) -> Seq<char> {
    selectors_of(component, names.map_values(|c: String| c@), names.len() as int)
}

/// The characters of `s`, in order.
pub(crate) fn chars_of(s: &str) -> (r: Vec<char>)
    ensures
        r@ == s@,
{
    broadcast use vstd::string::axiom_spec_iter, vstd::string::next_postcondition;

    let mut it = s.chars();
    let mut out: Vec<char> = Vec::new();
    loop
        invariant
            out@ + it.remaining() == s@,
            it.obeys_prophetic_iter_laws(),
            it.decrease() is Some,
        ensures
            out@ == s@,
        decreases it.decrease()->0,
    {
        let ghost before = it.remaining();
        match it.next() {
            Some(c) => {
                out.push(c);
                assert(out@ + it.remaining() =~= s@) by {
                    assert(before == seq![c] + before.drop_first());
                    assert((out@.drop_last() + before) == s@);
                }
            },
            None => {
                assert(out@ =~= s@);
                break;
            },
        }
    }
    out
}

/// Relies on String's FromIterator<&char>: the string of these characters.
#[verifier::external_body]
pub(crate) fn string_of(v: &Vec<char>) -> (r: String)
    ensures
        r@ == v@,
{
    v.iter().collect()
}

fn push_all(dst: &mut Vec<char>, src: &Vec<char>)
    ensures
        final(dst)@ == old(dst)@ + src@,
{
    let mut i: usize = 0;
    while i < src.len()
        invariant
            i <= src@.len(),
            dst@ == old(dst)@ + src@.subrange(0, i as int),
        decreases src@.len() - i,
    {
        dst.push(src[i]);
        i = i + 1;
        assert(dst@ =~= old(dst)@ + src@.subrange(0, i as int));
    }
    assert(src@.subrange(0, i as int) =~= src@);
}

fn copy_range(src: &Vec<char>, lo: usize, hi: usize) -> (r: Vec<char>)
    requires
        lo <= hi <= src@.len(),
    ensures
        r@ == src@.subrange(lo as int, hi as int),
{
    let mut r: Vec<char> = Vec::new();
    let mut i: usize = lo;
    while i < hi
        invariant
            lo <= i <= hi,
            hi <= src@.len(),
            r@ == src@.subrange(lo as int, i as int),
        decreases hi - i,
    {
        r.push(src[i]);
        i = i + 1;
        assert(r@ =~= src@.subrange(lo as int, i as int));
    }
    r
}

/// The simple name in a full type name (`a::b::Editor<x::Msg>` gives
/// `Editor`).
pub fn simple_struct_name(full_name: &Vec<char>) -> (r: Vec<char>)
    ensures
        r@ == simple_name_of(full_name@),
{
    let s = full_name;
    let mut i: usize = 0;
    while i < s.len() && s[i] != '<' && s[i] != '>'
        invariant
            i <= s@.len(),
            first_angle_from(s@, 0) == first_angle_from(s@, i as int),
        decreases s@.len() - i,
    {
        i = i + 1;
    }
    let base = copy_range(s, 0, i);
    let mut j: usize = base.len();
    while j >= 2 && !(base[j - 2] == ':' && base[j - 1] == ':')
        invariant
            j <= base@.len(),
            last_sep_end_before(base@, base@.len() as int) == last_sep_end_before(base@, j as int),
        decreases j,
    {
        j = j - 1;
    }
    let n = base.len();
    if j < 2 {
        copy_range(&base, 0, n)
    } else {
        copy_range(&base, j, n)
    }
}

/// The simple name in the full name of a type, as the compiler writes it:
/// the name before any generic arguments, without its module path.
pub fn extract_simple_struct_name(full_name: &str) -> (r: String)
    ensures
        r@ == simple_name_of(full_name@),
{
    let full = chars_of(full_name);
    let name = simple_struct_name(&full);
    string_of(&name)
}

/// The class name `class_name` under the component name `component_name`.
pub fn prefix_class_of(component_name: &str, class_name: &str) -> (r: String)
    ensures
        r@ == prefixed_class(component_name@, class_name@),
{
    let comp = chars_of(component_name);
    let class = chars_of(class_name);
    let mut out: Vec<char> = Vec::new();
    push_all(&mut out, &comp);
    if class.len() > 0 {
        out.push('_');
        out.push('_');
        push_all(&mut out, &class);
    }
    assert(out@ =~= prefixed_class(component_name@, class_name@));
    string_of(&out)
}

fn selector_chars(comp: &Vec<char>, class: &Vec<char>) -> (r: Vec<char>)
    ensures
        r@ == selector_of(comp@, class@),
{
    let mut out: Vec<char> = Vec::new();
    out.push('.');
    push_all(&mut out, comp);
    if class.len() > 0 {
        out.push('_');
        out.push('_');
        push_all(&mut out, class);
    }
    assert(out@ =~= selector_of(comp@, class@));
    out
}

/// The selector of class `class_name` under the component name.
pub fn selector_ns_of(component_name: &str, class_name: &str) -> (r: String)
    ensures
        r@ == selector_of(component_name@, class_name@),
{
    let comp = chars_of(component_name);
    let class = chars_of(class_name);
    let out = selector_chars(&comp, &class);
    string_of(&out)
}

/// The selectors of all the classes under the component name, joined by
/// single spaces.
pub fn selectors_ns_of(component_name: &str, class_names: &Vec<String>) -> (r: String)
    ensures
        r@ == selectors_of_strings(component_name@, class_names@),
{
    let ghost names = class_names@.map_values(|c: String| c@);
    let comp = chars_of(component_name);
    let mut out: Vec<char> = Vec::new();
    let mut i: usize = 0;
    while i < class_names.len()
        invariant
            i <= class_names@.len(),
            names == class_names@.map_values(|c: String| c@),
            comp@ == component_name@,
            out@ == selectors_of(component_name@, names, i as int),
        decreases class_names@.len() - i,
    {
        let class = chars_of(class_names[i].as_str());
        let sel = selector_chars(&comp, &class);
        if i > 0 {
            out.push(' ');
        }
        push_all(&mut out, &sel);
        i = i + 1;
        assert(out@ =~= selectors_of(component_name@, names, i as int));
    }
    string_of(&out)
}

/// The prefixed names of the first `n` classes whose flag is true, as
/// simple values.
pub open spec fn flagged_classes(component: Seq<char>, pairs: Seq<(String, bool)>, n: int) -> Seq<
    ValueView,
>
    decreases n,
{
    if n <= 0 || n > pairs.len() {
        Seq::empty()
    } else if pairs[n - 1].1 {
        flagged_classes(component, pairs, n - 1).push(
            ValueView::Simple(prefixed_class(component, pairs[n - 1].0@)),
        )
    } else {
        flagged_classes(component, pairs, n - 1)
    }
}

/// The content of a `class` attribute holding one class under a component
/// name.
pub open spec fn class_attr(component: Seq<char>, class: Seq<char>) -> (Seq<char>, Seq<ValueView>) {
    ("class"@, seq![ValueView::Simple(prefixed_class(component, class))])
}

/// A `class` attribute holding `class_name` under `component_name`.
pub fn class_attribute_of(component_name: &str, class_name: &str) -> (r: Attribute)
    ensures
        attr_view(r) == class_attr(component_name@, class_name@),
{
    let name = "class".to_owned();
    let mut value: Vec<AttributeValue> = Vec::new();
    value.push(AttributeValue::Simple(prefix_class_of(component_name, class_name)));
    let r = Attribute { namespace: None, name, value };
    assert(values_view(r.value@) =~= seq![ValueView::Simple(prefixed_class(component_name@, class_name@))]);
    r
}

/// A `class` attribute holding, in order, the classes whose flag is true,
/// each under `component_name`.
pub fn classes_attribute_of(component_name: &str, pairs: &Vec<(String, bool)>) -> (r: Attribute)
    ensures
        r.name@ == "class"@,
        values_view(r.value@) == flagged_classes(component_name@, pairs@, pairs@.len() as int),
{
    let name = "class".to_owned();
    let mut value: Vec<AttributeValue> = Vec::new();
    let mut i: usize = 0;
    while i < pairs.len()
        invariant
            i <= pairs@.len(),
            values_view(value@) == flagged_classes(component_name@, pairs@, i as int),
        decreases pairs@.len() - i,
    {
        if pairs[i].1 {
            let ghost before = values_view(value@);
            value.push(AttributeValue::Simple(prefix_class_of(component_name, pairs[i].0.as_str())));
            assert(values_view(value@) =~= before.push(
                ValueView::Simple(prefixed_class(component_name@, pairs@[i as int].0@)),
            ));
        }
        i = i + 1;
    }
    Attribute { namespace: None, name, value }
}

/// A component has a view and can update itself. Its update hands back
/// follow-ups, run on its own next update, and effects, run in the
/// component that mounts it.
pub trait Component<MSG, XMSG> {
    /// Initialises the component; by default with no follow-ups and no
    /// effects.
    fn init(&mut self) -> Effects<MSG, XMSG> {
        Effects::none()
    }

    /// Updates the component's model with a message.
    fn update(&mut self, msg: MSG) -> Effects<MSG, XMSG>;

    /// The view of the component.
    fn view(&self) -> Node;

    /// The static styles of the component; none by default.
    fn stylesheet() -> Vec<String> {
        Vec::new()
    }

    /// The styles that follow the component's model; none by default.
    fn style(&self) -> Vec<String> {
        Vec::new()
    }

    /// The name of the component, as a sequence of characters.
    spec fn spec_component_name() -> Seq<char>;

    /// The name of the component, which prefixes its class names.
    fn component_name() -> (r: String)
        ensures
            r@ == Self::spec_component_name(),
    ;

    /// A class name under this component's name.
    fn prefix_class(class_name: &str) -> (r: String)
        ensures
            r@ == prefixed_class(Self::spec_component_name(), class_name@),
    {
        let comp = Self::component_name();
        prefix_class_of(comp.as_str(), class_name)
    }

    /// A `class` attribute holding the class name under this component's
    /// name.
    fn class_ns(class_name: &str) -> (r: Attribute)
        ensures
            attr_view(r) == class_attr(Self::spec_component_name(), class_name@),
    {
        let comp = Self::component_name();
        class_attribute_of(comp.as_str(), class_name)
    }

    /// A `class` attribute holding, in order, the names of the classes whose
    /// flag is true, each under this component's name.
    fn classes_ns_flag(pairs: &Vec<(String, bool)>) -> (r: Attribute)
        ensures
            r.name@ == "class"@,
            values_view(r.value@) == flagged_classes(
                Self::spec_component_name(),
                pairs@,
                pairs@.len() as int,
            ),
    {
        let comp = Self::component_name();
        classes_attribute_of(comp.as_str(), pairs)
    }

    /// A selector of a class under this component's name.
    fn selector_ns(class_name: &str) -> (r: String)
        ensures
            r@ == selector_of(Self::spec_component_name(), class_name@),
    {
        let comp = Self::component_name();
        selector_ns_of(comp.as_str(), class_name)
    }

    /// The selectors of the classes under this component's name, separated
    /// by spaces.
    fn selectors_ns(class_names: &Vec<String>) -> (r: String)
        ensures
            r@ == selectors_of_strings(Self::spec_component_name(), class_names@),
    {
        let comp = Self::component_name();
        selectors_ns_of(comp.as_str(), class_names)
    }
}

} // verus!
