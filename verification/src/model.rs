//! The mathematical model of an element tree.

use crate::escape::escaped;
use vstd::prelude::*;

verus! {

/// One attribute: its name and its value.
pub type Attribute = (Seq<char>, Seq<char>);

/// What an element holds between its tags.
pub enum ContentModel {
    Empty,
    Elements(Seq<ElementModel>),
    Text(Seq<char>),
}

/// An element as a mathematical value.
pub struct ElementModel {
    pub name: Seq<char>,
    pub attributes: Seq<Attribute>,
    pub content: ContentModel,
}

/// Some attribute of `attributes` is called `name`.
pub open spec fn has_name(attributes: Seq<Attribute>, name: Seq<char>) -> bool {
    exists|i: int| 0 <= i < attributes.len() && (#[trigger] attributes[i]).0 == name
}

/// The place of an attribute called `name`, where there is one.
pub open spec fn place_of(attributes: Seq<Attribute>, name: Seq<char>) -> int {
    choose|i: int| 0 <= i < attributes.len() && (#[trigger] attributes[i]).0 == name
}

/// No two attributes have the same name.
pub open spec fn distinct_names(attributes: Seq<Attribute>) -> bool {
    forall|i: int, j: int|
        0 <= i < j < attributes.len() ==> (#[trigger] attributes[i]).0 != (
        #[trigger] attributes[j]).0
}

/// `attributes` after `name` is given `value`: an attribute of that name keeps
/// its place and takes the value, a new name goes to the end.
pub open spec fn with_attribute(
    attributes: Seq<Attribute>,
    name: Seq<char>,
    value: Seq<char>,
) -> Seq<Attribute> {
    if has_name(attributes, name) {
        attributes.update(place_of(attributes, name), (name, value))
    } else {
        attributes.push((name, value))
    }
}

/// `text` is the escaped form of some text.
pub open spec fn is_escaped(text: Seq<char>) -> bool {
    exists|raw: Seq<char>| text == #[trigger] escaped(raw)
}

impl ElementModel {
    /// A new element: a name and nothing else.
    pub open spec fn named(name: Seq<char>) -> ElementModel {
        ElementModel { name, attributes: Seq::empty(), content: ContentModel::Empty }
    }

    /// The validity of an element: attribute names are distinct, every stored
    /// value and text is in escaped form, and the children are valid.
    pub open spec fn well_formed(self) -> bool
        decreases self,
    {
        &&& distinct_names(self.attributes)
        &&& forall|i: int|
            0 <= i < self.attributes.len() ==> is_escaped((#[trigger] self.attributes[i]).1)
        &&& match self.content {
            ContentModel::Empty => true,
            ContentModel::Elements(list) => forall|i: int|
                0 <= i < list.len() ==> (#[trigger] list[i]).well_formed(),
            ContentModel::Text(text) => is_escaped(text),
        }
    }

    /// A child can be added: the element holds no text.
    pub open spec fn accepts_child(self) -> bool {
        !(self.content is Text)
    }

    /// Text can be added: the element holds nothing yet.
    pub open spec fn accepts_text(self) -> bool {
        self.content is Empty
    }

    /// The children, in the order in which they were added.
    pub open spec fn children(self) -> Seq<ElementModel> {
        match self.content {
            ContentModel::Elements(list) => list,
            _ => Seq::empty(),
        }
    }

    /// The element after the raw text `value` is given to the attribute `name`.
    pub open spec fn add_attribute(self, name: Seq<char>, value: Seq<char>) -> ElementModel {
        ElementModel {
            attributes: with_attribute(self.attributes, name, escaped(value)),
            ..self
        }
    }

    /// The element after `child` is added behind the children it has.
    pub open spec fn add_child(self, child: ElementModel) -> ElementModel {
        ElementModel { content: ContentModel::Elements(self.children().push(child)), ..self }
    }

    /// The element after the raw text `text` is added.
    pub open spec fn add_text(self, text: Seq<char>) -> ElementModel {
        ElementModel { content: ContentModel::Text(escaped(text)), ..self }
    }

    /// The element after the elements of `list` are added one after the other.
    pub open spec fn add_children(self, list: Seq<ElementModel>) -> ElementModel
        decreases list.len(),
    {
        if list.len() == 0 {
            self
        } else {
            self.add_children(list.drop_last()).add_child(list.last())
        }
    }
}

/// Text and children exclude each other. An element that was given a child
/// accepts further children and no text; an element that was given text
/// accepts neither text nor a child, so text is added at most once. An
/// attribute changes nothing of this.
pub proof fn lemma_content_is_exclusive(
    element: ElementModel,
    child: ElementModel,
    text: Seq<char>,
    name: Seq<char>,
    value: Seq<char>,
)
    ensures
        element.add_child(child).accepts_child(),
        !element.add_child(child).accepts_text(),
        !element.add_text(text).accepts_child(),
        !element.add_text(text).accepts_text(),
        element.add_attribute(name, value).content == element.content,
{
}

/// Children accumulate in the order of the calls: after the elements of
/// `list` are added one by one, the element's children are those it had,
/// followed by `list`. Name and attributes stay as they were.
pub proof fn lemma_children_accumulate(element: ElementModel, list: Seq<ElementModel>)
    requires
        element.accepts_child(),
    ensures
        element.add_children(list).accepts_child(),
        element.add_children(list).children() == element.children() + list,
        element.add_children(list).name == element.name,
        element.add_children(list).attributes == element.attributes,
        list.len() > 0 ==> element.add_children(list).content == ContentModel::Elements(
            element.children() + list,
        ),
    decreases list.len(),
{
    if list.len() == 0 {
        assert(element.children() + list =~= element.children());
    } else {
        lemma_children_accumulate(element, list.drop_last());
        assert((element.children() + list.drop_last()).push(list.last()) =~= element.children()
            + list);
    }
}

/// Adding to a valid element gives a valid element.
pub proof fn lemma_well_formed_is_kept(
    element: ElementModel,
    name: Seq<char>,
    value: Seq<char>,
    child: ElementModel,
    text: Seq<char>,
)
    requires
        element.well_formed(),
    ensures
        ElementModel::named(name).well_formed(),
        element.add_attribute(name, value).well_formed(),
        element.accepts_child() && child.well_formed() ==> element.add_child(child).well_formed(),
        element.add_text(text).well_formed(),
{
    lemma_distinct_names_are_kept(element.attributes, name, escaped(value));
    let after = with_attribute(element.attributes, name, escaped(value));
    assert forall|i: int| 0 <= i < after.len() implies is_escaped((#[trigger] after[i]).1) by {
        if after[i] != (name, escaped(value)) {
            assert(after[i] == element.attributes[i]);
        }
    }
    assert(is_escaped(escaped(text)));
}

/// An attribute that is given a value again keeps its place, and only its
/// value changes: the order of first insertion stands.
pub proof fn lemma_attribute_keeps_its_place(
    attributes: Seq<Attribute>,
    i: int,
    name: Seq<char>,
    value: Seq<char>,
)
    requires
        distinct_names(attributes),
        0 <= i < attributes.len(),
        attributes[i].0 == name,
    ensures
        with_attribute(attributes, name, value) == attributes.update(i, (name, value)),
        with_attribute(attributes, name, value).len() == attributes.len(),
        forall|j: int|
            0 <= j < attributes.len() ==> (#[trigger] with_attribute(attributes, name, value)[j]).0
                == attributes[j].0,
        forall|j: int|
            0 <= j < attributes.len() && j != i ==> #[trigger] with_attribute(
                attributes,
                name,
                value,
            )[j] == attributes[j],
{
    assert(has_name(attributes, name));
    let k = place_of(attributes, name);
    if k < i {
        assert(attributes[k].0 != attributes[i].0);
    } else if i < k {
        assert(attributes[i].0 != attributes[k].0);
    }
}

/// An attribute with a new name goes behind all the others, which stay as
/// they were.
pub proof fn lemma_new_attribute_goes_last(
    attributes: Seq<Attribute>,
    name: Seq<char>,
    value: Seq<char>,
)
    requires
        !has_name(attributes, name),
    ensures
        with_attribute(attributes, name, value) == attributes.push((name, value)),
{
}

/// Names stay distinct when an attribute is given a value, and the name then
/// has that value.
pub proof fn lemma_distinct_names_are_kept(
    attributes: Seq<Attribute>,
    name: Seq<char>,
    value: Seq<char>,
)
    requires
        distinct_names(attributes),
    ensures
        distinct_names(with_attribute(attributes, name, value)),
        has_name(with_attribute(attributes, name, value), name),
        with_attribute(attributes, name, value)[place_of(
            with_attribute(attributes, name, value),
            name,
        )] == (name, value),
{
    let after = with_attribute(attributes, name, value);
    if has_name(attributes, name) {
        let k = place_of(attributes, name);
        lemma_attribute_keeps_its_place(attributes, k, name, value);
        assert(after[k] == (name, value));
    } else {
        assert(after[attributes.len() as int] == (name, value));
        assert forall|i: int, j: int| 0 <= i < j < after.len() implies (#[trigger] after[i]).0 != (
        #[trigger] after[j]).0 by {
            if j == attributes.len() {
                assert(attributes[i].0 != name);
            }
        }
    }
    assert(has_name(after, name));
    let p = place_of(after, name);
    if has_name(attributes, name) {
        let k = place_of(attributes, name);
        if p < k {
            assert(after[p].0 != after[k].0);
        } else if k < p {
            assert(after[k].0 != after[p].0);
        }
    } else {
        if p < attributes.len() {
            assert(attributes[p].0 != name);
        }
    }
}

} // verus!
